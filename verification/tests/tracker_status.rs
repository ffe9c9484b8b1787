//! Registry of tracker announce statuses.

use librtbit_tracker_comms::tracker_status::{now_unix, unix_seconds};
use librtbit_tracker_comms::{TrackerAnnounceState, TrackerStatus, TrackerStatusRegistry};

fn only(registry: &TrackerStatusRegistry) -> TrackerStatus {
    let mut statuses = registry.snapshot();
    assert_eq!(statuses.len(), 1);
    statuses.pop().unwrap()
}

#[test]
fn registered_tracker_is_not_contacted() {
    let mut registry = TrackerStatusRegistry::default();
    assert!(registry.snapshot().is_empty());
    registry.ensure("udp://a");
    let status = only(&registry);
    assert_eq!(status.url, "udp://a");
    assert_eq!(status.state, TrackerAnnounceState::NotContacted);
    assert_eq!(status.seeders, None);
    assert_eq!(status.leechers, None);
    assert_eq!(status.peers_returned, None);
    assert_eq!(status.last_announce_unix, None);
    assert_eq!(status.interval_secs, None);
    assert_eq!(status.last_error, None);
}

#[test]
fn registering_again_changes_nothing() {
    let mut registry = TrackerStatusRegistry::default();
    registry.record_error("udp://a", "refused");
    registry.ensure("udp://a");
    let status = only(&registry);
    assert_eq!(status.state, TrackerAnnounceState::Error);
    assert_eq!(status.last_error, Some("refused".to_owned()));
}

#[test]
fn only_a_tracker_that_was_not_contacted_becomes_updating() {
    let mut registry = TrackerStatusRegistry::default();
    registry.record_updating("udp://a");
    assert_eq!(only(&registry).state, TrackerAnnounceState::Updating);
    registry.record_success_at("udp://a", None, None, 0, 60, 1);
    registry.record_updating("udp://a");
    assert_eq!(only(&registry).state, TrackerAnnounceState::Working);
    registry.record_error("udp://a", "x");
    registry.record_updating("udp://a");
    assert_eq!(only(&registry).state, TrackerAnnounceState::Error);
    registry.record_disabled("udp://a", "x");
    registry.record_updating("udp://a");
    assert_eq!(only(&registry).state, TrackerAnnounceState::Disabled);
}

#[test]
fn success_holds_what_the_last_announce_reported() {
    let mut registry = TrackerStatusRegistry::default();
    registry.record_error("udp://a", "refused");
    registry.record_success_at("udp://a", Some(1), Some(2), 3, 60, 100);
    let status = only(&registry);
    assert_eq!(status.state, TrackerAnnounceState::Working);
    assert_eq!(status.seeders, Some(1));
    assert_eq!(status.leechers, Some(2));
    assert_eq!(status.peers_returned, Some(3));
    assert_eq!(status.last_announce_unix, Some(100));
    assert_eq!(status.interval_secs, Some(60));
    assert_eq!(status.last_error, None);

    registry.record_success_at("udp://a", None, Some(5), 6, 70, 200);
    let status = only(&registry);
    assert_eq!(status.seeders, None);
    assert_eq!(status.leechers, Some(5));
    assert_eq!(status.peers_returned, Some(6));
    assert_eq!(status.last_announce_unix, Some(200));
    assert_eq!(status.interval_secs, Some(70));
}

#[test]
fn failure_keeps_what_the_last_success_reported() {
    let mut registry = TrackerStatusRegistry::default();
    registry.record_success_at("udp://a", Some(1), Some(2), 3, 60, 100);
    registry.record_error("udp://a", "timed out");
    let status = only(&registry);
    assert_eq!(status.state, TrackerAnnounceState::Error);
    assert_eq!(status.last_error, Some("timed out".to_owned()));
    assert_eq!(status.seeders, Some(1));
    assert_eq!(status.last_announce_unix, Some(100));

    registry.record_disabled("udp://a", "proxy");
    let status = only(&registry);
    assert_eq!(status.state, TrackerAnnounceState::Disabled);
    assert_eq!(status.last_error, Some("proxy".to_owned()));
    assert_eq!(status.peers_returned, Some(3));
}

#[test]
fn other_trackers_are_left_alone() {
    let mut registry = TrackerStatusRegistry::default();
    registry.record_error("udp://a", "x");
    registry.record_updating("udp://b");
    registry.record_success_at("udp://c", None, None, 1, 2, 3);
    let states: Vec<TrackerAnnounceState> =
        registry.snapshot().iter().map(|status| status.state).collect();
    assert_eq!(
        states,
        vec![
            TrackerAnnounceState::Error,
            TrackerAnnounceState::Updating,
            TrackerAnnounceState::Working
        ]
    );
}

#[test]
fn snapshot_is_sorted_by_url() {
    let mut urls = vec![
        "udp://b", "http://z", "udp://a", "", "udp://ab", "udp://\u{e9}", "udp://Z", "udp://a",
    ];
    let mut registry = TrackerStatusRegistry::default();
    for url in &urls {
        registry.ensure(url);
    }
    urls.sort();
    urls.dedup();
    let snapshot: Vec<String> = registry
        .snapshot()
        .iter()
        .map(|status| status.url.clone())
        .collect();
    assert_eq!(snapshot, urls);
}

#[test]
fn success_is_recorded_at_the_present_time() {
    let before = now_unix();
    let mut registry = TrackerStatusRegistry::default();
    registry.record_success("udp://a", None, None, 0, 60);
    let after = now_unix();
    let recorded = only(&registry).last_announce_unix.unwrap();
    assert!(before > 1_600_000_000);
    assert!(before <= recorded && recorded <= after);
}

#[test]
fn clock_before_the_epoch_reads_zero() {
    assert_eq!(unix_seconds(None), 0);
    assert_eq!(unix_seconds(Some(12)), 12);
}

#[test]
fn success_without_counts_leaves_none() {
    let mut registry = TrackerStatusRegistry::default();
    registry.record_success("u", Some(5), Some(7), 3, 60);
    registry.record_success("u", None, None, 4, 90);
    let status = only(&registry);
    assert_eq!(status.state, TrackerAnnounceState::Working);
    assert_eq!(status.peers_returned, Some(4));
    assert_eq!(status.interval_secs, Some(90));
    assert_eq!(status.seeders, None);
    assert_eq!(status.leechers, None);
}
