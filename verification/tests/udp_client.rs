//! State of a client of UDP trackers.

use librtbit_tracker_comms::addr::{IpAddr, Ipv4Addr, SocketAddr};
use librtbit_tracker_comms::hash_id::Id20;
use librtbit_tracker_comms::tracker_comms_udp::{
    AnnounceFields, AnnounceResponse, ParseError, Request, Response, ACTION_ANNOUNCE,
    ACTION_CONNECT, ACTION_ERROR, EVENT_STARTED,
};
use librtbit_tracker_comms::udp_client::{
    finish_request, AnnounceError, Outcome, Received, Session, Step, CONNECTION_ID_LIFETIME,
};
use librtbit_tracker_comms::UdpTrackerClient;

const SECOND: u128 = 1_000_000_000;

fn tracker(last: u8) -> SocketAddr {
    SocketAddr::new(
        IpAddr::V4(Ipv4Addr {
            bits: u32::from_be_bytes([10, 0, 0, last]),
        }),
        6969,
    )
}

fn fields(port: u16) -> AnnounceFields {
    AnnounceFields {
        info_hash: Id20::new([1; 20]),
        peer_id: Id20::new([2; 20]),
        downloaded: 1,
        left: 2,
        uploaded: 3,
        event: EVENT_STARTED,
        key: 4,
        port,
    }
}

fn announced() -> AnnounceResponse {
    AnnounceResponse {
        interval: 1800,
        leechers: 1,
        seeders: 2,
        addrs: vec![tracker(9)],
    }
}

fn reply(action: u32, transaction_id: u32, body: &[u8]) -> Vec<u8> {
    let mut datagram = Vec::new();
    datagram.extend_from_slice(&action.to_be_bytes());
    datagram.extend_from_slice(&transaction_id.to_be_bytes());
    datagram.extend_from_slice(body);
    datagram
}

/// A client that got connection id 77 from the tracker at `now`.
fn connected(tracker: SocketAddr, now: u128) -> UdpTrackerClient<u8> {
    let mut client = UdpTrackerClient::new();
    let session = Session::Connecting {
        tracker,
        fields: fields(1),
    };
    match client.advance(session, Outcome::Answered(Response::Connect(77)), now) {
        Step::Send(Session::Announcing { .. }, Request::Announce(77, sent)) => {
            assert_eq!(sent.port, 1)
        }
        other => panic!("unexpected {:?}", other),
    }
    client
}

#[test]
fn connection_id_is_used_for_sixty_seconds() {
    let t = 5 * SECOND;
    let client = connected(tracker(1), t);
    assert_eq!(CONNECTION_ID_LIFETIME, 60 * SECOND);
    assert_eq!(client.cached_connection_id(tracker(1), t), Some(77));
    assert_eq!(client.cached_connection_id(tracker(1), 0), Some(77));
    assert_eq!(
        client.cached_connection_id(tracker(1), t + 60 * SECOND - 1),
        Some(77)
    );
    assert_eq!(
        client.cached_connection_id(tracker(1), t + 60 * SECOND),
        None
    );
    assert_eq!(client.cached_connection_id(tracker(2), t), None);
}

#[test]
fn announce_goes_straight_out_with_a_known_connection_id() {
    let client = connected(tracker(1), 0);
    match client.announce(tracker(1), fields(2), 59 * SECOND) {
        Step::Send(Session::Announcing { tracker: to }, Request::Announce(77, sent)) => {
            assert_eq!(to, tracker(1));
            assert_eq!(sent.port, 2);
        }
        other => panic!("unexpected {:?}", other),
    }
}

#[test]
fn announce_connects_first_otherwise() {
    let client = connected(tracker(1), 0);
    for (to, now) in [(tracker(1), 60 * SECOND), (tracker(2), 0)] {
        match client.announce(to, fields(2), now) {
            Step::Send(Session::Connecting { tracker, fields }, Request::Connect) => {
                assert_eq!(tracker, to);
                assert_eq!(fields.port, 2);
            }
            other => panic!("unexpected {:?}", other),
        }
    }
}

#[test]
fn newer_connection_id_replaces_the_older() {
    let mut client = connected(tracker(1), 0);
    let session = Session::Connecting {
        tracker: tracker(1),
        fields: fields(1),
    };
    client.advance(
        session,
        Outcome::Answered(Response::Connect(78)),
        100 * SECOND,
    );
    assert_eq!(
        client.cached_connection_id(tracker(1), 120 * SECOND),
        Some(78)
    );
}

#[test]
fn whole_announce() {
    let mut client: UdpTrackerClient<u8> = UdpTrackerClient::new();
    let (session, request) = match client.announce(tracker(1), fields(3), 0) {
        Step::Send(session, request) => (session, request),
        other => panic!("unexpected {:?}", other),
    };

    let outgoing = client.begin_request(&request, 1).unwrap();
    assert_eq!(outgoing.datagram.len(), 16);
    assert_eq!(
        &outgoing.datagram[12..],
        &outgoing.transaction_id.to_be_bytes()
    );
    let answer = reply(
        ACTION_CONNECT,
        outgoing.transaction_id,
        &0xabcdu64.to_be_bytes(),
    );
    let response = match client.receive(&answer, false) {
        Received::Answers(id, 1, response) => {
            assert_eq!(id, outgoing.transaction_id);
            response
        }
        other => panic!("unexpected {:?}", other),
    };
    let (session, request) = match client.advance(session, Outcome::Answered(response), 0) {
        Step::Send(session, request) => (session, request),
        other => panic!("unexpected {:?}", other),
    };

    let outgoing = client.begin_request(&request, 2).unwrap();
    assert_eq!(outgoing.datagram.len(), 98);
    assert_eq!(&outgoing.datagram[..8], &0xabcdu64.to_be_bytes());
    let mut body = Vec::new();
    body.extend_from_slice(&900u32.to_be_bytes());
    body.extend_from_slice(&5u32.to_be_bytes());
    body.extend_from_slice(&6u32.to_be_bytes());
    body.extend_from_slice(&[10, 0, 0, 9, 0x1b, 0x39]);
    let answer = reply(ACTION_ANNOUNCE, outgoing.transaction_id, &body);
    let response = match client.receive(&answer, false) {
        Received::Answers(_, 2, response) => response,
        other => panic!("unexpected {:?}", other),
    };
    match client.advance(session, Outcome::Answered(response), 1) {
        Step::Done(Ok(announce)) => {
            assert_eq!(announce.interval, 900);
            assert_eq!(announce.leechers, 5);
            assert_eq!(announce.seeders, 6);
            assert_eq!(announce.addrs, vec![tracker(9)]);
        }
        other => panic!("unexpected {:?}", other),
    }
}

#[test]
fn reply_is_delivered_once() {
    let mut client = UdpTrackerClient::new();
    assert_eq!(client.try_reserve(5, 'x'), None);
    let answer = reply(ACTION_ERROR, 5, b"no");
    match client.receive(&answer, false) {
        Received::Answers(5, 'x', Response::Error(message)) => assert_eq!(message, "no"),
        other => panic!("unexpected {:?}", other),
    }
    assert!(matches!(
        client.receive(&answer, false),
        Received::Unsolicited(5, Response::Error(_))
    ));
}

#[test]
fn stray_datagrams_change_nothing() {
    let mut client = UdpTrackerClient::new();
    assert_eq!(client.try_reserve(5, 'x'), None);
    assert!(matches!(
        client.receive(&reply(ACTION_CONNECT, 6, &[0; 8]), false),
        Received::Unsolicited(6, Response::Connect(0))
    ));
    assert!(matches!(
        client.receive(&[1, 2, 3, 4, 5], false),
        Received::Malformed(ParseError::NoTransactionId)
    ));
    assert!(matches!(
        client.receive(&reply(ACTION_CONNECT, 5, &[0; 8]), false),
        Received::Answers(5, 'x', _)
    ));
}

#[test]
fn transaction_id_in_use_is_not_given_twice() {
    let mut client = UdpTrackerClient::new();
    assert_eq!(client.try_reserve(5, 'x'), None);
    assert_eq!(client.try_reserve(5, 'y'), Some('y'));
    client.release(5);
    assert_eq!(client.try_reserve(5, 'z'), None);
    client.release(6);
    assert_eq!(client.try_reserve(5, 'y'), Some('y'));
}

#[test]
fn drawn_transaction_ids_are_open() {
    let mut client = UdpTrackerClient::new();
    let first = client.reserve_transaction_id(1).unwrap();
    let second = client.reserve_transaction_id(2).unwrap();
    assert_ne!(first, second);
    assert_eq!(client.try_reserve(first, 3), Some(3));
    assert_eq!(client.try_reserve(second, 3), Some(3));
}

#[test]
fn requests_that_got_no_reply() {
    assert!(matches!(
        finish_request(Outcome::TimedOut),
        Err(AnnounceError::TimedOut)
    ));
    assert!(matches!(
        finish_request(Outcome::SenderDead),
        Err(AnnounceError::SenderDead)
    ));
    assert!(matches!(
        finish_request(Outcome::Answered(Response::Unknown)),
        Err(AnnounceError::NotUnderstood)
    ));
    match finish_request(Outcome::Answered(Response::Error("gone".to_owned()))) {
        Err(AnnounceError::Remote(message)) => assert_eq!(message, "gone"),
        other => panic!("unexpected {:?}", other),
    }
    assert!(matches!(
        finish_request(Outcome::Answered(Response::Connect(3))),
        Ok(Response::Connect(3))
    ));
}

#[test]
fn unexpected_replies_end_an_announce() {
    let mut client: UdpTrackerClient<u8> = UdpTrackerClient::new();
    let session = Session::Connecting {
        tracker: tracker(1),
        fields: fields(1),
    };
    assert!(matches!(
        client.advance(session, Outcome::Answered(Response::Announce(announced())), 0),
        Step::Done(Err(AnnounceError::ExpectedConnect))
    ));
    assert_eq!(client.cached_connection_id(tracker(1), 0), None);
    let session = Session::Announcing {
        tracker: tracker(1),
    };
    assert!(matches!(
        client.advance(session, Outcome::Answered(Response::Connect(8)), 0),
        Step::Done(Err(AnnounceError::ExpectedAnnounce(Response::Connect(8))))
    ));
    assert_eq!(client.cached_connection_id(tracker(1), 0), None);
    let session = Session::Announcing {
        tracker: tracker(1),
    };
    assert!(matches!(
        client.advance(session, Outcome::TimedOut, 0),
        Step::Done(Err(AnnounceError::TimedOut))
    ));
}

#[test]
fn connection_ids_of_trackers_are_kept_apart() {
    let mut client = connected(tracker(1), 0);
    let session = Session::Connecting {
        tracker: tracker(2),
        fields: fields(1),
    };
    client.advance(session, Outcome::Answered(Response::Connect(78)), SECOND);
    assert_eq!(client.cached_connection_id(tracker(1), SECOND), Some(77));
    assert_eq!(client.cached_connection_id(tracker(2), SECOND), Some(78));
    assert_eq!(client.cached_connection_id(tracker(1), 60 * SECOND), None);
    assert_eq!(
        client.cached_connection_id(tracker(2), 60 * SECOND),
        Some(78)
    );
}

#[test]
fn echoed_transaction_id_reaches_its_request() {
    let mut client = UdpTrackerClient::new();
    let request = Request::Announce(9, fields(1));
    let outgoing = client.begin_request(&request, 'x').unwrap();
    let mut answer = ACTION_ERROR.to_be_bytes().to_vec();
    answer.extend_from_slice(&outgoing.datagram[12..16]);
    assert!(matches!(
        client.receive(&answer, false),
        Received::Answers(_, 'x', Response::Error(_))
    ));
}
