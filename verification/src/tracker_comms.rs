//! What a torrent reports of itself to its trackers.

use vstd::prelude::*;

verus! {

/// What a torrent is doing.
#[derive(Clone, Copy, Debug, PartialEq, Eq, Structural)]
pub enum TrackerCommsStatsState {
    /// Nothing is known yet.
    Unset,
    Initializing,
    Live,
}

impl Default for TrackerCommsStatsState {
    fn default() -> (state: Self)
        ensures
            state == TrackerCommsStatsState::Unset,
    {
        TrackerCommsStatsState::Unset
    }
}

/// How far a torrent has come.
#[derive(Clone, Copy, Debug, PartialEq, Eq, Structural)]
pub struct TrackerCommsStats {
    pub uploaded_bytes: u64,
    pub downloaded_bytes: u64,
    pub total_bytes: u64,
    pub torrent_state: TrackerCommsStatsState,
}

impl TrackerCommsStats {
    /// How many bytes are still to come: none where more than the total was downloaded.
    pub open spec fn left(self) -> nat {
        if self.downloaded_bytes < self.total_bytes {
            (self.total_bytes - self.downloaded_bytes) as nat
        } else {
            0
        }
    }

    /// There was something to download, and all of it is there.
    pub open spec fn completed(self) -> bool {
        0 < self.total_bytes <= self.downloaded_bytes
    }

    pub fn get_left_to_download_bytes(&self) -> (left: u64)
        ensures
            left == self.left(),
    {
        self.total_bytes.saturating_sub(self.downloaded_bytes)
    }

    /// Whether the download is complete. Where there is nothing to download, it is not.
    pub fn is_completed(&self) -> (completed: bool)
        ensures
            completed == self.completed(),
    {
        self.total_bytes > 0 && self.downloaded_bytes >= self.total_bytes
    }
}

/// A download is complete exactly when there was something to download and nothing is left.
pub proof fn law_completed_when_nothing_is_left(stats: TrackerCommsStats)
    ensures
        stats.completed() <==> stats.total_bytes > 0 && stats.left() == 0,
{
}

/// What is left and what was downloaded make up the total, unless more than the total was
/// downloaded: then nothing is left. A download is complete where at least the total was
/// downloaded, and the total is not nothing.
pub proof fn law_left_and_downloaded_make_up_the_total(
    stats: TrackerCommsStats,
    left: u64,
    completed: bool,
)
    requires
        call_ensures(TrackerCommsStats::get_left_to_download_bytes, (&stats,), left),
        call_ensures(TrackerCommsStats::is_completed, (&stats,), completed),
    ensures
        stats.downloaded_bytes <= stats.total_bytes ==> left + stats.downloaded_bytes
            == stats.total_bytes,
        stats.downloaded_bytes > stats.total_bytes ==> left == 0,
        completed <==> stats.total_bytes > 0 && stats.downloaded_bytes >= stats.total_bytes,
{
}

/// Nothing is known of a torrent by default.
pub proof fn law_nothing_is_known_by_default(state: TrackerCommsStatsState)
    requires
        call_ensures(TrackerCommsStatsState::default, (), state),
    ensures
        state is Unset,
{
}

} // verus!
