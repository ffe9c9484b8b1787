//! Registry of the announce status of each tracker of a torrent.

use std::time::{Duration, SystemTime, SystemTimeError, UNIX_EPOCH};

use vstd::prelude::*;
use vstd::utf8::encode_utf8;

verus! {

/// A reading of the system clock. Nothing is known of what is inside.
#[verifier::external_type_specification]
#[verifier::external_body]
pub struct ExSystemTime(SystemTime);

/// What comes of asking how much later an earlier reading was.
#[verifier::external_type_specification]
#[verifier::external_body]
pub struct ExSystemTimeError(SystemTimeError);

/// `SystemTime::now` reads the system clock. Nothing is claimed of the reading.
pub assume_specification[ SystemTime::now ]() -> SystemTime
;

/// `Duration::as_secs` gives the whole seconds of a duration. Durations are opaque here, so
/// nothing is claimed of the number.
pub assume_specification[ Duration::as_secs ](d: &Duration) -> u64
;

/// `SystemTime::duration_since`, asked of the Unix epoch. Whether the clock stands before the
/// epoch is a matter of the machine, so nothing is claimed of the outcome.
#[verifier::external_body]
fn since_unix_epoch(now: SystemTime) -> Result<Duration, SystemTimeError> {
    now.duration_since(UNIX_EPOCH)
}

/// The Unix time for the seconds that passed since the epoch; zero before the epoch.
pub fn unix_seconds(since_epoch: Option<u64>) -> (seconds: u64)
    ensures
        seconds == (match since_epoch {
            Some(s) => s,
            None => 0,
        }),
{
    match since_epoch {
        Some(s) => s,
        None => 0,
    }
}

/// The seconds are what the calls on the system clock came to: the whole seconds of the time
/// that a reading lies behind the epoch, and zero where it lies before the epoch.
pub closed spec fn is_unix_time(seconds: u64) -> bool {
    exists|now: SystemTime, since: Result<Duration, SystemTimeError>| {
        &&& call_ensures(SystemTime::now, (), now)
        &&& #[trigger] call_ensures(since_unix_epoch, (now,), since)
        &&& match since {
            Ok(d) => call_ensures(Duration::as_secs, (&d,), seconds),
            Err(_) => seconds == 0,
        }
    }
}

/// The Unix time now, in seconds; zero where the clock stands before the epoch.
pub fn now_unix() -> (seconds: u64)
    ensures
        is_unix_time(seconds),
{
    let now = SystemTime::now();
    let since = since_unix_epoch(now);
    proof {
        assert(call_ensures(since_unix_epoch, (now,), since));
    }
    match since {
        Ok(d) => unix_seconds(Some(d.as_secs())),
        Err(_) => unix_seconds(None),
    }
}

/// Announce state of a single tracker.
#[derive(Clone, Copy, Debug, PartialEq, Eq, Structural)]
pub enum TrackerAnnounceState {
    /// Tracker configured but no announce attempted yet.
    NotContacted,
    /// An announce is in flight (or being retried).
    Updating,
    /// Last announce succeeded.
    Working,
    /// Last announce failed.
    Error,
    /// Tracker skipped (unsupported scheme, proxy mode, ...).
    Disabled,
}

/// Live status of a single tracker for one torrent.
#[derive(Debug)]
pub struct TrackerStatus {
    pub url: String,
    pub state: TrackerAnnounceState,
    /// Seeder count ("complete") reported by the last successful announce.
    pub seeders: Option<u32>,
    /// Leecher count ("incomplete") reported by the last successful announce.
    pub leechers: Option<u32>,
    /// Number of peer addresses returned by the last successful announce.
    pub peers_returned: Option<u32>,
    /// Unix timestamp of the last successful announce.
    pub last_announce_unix: Option<u64>,
    /// Announce interval (seconds) the tracker asked for.
    pub interval_secs: Option<u64>,
    pub last_error: Option<String>,
}

/// What a [`TrackerStatus`] says.
pub struct StatusView {
    pub url: Seq<char>,
    pub state: TrackerAnnounceState,
    pub seeders: Option<u32>,
    pub leechers: Option<u32>,
    pub peers_returned: Option<u32>,
    pub last_announce_unix: Option<u64>,
    pub interval_secs: Option<u64>,
    pub last_error: Option<Seq<char>>,
}

impl View for TrackerStatus {
    type V = StatusView;

    open spec fn view(&self) -> StatusView {
        StatusView {
            url: self.url@,
            state: self.state,
            seeders: self.seeders,
            leechers: self.leechers,
            peers_returned: self.peers_returned,
            last_announce_unix: self.last_announce_unix,
            interval_secs: self.interval_secs,
            last_error: match self.last_error {
                Some(e) => Some(e@),
                None => None,
            },
        }
    }
}

impl StatusView {
    /// The status of a tracker that was never contacted.
    pub open spec fn fresh(url: Seq<char>) -> StatusView {
        StatusView {
            url,
            state: TrackerAnnounceState::NotContacted,
            seeders: None,
            leechers: None,
            peers_returned: None,
            last_announce_unix: None,
            interval_secs: None,
            last_error: None,
        }
    }

    /// The status once an announce is on its way: a later outcome stands.
    pub open spec fn updating(self) -> StatusView {
        if self.state == TrackerAnnounceState::NotContacted {
            StatusView { state: TrackerAnnounceState::Updating, ..self }
        } else {
            self
        }
    }

    /// The status after an announce that succeeded at `now`: all that it says is what this
    /// announce reported.
    pub open spec fn succeeded(
        self,
        seeders: Option<u32>,
        leechers: Option<u32>,
        peers_returned: u32,
        interval_secs: u64,
        now: u64,
    ) -> StatusView {
        StatusView {
            url: self.url,
            state: TrackerAnnounceState::Working,
            seeders,
            leechers,
            peers_returned: Some(peers_returned),
            last_announce_unix: Some(now),
            interval_secs: Some(interval_secs),
            last_error: None,
        }
    }

    /// The status after an announce that failed, or that was not made, for the reason given.
    pub open spec fn stopped(self, state: TrackerAnnounceState, reason: Seq<char>) -> StatusView {
        StatusView { state, last_error: Some(reason), ..self }
    }
}

impl Clone for TrackerStatus {
    fn clone(&self) -> (copy: Self)
        ensures
            copy@ == self@,
    {
        TrackerStatus {
            url: self.url.clone(),
            state: self.state,
            seeders: self.seeders,
            leechers: self.leechers,
            peers_returned: self.peers_returned,
            last_announce_unix: self.last_announce_unix,
            interval_secs: self.interval_secs,
            last_error: match &self.last_error {
                Some(e) => Some(e.clone()),
                None => None,
            },
        }
    }
}

impl TrackerStatus {
    pub fn new(url: String) -> (status: Self)
        ensures
            status@ == StatusView::fresh(url@),
    {
        TrackerStatus {
            url,
            state: TrackerAnnounceState::NotContacted,
            seeders: None,
            leechers: None,
            peers_returned: None,
            last_announce_unix: None,
            interval_secs: None,
            last_error: None,
        }
    }
}

/// `a` comes before `b` in the order of their bytes, and differs from it first at `k`.
pub open spec fn bytes_before_at(a: Seq<u8>, b: Seq<u8>, k: int) -> bool {
    &&& 0 <= k <= a.len()
    &&& k < b.len()
    &&& a.take(k) == b.take(k)
    &&& k == a.len() || a[k] < b[k]
}

/// `a` comes before `b` in the lexicographic order of bytes.
pub open spec fn bytes_before(a: Seq<u8>, b: Seq<u8>) -> bool {
    exists|k: int| bytes_before_at(a, b, k)
}

/// URL `a` comes before URL `b`: strings are ordered by their UTF-8 bytes.
pub open spec fn url_before(a: Seq<char>, b: Seq<char>) -> bool {
    bytes_before(encode_utf8(a), encode_utf8(b))
}

proof fn lemma_bytes_before_irreflexive(a: Seq<u8>)
    ensures
        !bytes_before(a, a),
{
}

proof fn lemma_bytes_before_transitive(a: Seq<u8>, b: Seq<u8>, c: Seq<u8>)
    requires
        bytes_before(a, b),
        bytes_before(b, c),
    ensures
        bytes_before(a, c),
{
    let i = choose|i: int| bytes_before_at(a, b, i);
    let j = choose|j: int| bytes_before_at(b, c, j);
    let k = if i < j {
        i
    } else {
        j
    };
    assert(a.take(k) =~= a.take(i).take(k));
    assert(b.take(k) =~= b.take(i).take(k));
    assert(b.take(k) =~= b.take(j).take(k));
    assert(c.take(k) =~= c.take(j).take(k));
    if i < j {
        assert(b.take(j)[i] == c.take(j)[i]);
    } else if j < i {
        assert(a.take(i)[j] == b.take(i)[j]);
    }
    assert(bytes_before_at(a, c, k));
}

/// How two URLs stand to each other.
enum UrlOrder {
    Before,
    Same,
    After,
}

/// Compares two URLs by their bytes.
fn url_order(a: &str, b: &str) -> (r: UrlOrder)
    ensures
        match r {
            UrlOrder::Before => url_before(a@, b@),
            UrlOrder::Same => a@ == b@,
            UrlOrder::After => url_before(b@, a@),
        },
{
    let x: &[u8] = a.as_bytes();
    let y: &[u8] = b.as_bytes();
    let mut i: usize = 0;
    while i < x.len() && i < y.len()
        invariant
            x@ == encode_utf8(a@),
            y@ == encode_utf8(b@),
            i <= x@.len(),
            i <= y@.len(),
            x@.take(i as int) =~= y@.take(i as int),
        decreases x@.len() - i,
    {
        if x[i] < y[i] {
            proof {
                assert(bytes_before_at(x@, y@, i as int));
            }
            return UrlOrder::Before;
        }
        if y[i] < x[i] {
            proof {
                assert(bytes_before_at(y@, x@, i as int));
            }
            return UrlOrder::After;
        }
        proof {
            assert(x@.take(i + 1) =~= x@.take(i as int).push(x@[i as int]));
            assert(y@.take(i + 1) =~= y@.take(i as int).push(y@[i as int]));
        }
        i = i + 1;
    }
    if i < y.len() {
        proof {
            assert(bytes_before_at(x@, y@, i as int));
        }
        return UrlOrder::Before;
    }
    if i < x.len() {
        proof {
            assert(bytes_before_at(y@, x@, i as int));
        }
        return UrlOrder::After;
    }
    proof {
        assert(x@ =~= x@.take(i as int));
        assert(y@ =~= y@.take(i as int));
        vstd::utf8::encode_utf8_decode_utf8(a@);
        vstd::utf8::encode_utf8_decode_utf8(b@);
    }
    UrlOrder::Same
}

/// The statuses, in order, as what they say.
pub open spec fn views(statuses: Seq<TrackerStatus>) -> Seq<StatusView> {
    statuses.map_values(|status: TrackerStatus| status@)
}

/// The URLs come in strictly ascending order, so none comes twice.
pub open spec fn sorted_by_url(statuses: Seq<StatusView>) -> bool {
    forall|i: int, j: int|
        0 <= i < j < statuses.len() ==> url_before(
            #[trigger] statuses[i].url,
            #[trigger] statuses[j].url,
        )
}

/// The status at `i` is that of `url`.
pub open spec fn is_at(statuses: Seq<StatusView>, url: Seq<char>, i: int) -> bool {
    0 <= i < statuses.len() && statuses[i].url == url
}

/// The statuses by URL.
pub open spec fn by_url(statuses: Seq<StatusView>) -> Map<Seq<char>, StatusView> {
    Map::new(
        |url: Seq<char>| exists|i: int| is_at(statuses, url, i),
        |url: Seq<char>| statuses[choose|i: int| is_at(statuses, url, i)],
    )
}

proof fn lemma_sorted_distinct(statuses: Seq<StatusView>, i: int, j: int)
    requires
        sorted_by_url(statuses),
        0 <= i < statuses.len(),
        0 <= j < statuses.len(),
        statuses[i].url == statuses[j].url,
    ensures
        i == j,
{
    lemma_bytes_before_irreflexive(encode_utf8(statuses[i].url));
    if i < j {
        assert(url_before(statuses[i].url, statuses[j].url));
    } else if j < i {
        assert(url_before(statuses[j].url, statuses[i].url));
    }
}

proof fn lemma_by_url_at(statuses: Seq<StatusView>, i: int)
    requires
        sorted_by_url(statuses),
        0 <= i < statuses.len(),
    ensures
        by_url(statuses).contains_key(statuses[i].url),
        by_url(statuses)[statuses[i].url] == statuses[i],
{
    let url = statuses[i].url;
    assert(is_at(statuses, url, i));
    let k = choose|k: int| is_at(statuses, url, k);
    lemma_sorted_distinct(statuses, i, k);
}

/// Changing the status at `i`, but not its URL, changes the status of that URL alone.
proof fn lemma_by_url_update(statuses: Seq<StatusView>, i: int, status: StatusView)
    requires
        sorted_by_url(statuses),
        0 <= i < statuses.len(),
        statuses[i].url == status.url,
    ensures
        sorted_by_url(statuses.update(i, status)),
        by_url(statuses.update(i, status)) == by_url(statuses).insert(status.url, status),
{
    let after = statuses.update(i, status);
    assert forall|a: int, b: int| 0 <= a < b < after.len() implies url_before(
        #[trigger] after[a].url,
        #[trigger] after[b].url,
    ) by {
        assert(after[a].url == statuses[a].url);
        assert(after[b].url == statuses[b].url);
    }
    assert forall|url: Seq<char>|
        by_url(after).contains_key(url) <==> by_url(statuses).insert(
            status.url,
            status,
        ).contains_key(url) by {
        if exists|k: int| is_at(after, url, k) {
            let k = choose|k: int| is_at(after, url, k);
            assert(is_at(statuses, url, k));
        }
        if exists|k: int| is_at(statuses, url, k) {
            let k = choose|k: int| is_at(statuses, url, k);
            assert(is_at(after, url, k));
        }
        assert(is_at(after, status.url, i));
    }
    assert forall|url: Seq<char>| by_url(after).contains_key(url) implies #[trigger] by_url(
        after,
    )[url] == by_url(statuses).insert(status.url, status)[url] by {
        let k = choose|k: int| is_at(after, url, k);
        lemma_by_url_at(after, k);
        lemma_by_url_at(statuses, k);
        if url == status.url {
            lemma_sorted_distinct(after, i, k);
        }
    }
    assert(by_url(after) =~= by_url(statuses).insert(status.url, status));
}

/// Inserting a status where its URL belongs adds that URL alone.
proof fn lemma_by_url_insert(statuses: Seq<StatusView>, i: int, status: StatusView)
    requires
        sorted_by_url(statuses),
        0 <= i <= statuses.len(),
        forall|j: int| 0 <= j < i ==> url_before(#[trigger] statuses[j].url, status.url),
        i < statuses.len() ==> url_before(status.url, statuses[i].url),
    ensures
        sorted_by_url(statuses.insert(i, status)),
        !by_url(statuses).contains_key(status.url),
        by_url(statuses.insert(i, status)) == by_url(statuses).insert(status.url, status),
{
    let after = statuses.insert(i, status);
    assert forall|j: int| i <= j < statuses.len() implies url_before(
        status.url,
        #[trigger] statuses[j].url,
    ) by {
        if i < j {
            assert(url_before(statuses[i].url, statuses[j].url));
            lemma_bytes_before_transitive(
                encode_utf8(status.url),
                encode_utf8(statuses[i].url),
                encode_utf8(statuses[j].url),
            );
        }
    }
    assert forall|j: int| 0 <= j < statuses.len() implies (#[trigger] statuses[j]).url
        != status.url by {
        lemma_bytes_before_irreflexive(encode_utf8(status.url));
        if j < i {
            assert(url_before(statuses[j].url, status.url));
        } else {
            assert(url_before(status.url, statuses[j].url));
        }
    }
    assert forall|a: int, b: int| 0 <= a < b < after.len() implies url_before(
        #[trigger] after[a].url,
        #[trigger] after[b].url,
    ) by {
        let x = if a < i {
            a
        } else {
            a - 1
        };
        let y = if b < i {
            b
        } else {
            b - 1
        };
        if a != i {
            assert(after[a] == statuses[x]);
        }
        if b != i {
            assert(after[b] == statuses[y]);
        }
    }
    assert forall|url: Seq<char>|
        by_url(after).contains_key(url) <==> by_url(statuses).insert(
            status.url,
            status,
        ).contains_key(url) by {
        if exists|k: int| is_at(after, url, k) {
            let k = choose|k: int| is_at(after, url, k);
            if k < i {
                assert(is_at(statuses, url, k));
            } else if k > i {
                assert(is_at(statuses, url, k - 1));
            }
        }
        if exists|k: int| is_at(statuses, url, k) {
            let k = choose|k: int| is_at(statuses, url, k);
            if k < i {
                assert(is_at(after, url, k));
            } else {
                assert(is_at(after, url, k + 1));
            }
        }
        assert(is_at(after, status.url, i));
    }
    assert forall|url: Seq<char>| by_url(after).contains_key(url) implies #[trigger] by_url(
        after,
    )[url] == by_url(statuses).insert(status.url, status)[url] by {
        let k = choose|k: int| is_at(after, url, k);
        lemma_by_url_at(after, k);
        if k < i {
            lemma_by_url_at(statuses, k);
        } else if k > i {
            lemma_by_url_at(statuses, k - 1);
        }
    }
    assert(by_url(after) =~= by_url(statuses).insert(status.url, status));
}

/// What holds of a status at all times: what only a successful announce reports is there
/// exactly when there was one, counts are there only then, a tracker that works has no error,
/// and one that failed or is disabled says why.
pub open spec fn consistent(status: StatusView) -> bool {
    &&& status.peers_returned is Some <==> status.last_announce_unix is Some
    &&& status.interval_secs is Some <==> status.last_announce_unix is Some
    &&& status.seeders is Some ==> status.last_announce_unix is Some
    &&& status.leechers is Some ==> status.last_announce_unix is Some
    &&& match status.state {
        TrackerAnnounceState::NotContacted | TrackerAnnounceState::Updating => {
            &&& status.last_announce_unix is None
            &&& status.last_error is None
        },
        TrackerAnnounceState::Working => {
            &&& status.last_announce_unix is Some
            &&& status.last_error is None
        },
        TrackerAnnounceState::Error | TrackerAnnounceState::Disabled => status.last_error is Some,
    }
}

/// Per-torrent registry of tracker announce statuses, updated by the announce loops and
/// readable from the HTTP API.
pub struct TrackerStatusRegistry {
    statuses: Vec<TrackerStatus>,
}

impl View for TrackerStatusRegistry {
    type V = Map<Seq<char>, StatusView>;

    closed spec fn view(&self) -> Map<Seq<char>, StatusView> {
        by_url(views(self.statuses@))
    }
}

/// The status that the registry starts from when it records something of `url`.
pub open spec fn entry(known: Map<Seq<char>, StatusView>, url: Seq<char>) -> StatusView {
    if known.contains_key(url) {
        known[url]
    } else {
        StatusView::fresh(url)
    }
}

impl Default for TrackerStatusRegistry {
    fn default() -> (registry: Self)
        ensures
            registry.wf(),
            registry@ == Map::<Seq<char>, StatusView>::empty(),
    {
        let registry = TrackerStatusRegistry { statuses: Vec::new() };
        proof {
            assert(registry@ =~= Map::<Seq<char>, StatusView>::empty());
        }
        registry
    }
}

impl TrackerStatusRegistry {
    /// The statuses are kept in the order of their URLs, and each is consistent.
    pub closed spec fn wf(&self) -> bool {
        &&& sorted_by_url(views(self.statuses@))
        &&& forall|i: int|
            0 <= i < self.statuses@.len() ==> consistent(#[trigger] views(self.statuses@)[i])
    }

    /// Where the status of `url` stands; it is put there first if the tracker is not known.
    fn with_entry(&mut self, url: &str) -> (index: usize)
        requires
            old(self).wf(),
        ensures
            final(self).wf(),
            index < final(self).statuses@.len(),
            consistent(final(self).statuses@[index as int]@),
            final(self).statuses@[index as int]@ == entry(old(self)@, url@),
            final(self)@ == old(self)@.insert(url@, entry(old(self)@, url@)),
    {
        let mut i: usize = 0;
        while i < self.statuses.len()
            invariant
                self.wf(),
                i <= self.statuses@.len(),
                *self == *old(self),
                forall|j: int|
                    0 <= j < i ==> url_before(#[trigger] views(self.statuses@)[j].url, url@),
            ensures
                i < self.statuses@.len() ==> url_before(url@, views(self.statuses@)[i as int].url),
            decreases self.statuses@.len() - i,
        {
            match url_order(self.statuses[i].url.as_str(), url) {
                UrlOrder::Before => {},
                UrlOrder::Same => {
                    proof {
                        let all = views(self.statuses@);
                        assert(all[i as int].url == url@);
                        lemma_by_url_at(all, i as int);
                        assert(self@.insert(url@, all[i as int]) =~= self@);
                    }
                    return i;
                },
                UrlOrder::After => {
                    break;
                },
            }
            i = i + 1;
        }
        let status = TrackerStatus::new(url.to_owned());
        proof {
            lemma_by_url_insert(views(self.statuses@), i as int, status@);
            assert(views(self.statuses@).insert(i as int, status@) =~= views(
                self.statuses@.insert(i as int, status),
            ));
        }
        self.statuses.insert(i, status);
        i
    }

    /// Register a tracker without changing its state.
    pub fn ensure(&mut self, url: &str)
        requires
            old(self).wf(),
        ensures
            final(self).wf(),
            final(self)@ == old(self)@.insert(url@, entry(old(self)@, url@)),
    {
        let _ = self.with_entry(url);
    }

    /// Record that an announce is on its way.
    pub fn record_updating(&mut self, url: &str)
        requires
            old(self).wf(),
        ensures
            final(self).wf(),
            final(self)@ == old(self)@.insert(url@, entry(old(self)@, url@).updating()),
    {
        let i: usize = self.with_entry(url);
        let ghost before = self.statuses@;
        if self.statuses[i].state == TrackerAnnounceState::NotContacted {
            self.statuses[i].state = TrackerAnnounceState::Updating;
        }
        proof {
            lemma_by_url_update(views(before), i as int, self.statuses@[i as int]@);
            assert(views(before).update(i as int, self.statuses@[i as int]@) =~= views(
                self.statuses@,
            ));
        }
    }

    /// Record that an announce succeeded at the Unix time `now`.
    pub fn record_success_at(
        &mut self,
        url: &str,
        seeders: Option<u32>,
        leechers: Option<u32>,
        peers_returned: u32,
        interval_secs: u64,
        now: u64,
    )
        requires
            old(self).wf(),
        ensures
            final(self).wf(),
            final(self)@ == old(self)@.insert(
                url@,
                entry(old(self)@, url@).succeeded(
                    seeders,
                    leechers,
                    peers_returned,
                    interval_secs,
                    now,
                ),
            ),
    {
        let i: usize = self.with_entry(url);
        let ghost before = self.statuses@;
        self.statuses[i].state = TrackerAnnounceState::Working;
        self.statuses[i].seeders = seeders;
        self.statuses[i].leechers = leechers;
        self.statuses[i].peers_returned = Some(peers_returned);
        self.statuses[i].last_announce_unix = Some(now);
        self.statuses[i].interval_secs = Some(interval_secs);
        self.statuses[i].last_error = None;
        proof {
            lemma_by_url_update(views(before), i as int, self.statuses@[i as int]@);
            assert(views(before).update(i as int, self.statuses@[i as int]@) =~= views(
                self.statuses@,
            ));
        }
    }

    /// Record that an announce succeeded just now. The time is what the system clock says.
    pub fn record_success(
        &mut self,
        url: &str,
        seeders: Option<u32>,
        leechers: Option<u32>,
        peers_returned: u32,
        interval_secs: u64,
    )
        requires
            old(self).wf(),
        ensures
            final(self).wf(),
            exists|now: u64|
                is_unix_time(now) && final(self)@ == old(self)@.insert(
                    url@,
                    #[trigger] entry(old(self)@, url@).succeeded(
                        seeders,
                        leechers,
                        peers_returned,
                        interval_secs,
                        now,
                    ),
                ),
    {
        let now: u64 = now_unix();
        self.record_success_at(url, seeders, leechers, peers_returned, interval_secs, now);
    }

    /// Record that an announce failed.
    pub fn record_error(&mut self, url: &str, error: &str)
        requires
            old(self).wf(),
        ensures
            final(self).wf(),
            final(self)@ == old(self)@.insert(
                url@,
                entry(old(self)@, url@).stopped(TrackerAnnounceState::Error, error@),
            ),
    {
        let i: usize = self.with_entry(url);
        let ghost before = self.statuses@;
        self.statuses[i].state = TrackerAnnounceState::Error;
        self.statuses[i].last_error = Some(error.to_owned());
        proof {
            lemma_by_url_update(views(before), i as int, self.statuses@[i as int]@);
            assert(views(before).update(i as int, self.statuses@[i as int]@) =~= views(
                self.statuses@,
            ));
        }
    }

    /// Record that no announce is made.
    pub fn record_disabled(&mut self, url: &str, reason: &str)
        requires
            old(self).wf(),
        ensures
            final(self).wf(),
            final(self)@ == old(self)@.insert(
                url@,
                entry(old(self)@, url@).stopped(TrackerAnnounceState::Disabled, reason@),
            ),
    {
        let i: usize = self.with_entry(url);
        let ghost before = self.statuses@;
        self.statuses[i].state = TrackerAnnounceState::Disabled;
        self.statuses[i].last_error = Some(reason.to_owned());
        proof {
            lemma_by_url_update(views(before), i as int, self.statuses@[i as int]@);
            assert(views(before).update(i as int, self.statuses@[i as int]@) =~= views(
                self.statuses@,
            ));
        }
    }

    /// Sorted snapshot of all known trackers.
    pub fn snapshot(&self) -> (all: Vec<TrackerStatus>)
        requires
            self.wf(),
        ensures
            sorted_by_url(views(all@)),
            by_url(views(all@)) == self@,
    {
        let mut all: Vec<TrackerStatus> = Vec::new();
        let mut i: usize = 0;
        while i < self.statuses.len()
            invariant
                i <= self.statuses@.len(),
                views(all@) =~= views(self.statuses@).take(i as int),
            decreases self.statuses@.len() - i,
        {
            let ghost before = views(all@);
            all.push(self.statuses[i].clone());
            i = i + 1;
            proof {
                assert(views(all@) =~= before.push(views(self.statuses@)[i - 1]));
            }
        }
        proof {
            assert(views(all@) =~= views(self.statuses@));
        }
        all
    }
}

/// What is recorded of one tracker leaves every other tracker as it was.
pub proof fn law_other_trackers_unchanged(
    known: Map<Seq<char>, StatusView>,
    url: Seq<char>,
    status: StatusView,
    other: Seq<char>,
)
    requires
        url != other,
    ensures
        known.insert(url, status).contains_key(other) == known.contains_key(other),
        entry(known.insert(url, status), other) == entry(known, other),
{
}

/// Registering a tracker that is known changes nothing.
pub proof fn law_ensure_keeps_known_tracker(known: Map<Seq<char>, StatusView>, url: Seq<char>)
    requires
        known.contains_key(url),
    ensures
        known.insert(url, entry(known, url)) == known,
{
    assert(known.insert(url, known[url]) =~= known);
}

/// An announce on its way changes the state of a tracker that was not contacted, and nothing
/// else: what an earlier announce came to stays until the next outcome.
pub proof fn law_updating_keeps_outcomes(status: StatusView)
    ensures
        status.state != TrackerAnnounceState::NotContacted ==> status.updating() == status,
        status.state == TrackerAnnounceState::NotContacted ==> status.updating() == (StatusView {
            state: TrackerAnnounceState::Updating,
            ..status
        }),
        status.updating().updating() == status.updating(),
{
}

/// What the last successful announce reported outlives any number of failures.
pub proof fn law_failure_keeps_last_success(
    status: StatusView,
    state: TrackerAnnounceState,
    reason: Seq<char>,
)
    ensures
        ({
            let after = status.stopped(state, reason);
            &&& after.url == status.url
            &&& after.seeders == status.seeders
            &&& after.leechers == status.leechers
            &&& after.peers_returned == status.peers_returned
            &&& after.last_announce_unix == status.last_announce_unix
            &&& after.interval_secs == status.interval_secs
        }),
{
}

/// After a success the counts, the time and the interval are those of that announce, whatever
/// was recorded of the tracker before.
pub proof fn law_success_reports_last_announce_only(
    a: StatusView,
    b: StatusView,
    seeders: Option<u32>,
    leechers: Option<u32>,
    peers_returned: u32,
    interval_secs: u64,
    now: u64,
)
    requires
        a.url == b.url,
    ensures
        a.succeeded(seeders, leechers, peers_returned, interval_secs, now) == b.succeeded(
            seeders,
            leechers,
            peers_returned,
            interval_secs,
            now,
        ),
{
}

/// A status is consistent from the start and stays so whatever is recorded of the tracker.
pub proof fn law_statuses_stay_consistent(
    url: Seq<char>,
    status: StatusView,
    seeders: Option<u32>,
    leechers: Option<u32>,
    peers_returned: u32,
    interval_secs: u64,
    now: u64,
    reason: Seq<char>,
)
    requires
        consistent(status),
    ensures
        consistent(StatusView::fresh(url)),
        consistent(status.updating()),
        consistent(status.succeeded(seeders, leechers, peers_returned, interval_secs, now)),
        consistent(status.stopped(TrackerAnnounceState::Error, reason)),
        consistent(status.stopped(TrackerAnnounceState::Disabled, reason)),
{
}

/// Each status in a registry is consistent and filed under its own URL.
pub proof fn law_registered_statuses(registry: TrackerStatusRegistry, url: Seq<char>)
    requires
        registry.wf(),
        registry@.contains_key(url),
    ensures
        registry@[url].url == url,
        consistent(registry@[url]),
{
    let all = views(registry.statuses@);
    let i = choose|i: int| is_at(all, url, i);
    lemma_by_url_at(all, i);
}

/// A sorted list of statuses holds each tracker once.
pub proof fn law_snapshot_holds_each_tracker_once(all: Seq<StatusView>, url: Seq<char>)
    requires
        sorted_by_url(all),
    ensures
        by_url(all).contains_key(url) <==> exists|i: int| #[trigger] is_at(all, url, i),
        forall|i: int, j: int|
            #[trigger] is_at(all, url, i) && #[trigger] is_at(all, url, j) ==> i == j,
        forall|i: int| #[trigger] is_at(all, url, i) ==> by_url(all)[url] == all[i],
{
    assert forall|i: int, j: int| #[trigger] is_at(all, url, i) && #[trigger] is_at(
        all,
        url,
        j,
    ) implies i == j by {
        lemma_sorted_distinct(all, i, j);
    }
    assert forall|i: int| #[trigger] is_at(all, url, i) implies by_url(all)[url] == all[i] by {
        lemma_by_url_at(all, i);
    }
}

/// The last URL of `a` is in `b`, so it does not come after the last URL of `b`.
proof fn lemma_last_url_not_after(a: Seq<StatusView>, b: Seq<StatusView>)
    requires
        sorted_by_url(a),
        sorted_by_url(b),
        by_url(a) == by_url(b),
        a.len() > 0,
    ensures
        b.len() > 0,
        a.last().url == b.last().url || url_before(a.last().url, b.last().url),
{
    lemma_by_url_at(a, a.len() - 1);
    let j = choose|j: int| is_at(b, a.last().url, j);
    assert(is_at(b, a.last().url, j));
    if j < b.len() - 1 {
        assert(url_before(b[j].url, b[b.len() - 1].url));
    }
}

proof fn lemma_by_url_drop_last(all: Seq<StatusView>)
    requires
        sorted_by_url(all),
        all.len() > 0,
    ensures
        sorted_by_url(all.drop_last()),
        by_url(all.drop_last()) == by_url(all).remove(all.last().url),
{
    let rest = all.drop_last();
    assert forall|i: int, j: int| 0 <= i < j < rest.len() implies url_before(
        #[trigger] rest[i].url,
        #[trigger] rest[j].url,
    ) by {
        assert(url_before(all[i].url, all[j].url));
    }
    assert forall|url: Seq<char>|
        by_url(rest).contains_key(url) <==> by_url(all).remove(all.last().url).contains_key(
            url,
        ) by {
        if exists|k: int| is_at(rest, url, k) {
            let k = choose|k: int| is_at(rest, url, k);
            assert(is_at(all, url, k));
            if url == all.last().url {
                lemma_sorted_distinct(all, k, all.len() - 1);
            }
        }
        if exists|k: int| is_at(all, url, k) {
            let k = choose|k: int| is_at(all, url, k);
            if k < all.len() - 1 {
                assert(is_at(rest, url, k));
            }
        }
    }
    assert forall|url: Seq<char>| by_url(rest).contains_key(url) implies #[trigger] by_url(
        rest,
    )[url] == by_url(all).remove(all.last().url)[url] by {
        let k = choose|k: int| is_at(rest, url, k);
        lemma_by_url_at(rest, k);
        lemma_by_url_at(all, k);
    }
    assert(by_url(rest) =~= by_url(all).remove(all.last().url));
}

/// What is known of the trackers fixes the snapshot, its order included.
pub proof fn law_snapshot_is_determined(a: Seq<StatusView>, b: Seq<StatusView>)
    requires
        sorted_by_url(a),
        sorted_by_url(b),
        by_url(a) == by_url(b),
    ensures
        a == b,
    decreases a.len(),
{
    if a.len() == 0 {
        if b.len() > 0 {
            lemma_last_url_not_after(b, a);
        }
        assert(a =~= b);
    } else {
        lemma_last_url_not_after(a, b);
        lemma_last_url_not_after(b, a);
        if a.last().url != b.last().url {
            lemma_bytes_before_transitive(
                encode_utf8(a.last().url),
                encode_utf8(b.last().url),
                encode_utf8(a.last().url),
            );
            lemma_bytes_before_irreflexive(encode_utf8(a.last().url));
        }
        lemma_by_url_at(a, a.len() - 1);
        lemma_by_url_at(b, b.len() - 1);
        lemma_by_url_drop_last(a);
        lemma_by_url_drop_last(b);
        law_snapshot_is_determined(a.drop_last(), b.drop_last());
        assert(a =~= a.drop_last().push(a.last()));
        assert(b =~= b.drop_last().push(b.last()));
    }
}

/// A tracker is on the list.
pub open spec fn is_listed(all: Seq<TrackerStatus>, url: Seq<char>) -> bool {
    exists|i: int| 0 <= i < all.len() && (#[trigger] all[i]).url@ == url
}

/// Where a tracker is on the list.
pub open spec fn listed_at(all: Seq<TrackerStatus>, url: Seq<char>) -> int {
    choose|i: int| 0 <= i < all.len() && (#[trigger] all[i]).url@ == url
}

/// The status of a tracker that is on the list.
pub open spec fn listed_status(all: Seq<TrackerStatus>, url: Seq<char>) -> TrackerStatus {
    all[listed_at(all, url)]
}

/// The error of a status is this text, or there is none.
pub open spec fn has_error(status: TrackerStatus, text: Option<Seq<char>>) -> bool {
    match status.last_error {
        Some(e) => text == Some(e@),
        None => text is None,
    }
}

/// The two agree in all fields.
pub open spec fn agree(a: TrackerStatus, b: TrackerStatus) -> bool {
    &&& a.url@ == b.url@
    &&& a.state == b.state
    &&& a.last_error is Some == b.last_error is Some
    &&& a.last_error matches Some(e) ==> has_error(b, Some(e@))
    &&& agree_on_last_success(a, b)
}

/// The two agree in what the last successful announce reported.
pub open spec fn agree_on_last_success(a: TrackerStatus, b: TrackerStatus) -> bool {
    &&& a.seeders == b.seeders
    &&& a.leechers == b.leechers
    &&& a.peers_returned == b.peers_returned
    &&& a.last_announce_unix == b.last_announce_unix
    &&& a.interval_secs == b.interval_secs
}

/// No announce to the tracker succeeded so far.
pub open spec fn never_succeeded(status: TrackerStatus) -> bool {
    &&& status.seeders is None
    &&& status.leechers is None
    &&& status.peers_returned is None
    &&& status.last_announce_unix is None
    &&& status.interval_secs is None
}

/// The lists agree on every tracker but this one.
pub open spec fn agree_on_others(
    before: Seq<TrackerStatus>,
    after: Seq<TrackerStatus>,
    url: Seq<char>,
) -> bool {
    forall|other: Seq<char>| #![trigger is_listed(after, other)]
        other != url ==> is_listed(after, other) == is_listed(before, other) && (is_listed(
            before,
            other,
        ) ==> agree(listed_status(after, other), listed_status(before, other)))
}

/// A snapshot says what the registry knows.
proof fn lemma_snapshot_says(
    registry: TrackerStatusRegistry,
    all: Vec<TrackerStatus>,
    url: Seq<char>,
)
    requires
        registry.wf(),
        call_ensures(TrackerStatusRegistry::snapshot, (&registry,), all),
    ensures
        is_listed(all@, url) == registry@.contains_key(url),
        is_listed(all@, url) ==> listed_status(all@, url)@ == registry@[url],
        is_listed(all@, url) ==> listed_status(all@, url).url@ == url,
{
    let says = views(all@);
    if is_listed(all@, url) {
        let i = listed_at(all@, url);
        assert(0 <= i < all@.len() && all@[i].url@ == url);
        assert(says[i] == all@[i]@);
        lemma_by_url_at(says, i);
    }
    if registry@.contains_key(url) {
        let i = choose|i: int| is_at(says, url, i);
        assert(is_at(says, url, i));
        assert(all@[i].url@ == url);
    }
}

/// Where the registries agree on every tracker but one, so do their snapshots.
proof fn lemma_snapshots_agree_on_others(
    old_registry: TrackerStatusRegistry,
    before: Vec<TrackerStatus>,
    new_registry: TrackerStatusRegistry,
    after: Vec<TrackerStatus>,
    url: Seq<char>,
    status: StatusView,
)
    requires
        old_registry.wf(),
        new_registry.wf(),
        call_ensures(TrackerStatusRegistry::snapshot, (&old_registry,), before),
        call_ensures(TrackerStatusRegistry::snapshot, (&new_registry,), after),
        new_registry@ == old_registry@.insert(url, status),
    ensures
        agree_on_others(before@, after@, url),
        is_listed(after@, url),
        listed_status(after@, url)@ == status,
        is_listed(before@, url) == old_registry@.contains_key(url),
        is_listed(before@, url) ==> listed_status(before@, url)@ == old_registry@[url],
{
    assert forall|other: Seq<char>| #![trigger is_listed(after@, other)]
        other != url implies is_listed(after@, other) == is_listed(before@, other) && (is_listed(
        before@,
        other,
    ) ==> agree(listed_status(after@, other), listed_status(before@, other))) by {
        lemma_snapshot_says(old_registry, before, other);
        lemma_snapshot_says(new_registry, after, other);
    }
    lemma_snapshot_says(old_registry, before, url);
    lemma_snapshot_says(new_registry, after, url);
}

/// A tracker that is recorded as disabled is listed as disabled, for the reason given, whatever
/// was recorded of it before. What its last successful announce reported stays, and so do all
/// other trackers.
pub proof fn law_disabled_tracker_is_listed_as_disabled(
    registry: &mut TrackerStatusRegistry,
    url: &str,
    reason: &str,
    before: Vec<TrackerStatus>,
    after: Vec<TrackerStatus>,
)
    requires
        old(registry).wf(),
        call_ensures(TrackerStatusRegistry::snapshot, (old(registry),), before),
        call_ensures(TrackerStatusRegistry::record_disabled, (registry, url, reason), ()),
        call_ensures(TrackerStatusRegistry::snapshot, (final(registry),), after),
    ensures
        is_listed(after@, url@),
        listed_status(after@, url@).state == TrackerAnnounceState::Disabled,
        has_error(listed_status(after@, url@), Some(reason@)),
        if is_listed(before@, url@) {
            agree_on_last_success(listed_status(after@, url@), listed_status(before@, url@))
        } else {
            never_succeeded(listed_status(after@, url@))
        },
        agree_on_others(before@, after@, url@),
{
    lemma_snapshots_agree_on_others(
        *old(registry),
        before,
        *final(registry),
        after,
        url@,
        entry(old(registry)@, url@).stopped(TrackerAnnounceState::Disabled, reason@),
    );
}

/// A tracker whose announce failed is listed as failed, for the reason given, whatever was
/// recorded of it before. What its last successful announce reported stays, and so do all other
/// trackers.
pub proof fn law_failed_tracker_is_listed_as_failed(
    registry: &mut TrackerStatusRegistry,
    url: &str,
    error: &str,
    before: Vec<TrackerStatus>,
    after: Vec<TrackerStatus>,
)
    requires
        old(registry).wf(),
        call_ensures(TrackerStatusRegistry::snapshot, (old(registry),), before),
        call_ensures(
            TrackerStatusRegistry::record_error,
            (registry, url, error),
            (),
        ),
        call_ensures(TrackerStatusRegistry::snapshot, (final(registry),), after),
    ensures
        is_listed(after@, url@),
        listed_status(after@, url@).state == TrackerAnnounceState::Error,
        has_error(listed_status(after@, url@), Some(error@)),
        if is_listed(before@, url@) {
            agree_on_last_success(listed_status(after@, url@), listed_status(before@, url@))
        } else {
            never_succeeded(listed_status(after@, url@))
        },
        agree_on_others(before@, after@, url@),
{
    lemma_snapshots_agree_on_others(
        *old(registry),
        before,
        *final(registry),
        after,
        url@,
        entry(old(registry)@, url@).stopped(TrackerAnnounceState::Error, error@),
    );
}

/// A tracker that is registered and was not known is listed as not contacted, with nothing
/// reported. One that was known stays as it was, and so do all other trackers.
pub proof fn law_registered_tracker_is_listed(
    registry: &mut TrackerStatusRegistry,
    url: &str,
    before: Vec<TrackerStatus>,
    after: Vec<TrackerStatus>,
)
    requires
        old(registry).wf(),
        call_ensures(TrackerStatusRegistry::snapshot, (old(registry),), before),
        call_ensures(
            TrackerStatusRegistry::ensure,
            (registry, url),
            (),
        ),
        call_ensures(TrackerStatusRegistry::snapshot, (final(registry),), after),
    ensures
        is_listed(after@, url@),
        if is_listed(before@, url@) {
            agree(listed_status(after@, url@), listed_status(before@, url@))
        } else {
            let status = listed_status(after@, url@);
            &&& status.url@ == url@
            &&& status.state == TrackerAnnounceState::NotContacted
            &&& has_error(status, None)
            &&& never_succeeded(status)
        },
        agree_on_others(before@, after@, url@),
{
    lemma_snapshots_agree_on_others(
        *old(registry),
        before,
        *final(registry),
        after,
        url@,
        entry(old(registry)@, url@),
    );
    lemma_snapshot_says(*old(registry), before, url@);
}

/// An announce on its way makes a tracker that was not contacted, or not known, an updating
/// one. A tracker whose last announce came to something stays as it was, and so do all other
/// trackers.
pub proof fn law_announce_on_its_way(
    registry: &mut TrackerStatusRegistry,
    url: &str,
    before: Vec<TrackerStatus>,
    after: Vec<TrackerStatus>,
)
    requires
        old(registry).wf(),
        call_ensures(TrackerStatusRegistry::snapshot, (old(registry),), before),
        call_ensures(
            TrackerStatusRegistry::record_updating,
            (registry, url),
            (),
        ),
        call_ensures(TrackerStatusRegistry::snapshot, (final(registry),), after),
    ensures
        is_listed(after@, url@),
        if is_listed(before@, url@) && listed_status(before@, url@).state
            != TrackerAnnounceState::NotContacted {
            agree(listed_status(after@, url@), listed_status(before@, url@))
        } else {
            let status = listed_status(after@, url@);
            &&& status.url@ == url@
            &&& status.state == TrackerAnnounceState::Updating
            &&& has_error(status, None)
            &&& never_succeeded(status)
        },
        agree_on_others(before@, after@, url@),
{
    lemma_snapshots_agree_on_others(
        *old(registry),
        before,
        *final(registry),
        after,
        url@,
        entry(old(registry)@, url@).updating(),
    );
    lemma_snapshot_says(*old(registry), before, url@);
    if old(registry)@.contains_key(url@) {
        law_registered_statuses(*old(registry), url@);
    }
}

/// A tracker whose announce succeeded is listed as working, without an error, and with what
/// that announce reported at that time, whatever was recorded of it before. All other trackers
/// stay as they were.
pub proof fn law_successful_tracker_is_listed_as_working(
    registry: &mut TrackerStatusRegistry,
    url: &str,
    seeders: Option<u32>,
    leechers: Option<u32>,
    peers_returned: u32,
    interval_secs: u64,
    now: u64,
    before: Vec<TrackerStatus>,
    after: Vec<TrackerStatus>,
)
    requires
        old(registry).wf(),
        call_ensures(TrackerStatusRegistry::snapshot, (old(registry),), before),
        call_ensures(
            TrackerStatusRegistry::record_success_at,
            (registry, url, seeders, leechers, peers_returned, interval_secs, now),
            (),
        ),
        call_ensures(TrackerStatusRegistry::snapshot, (final(registry),), after),
    ensures
        is_listed(after@, url@),
        ({
            let status = listed_status(after@, url@);
            &&& status.state == TrackerAnnounceState::Working
            &&& status.seeders == seeders
            &&& status.leechers == leechers
            &&& status.peers_returned == Some(peers_returned)
            &&& status.last_announce_unix == Some(now)
            &&& status.interval_secs == Some(interval_secs)
            &&& has_error(status, None)
        }),
        agree_on_others(before@, after@, url@),
{
    lemma_snapshots_agree_on_others(
        *old(registry),
        before,
        *final(registry),
        after,
        url@,
        entry(old(registry)@, url@).succeeded(
            seeders,
            leechers,
            peers_returned,
            interval_secs,
            now,
        ),
    );
}

/// The same holds of an announce that succeeded just now, at a time that the clock gave.
pub proof fn law_tracker_that_just_succeeded_is_listed_as_working(
    registry: &mut TrackerStatusRegistry,
    url: &str,
    seeders: Option<u32>,
    leechers: Option<u32>,
    peers_returned: u32,
    interval_secs: u64,
    before: Vec<TrackerStatus>,
    after: Vec<TrackerStatus>,
)
    requires
        old(registry).wf(),
        call_ensures(TrackerStatusRegistry::snapshot, (old(registry),), before),
        call_ensures(
            TrackerStatusRegistry::record_success,
            (registry, url, seeders, leechers, peers_returned, interval_secs),
            (),
        ),
        call_ensures(TrackerStatusRegistry::snapshot, (final(registry),), after),
    ensures
        is_listed(after@, url@),
        ({
            let status = listed_status(after@, url@);
            &&& status.state == TrackerAnnounceState::Working
            &&& status.seeders == seeders
            &&& status.leechers == leechers
            &&& status.peers_returned == Some(peers_returned)
            &&& status.last_announce_unix matches Some(now) && is_unix_time(now)
            &&& status.interval_secs == Some(interval_secs)
            &&& has_error(status, None)
        }),
        agree_on_others(before@, after@, url@),
{
    let now = choose|now: u64|
        is_unix_time(now) && final(registry)@ == old(registry)@.insert(
            url@,
            #[trigger] entry(old(registry)@, url@).succeeded(
                seeders,
                leechers,
                peers_returned,
                interval_secs,
                now,
            ),
        );
    lemma_snapshots_agree_on_others(
        *old(registry),
        before,
        *final(registry),
        after,
        url@,
        entry(old(registry)@, url@).succeeded(
            seeders,
            leechers,
            peers_returned,
            interval_secs,
            now,
        ),
    );
}

/// A snapshot lists each tracker once, in the order of the bytes of the URLs: of two trackers,
/// the URL of the first ends, or has the smaller byte, where the two first differ.
pub proof fn law_snapshot_is_in_order(
    registry: TrackerStatusRegistry,
    all: Vec<TrackerStatus>,
    i: int,
    j: int,
)
    requires
        registry.wf(),
        call_ensures(TrackerStatusRegistry::snapshot, (&registry,), all),
        0 <= i < j < all@.len(),
    ensures
        all@[i].url@ != all@[j].url@,
        ({
            let a = encode_utf8(all@[i].url@);
            let b = encode_utf8(all@[j].url@);
            exists|k: int|
                0 <= k <= a.len() && k < b.len() && #[trigger] a.take(k) == b.take(k) && (k
                    == a.len() || a[k] < b[k])
        }),
{
    let says = views(all@);
    assert(says[i] == all@[i]@ && says[j] == all@[j]@);
    assert(url_before(says[i].url, says[j].url));
    let a = encode_utf8(all@[i].url@);
    let b = encode_utf8(all@[j].url@);
    let k = choose|k: int| bytes_before_at(a, b, k);
    assert(a.take(k) == b.take(k));
    lemma_bytes_before_irreflexive(a);
}

/// A new registry lists no tracker.
pub proof fn law_new_registry_lists_nothing(
    registry: TrackerStatusRegistry,
    all: Vec<TrackerStatus>,
)
    requires
        call_ensures(TrackerStatusRegistry::default, (), registry),
        call_ensures(TrackerStatusRegistry::snapshot, (&registry,), all),
    ensures
        all@.len() == 0,
{
    if all@.len() > 0 {
        assert(all@[0].url@ == all@[0].url@);
        lemma_snapshot_says(registry, all, all@[0].url@);
    }
}

/// A new status is that of a tracker that was not contacted, with nothing reported.
pub proof fn law_new_status(url: String, status: TrackerStatus)
    requires
        call_ensures(TrackerStatus::new, (url,), status),
    ensures
        status.url@ == url@,
        status.state == TrackerAnnounceState::NotContacted,
        has_error(status, None),
        never_succeeded(status),
{
    assert(status@.url == status.url@);
}

/// A copy of a status agrees with it in all fields.
pub proof fn law_copied_status_agrees(status: TrackerStatus, copy: TrackerStatus)
    requires
        call_ensures(TrackerStatus::clone, (&status,), copy),
    ensures
        agree(copy, status),
{
    assert(copy@.url == copy.url@);
}

/// The time is zero, or the whole seconds of a duration.
pub proof fn law_time_is_whole_seconds(seconds: u64)
    requires
        call_ensures(now_unix, (), seconds),
    ensures
        seconds == 0 || exists|d: Duration| #[trigger]
            call_ensures(Duration::as_secs, (&d,), seconds),
{
}

/// The seconds since the epoch are the time, and before the epoch it is zero.
pub proof fn law_time_before_the_epoch_is_zero(since_epoch: Option<u64>, seconds: u64)
    requires
        call_ensures(unix_seconds, (since_epoch,), seconds),
    ensures
        since_epoch is None ==> seconds == 0,
        since_epoch is Some ==> since_epoch == Some(seconds),
{
}

} // verus!
