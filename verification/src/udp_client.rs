//! State of a client of UDP trackers: which request waits for which reply, and which connection
//! ids are still good. Sockets, timers and waiting are left to the caller.

use std::collections::HashMap;

use vstd::prelude::*;

use crate::addr::SocketAddr;
use crate::tracker_comms_udp::{
    announce_bytes, datagram, error_text, is_announce_datagram, is_announce_in, is_peer,
    is_request_datagram, law_announce_response_read_back, law_datagram_is_taken_apart,
    lemma_response_by_position, lemma_wire_by_position, new_transaction_id, peer_bytes, response,
    AnnounceFields, AnnounceResponse, AnnounceView, ConnectionId, ParseError, Request, Response,
    ResponseView, TransactionId,
};
use crate::wire::{be_bytes, be_value, lemma_be_value_bound, lemma_pow256_values};

verus! {

broadcast use vstd::std_specs::hash::group_hash_axioms;

/// How long a connection id is used, in nanoseconds.
pub const CONNECTION_ID_LIFETIME: u128 = 60_000_000_000;

/// How many transaction ids are drawn before a request is given up.
pub const TRANSACTION_ID_DRAWS: usize = 10;

/// How many seconds to wait for a reply.
pub const REPLY_TIMEOUT_SECS: u64 = 10;

/// A connection id that a tracker handed out, and when. Times are nanoseconds since a moment
/// that the caller picks once.
#[derive(Clone, Copy, Debug, PartialEq, Eq, Structural)]
pub struct ConnectionIdMeta {
    pub id: ConnectionId,
    pub created: u128,
}

/// How much time has passed since `created`; none where the clock stands before it.
pub open spec fn elapsed(created: u128, now: u128) -> int {
    if now < created {
        0
    } else {
        now - created
    }
}

/// The connection id that can still be used at `now`.
pub open spec fn usable_connection_id(
    connections: Map<SocketAddr, ConnectionIdMeta>,
    tracker: SocketAddr,
    now: u128,
) -> Option<ConnectionId> {
    if connections.contains_key(tracker) && elapsed(connections[tracker].created, now)
        < CONNECTION_ID_LIFETIME {
        Some(connections[tracker].id)
    } else {
        None
    }
}

/// The entry at `i` is that of `tracker`.
spec fn is_for(
    entries: Seq<(SocketAddr, ConnectionIdMeta)>,
    tracker: SocketAddr,
    i: int,
) -> bool {
    0 <= i < entries.len() && entries[i].0 == tracker
}

/// The entries by their trackers.
spec fn by_tracker(entries: Seq<(SocketAddr, ConnectionIdMeta)>) -> Map<
    SocketAddr,
    ConnectionIdMeta,
> {
    Map::new(
        |tracker: SocketAddr| exists|i: int| is_for(entries, tracker, i),
        |tracker: SocketAddr| entries[choose|i: int| is_for(entries, tracker, i)].1,
    )
}

/// No tracker has two entries.
spec fn one_each(entries: Seq<(SocketAddr, ConnectionIdMeta)>) -> bool {
    forall|i: int, j: int|
        0 <= i < j < entries.len() ==> (#[trigger] entries[i]).0 != (#[trigger] entries[j]).0
}

/// A tracker's entry is where it is found.
proof fn lemma_entry(entries: Seq<(SocketAddr, ConnectionIdMeta)>, i: int)
    requires
        one_each(entries),
        0 <= i < entries.len(),
    ensures
        by_tracker(entries).contains_key(entries[i].0),
        by_tracker(entries)[entries[i].0] == entries[i].1,
{
    assert(is_for(entries, entries[i].0, i));
    let k = choose|k: int| is_for(entries, entries[i].0, k);
    assert(is_for(entries, entries[i].0, k));
}

/// Changing an entry, or adding that of a new tracker, sets that tracker's id and no other.
proof fn lemma_entry_set(
    entries: Seq<(SocketAddr, ConnectionIdMeta)>,
    tracker: SocketAddr,
    meta: ConnectionIdMeta,
    i: int,
)
    requires
        one_each(entries),
        0 <= i <= entries.len(),
        i < entries.len() ==> entries[i].0 == tracker,
        i == entries.len() ==> !by_tracker(entries).contains_key(tracker),
    ensures
        ({
            let changed = if i < entries.len() {
                entries.update(i, (tracker, meta))
            } else {
                entries.push((tracker, meta))
            };
            &&& one_each(changed)
            &&& by_tracker(changed) == by_tracker(entries).insert(tracker, meta)
        }),
{
    let changed = if i < entries.len() {
        entries.update(i, (tracker, meta))
    } else {
        entries.push((tracker, meta))
    };
    assert forall|j: int| 0 <= j < entries.len() && j != i implies (#[trigger] entries[j]).0
        != tracker by {
        assert(is_for(entries, entries[j].0, j));
    }
    assert(one_each(changed));
    assert forall|t: SocketAddr| #[trigger]
        by_tracker(changed).contains_key(t) == by_tracker(entries).insert(
            tracker,
            meta,
        ).contains_key(t) by {
        if t == tracker {
            assert(is_for(changed, t, i));
        } else {
            assert forall|k: int| is_for(changed, t, k) == is_for(entries, t, k) by {}
            if by_tracker(entries).contains_key(t) {
                let k = choose|k: int| is_for(entries, t, k);
                assert(is_for(changed, t, k));
            }
            if by_tracker(changed).contains_key(t) {
                let k = choose|k: int| is_for(changed, t, k);
                assert(is_for(entries, t, k));
            }
        }
    }
    assert forall|t: SocketAddr| #[trigger] by_tracker(changed).contains_key(t) implies by_tracker(
        changed,
    )[t] == by_tracker(entries).insert(tracker, meta)[t] by {
        let k = choose|k: int| is_for(changed, t, k);
        assert(is_for(changed, t, k));
        lemma_entry(changed, k);
        if t != tracker {
            lemma_entry(entries, k);
        }
    }
    assert(by_tracker(changed) =~= by_tracker(entries).insert(tracker, meta));
}

/// The state of a client. `Tx` is where the reply to a request goes.
pub struct UdpTrackerClient<Tx> {
    connections: Vec<(SocketAddr, ConnectionIdMeta)>,
    transactions: HashMap<TransactionId, Tx>,
}

impl<Tx> UdpTrackerClient<Tx> {
    /// The connection id that each tracker handed out last.
    pub closed spec fn connections(self) -> Map<SocketAddr, ConnectionIdMeta> {
        by_tracker(self.connections@)
    }

    /// Where the reply to each open transaction goes.
    pub closed spec fn transactions(self) -> Map<TransactionId, Tx> {
        self.transactions@
    }

    /// Each tracker has at most one connection id.
    pub closed spec fn wf(self) -> bool {
        one_each(self.connections@)
    }

    /// A client that has asked nothing yet.
    pub fn new() -> (client: Self)
        ensures
            client.wf(),
            client.connections() == Map::<SocketAddr, ConnectionIdMeta>::empty(),
            client.transactions() == Map::<TransactionId, Tx>::empty(),
    {
        let client = UdpTrackerClient { connections: Vec::new(), transactions: HashMap::new() };
        proof {
            assert(client.connections() =~= Map::empty());
        }
        client
    }

    /// Where the entry of `tracker` stands; behind the last where it has none.
    fn position(&self, tracker: SocketAddr) -> (i: usize)
        requires
            self.wf(),
        ensures
            i <= self.connections@.len(),
            i < self.connections@.len() ==> self.connections@[i as int].0 == tracker,
            i == self.connections@.len() ==> !self.connections().contains_key(tracker),
    {
        let mut i: usize = 0;
        while i < self.connections.len()
            invariant
                i <= self.connections@.len(),
                forall|j: int| 0 <= j < i ==> (#[trigger] self.connections@[j]).0 != tracker,
            decreases self.connections@.len() - i,
        {
            if self.connections[i].0 == tracker {
                return i;
            }
            i = i + 1;
        }
        i
    }

    /// The connection id to use for `tracker` at `now`, where there is one that is not too old.
    pub fn cached_connection_id(&self, tracker: SocketAddr, now: u128) -> (r: Option<ConnectionId>)
        requires
            self.wf(),
        ensures
            r == usable_connection_id(self.connections(), tracker, now),
    {
        let i: usize = self.position(tracker);
        if i == self.connections.len() {
            return None;
        }
        proof {
            lemma_entry(self.connections@, i as int);
        }
        let meta = self.connections[i].1;
        let age: u128 = if now < meta.created {
            0
        } else {
            now - meta.created
        };
        if age < CONNECTION_ID_LIFETIME {
            Some(meta.id)
        } else {
            None
        }
    }

    /// Keeps the connection id that `tracker` handed out at `now`.
    fn keep_connection_id(&mut self, tracker: SocketAddr, id: ConnectionId, now: u128)
        requires
            old(self).wf(),
        ensures
            final(self).wf(),
            final(self).connections() == old(self).connections().insert(
                tracker,
                (ConnectionIdMeta { id, created: now }),
            ),
            final(self).transactions() == old(self).transactions(),
    {
        let i: usize = self.position(tracker);
        let meta = ConnectionIdMeta { id, created: now };
        proof {
            lemma_entry_set(self.connections@, tracker, meta, i as int);
        }
        if i < self.connections.len() {
            self.connections[i] = (tracker, meta);
        } else {
            self.connections.push((tracker, meta));
        }
    }
}

/// The transaction id that was reserved, if any.
pub open spec fn reserved(r: Result<TransactionId, AnnounceError>) -> Option<TransactionId> {
    match r {
        Ok(transaction_id) => Some(transaction_id),
        Err(_) => None,
    }
}

/// Each of these is a number that the generator gave.
pub open spec fn are_drawn(draws: Seq<TransactionId>) -> bool {
    forall|i: int|
        0 <= i < draws.len() ==> call_ensures(new_transaction_id, (), #[trigger] draws[i])
}

/// What draws of transaction ids came to: the first one that was not taken, where no more than
/// [`TRANSACTION_ID_DRAWS`] were needed.
pub open spec fn is_outcome_of_draws<Tx>(
    transactions: Map<TransactionId, Tx>,
    draws: Seq<TransactionId>,
    reserved: Option<TransactionId>,
) -> bool {
    match reserved {
        Some(transaction_id) => {
            &&& 1 <= draws.len() <= TRANSACTION_ID_DRAWS
            &&& draws.last() == transaction_id
            &&& !transactions.contains_key(transaction_id)
            &&& forall|i: int|
                0 <= i < draws.len() - 1 ==> transactions.contains_key(#[trigger] draws[i])
        },
        None => {
            &&& draws.len() == TRANSACTION_ID_DRAWS
            &&& forall|i: int|
                0 <= i < draws.len() ==> transactions.contains_key(#[trigger] draws[i])
        },
    }
}

/// What became of a datagram that came in.
#[derive(Debug)]
pub enum Received<Tx> {
    /// It is no response at all.
    Malformed(ParseError),
    /// No open transaction has this id.
    Unsolicited(TransactionId, Response),
    /// It answers this transaction, which is open no longer.
    Answers(TransactionId, Tx, Response),
}

/// What a [`Received`] says.
pub enum ReceivedView<Tx> {
    Malformed(ParseError),
    Unsolicited(TransactionId, ResponseView),
    Answers(TransactionId, Tx, ResponseView),
}

impl<Tx> View for Received<Tx> {
    type V = ReceivedView<Tx>;

    open spec fn view(&self) -> ReceivedView<Tx> {
        match *self {
            Received::Malformed(e) => ReceivedView::Malformed(e),
            Received::Unsolicited(transaction_id, response) => ReceivedView::Unsolicited(
                transaction_id,
                response@,
            ),
            Received::Answers(transaction_id, tx, response) => ReceivedView::Answers(
                transaction_id,
                tx,
                response@,
            ),
        }
    }
}

/// What becomes of a datagram.
pub open spec fn received<Tx>(
    transactions: Map<TransactionId, Tx>,
    datagram: Seq<u8>,
    is_ipv6: bool,
) -> ReceivedView<Tx> {
    match response(datagram, is_ipv6) {
        Err(e) => ReceivedView::Malformed(e),
        Ok((transaction_id, response)) => if transactions.contains_key(transaction_id) {
            ReceivedView::Answers(transaction_id, transactions[transaction_id], response)
        } else {
            ReceivedView::Unsolicited(transaction_id, response)
        },
    }
}

/// The transactions that are still open after a datagram.
pub open spec fn open_after<Tx>(
    transactions: Map<TransactionId, Tx>,
    datagram: Seq<u8>,
    is_ipv6: bool,
) -> Map<TransactionId, Tx> {
    match response(datagram, is_ipv6) {
        Err(_) => transactions,
        Ok((transaction_id, _)) => transactions.remove(transaction_id),
    }
}

/// A request that is ready to be sent.
#[derive(Debug)]
pub struct Outgoing {
    pub transaction_id: TransactionId,
    pub datagram: Vec<u8>,
}

/// The transaction that was opened for a request.
pub open spec fn transaction_id_of(r: Result<Outgoing, AnnounceError>) -> Option<TransactionId> {
    match r {
        Ok(outgoing) => Some(outgoing.transaction_id),
        Err(_) => None,
    }
}

impl<Tx> UdpTrackerClient<Tx> {
    /// Opens a transaction under `transaction_id`, unless one is open under it: then `tx` comes
    /// back.
    pub fn try_reserve(&mut self, transaction_id: TransactionId, tx: Tx) -> (back: Option<Tx>)
        requires
            old(self).wf(),
        ensures
            final(self).wf(),
            final(self).connections() == old(self).connections(),
            old(self).transactions().contains_key(transaction_id) ==> {
                &&& back == Some(tx)
                &&& final(self).transactions() == old(self).transactions()
            },
            !old(self).transactions().contains_key(transaction_id) ==> {
                &&& back == None::<Tx>
                &&& final(self).transactions() == old(self).transactions().insert(
                    transaction_id,
                    tx,
                )
            },
    {
        if self.transactions.contains_key(&transaction_id) {
            Some(tx)
        } else {
            self.transactions.insert(transaction_id, tx);
            None
        }
    }

    /// Opens a transaction under an id that is drawn by chance and not taken. It is given up
    /// when too many draws in a row were taken.
    pub fn reserve_transaction_id(&mut self, tx: Tx) -> (r: Result<TransactionId, AnnounceError>)
        requires
            old(self).wf(),
        ensures
            final(self).wf(),
            final(self).connections() == old(self).connections(),
            exists|draws: Seq<TransactionId>|
                are_drawn(draws) && #[trigger] is_outcome_of_draws(
                    old(self).transactions(),
                    draws,
                    reserved(r),
                ),
            r matches Ok(transaction_id) ==> final(self).transactions()
                == old(self).transactions().insert(transaction_id, tx),
            r matches Err(e) ==> {
                &&& e is NoTransactionId
                &&& final(self).transactions() == old(self).transactions()
            },
            old(self).transactions() == Map::<TransactionId, Tx>::empty() ==> r is Ok,
    {
        let mut unsent = tx;
        let mut i: usize = 0;
        let ghost mut draws: Seq<TransactionId> = Seq::empty();
        while i < TRANSACTION_ID_DRAWS
            invariant
                i <= TRANSACTION_ID_DRAWS,
                self.wf(),
                self.connections() == old(self).connections(),
                self.transactions() == old(self).transactions(),
                unsent == tx,
                draws.len() == i,
                are_drawn(draws),
                forall|j: int|
                    0 <= j < i ==> old(self).transactions().contains_key(#[trigger] draws[j]),
            decreases TRANSACTION_ID_DRAWS - i,
        {
            let transaction_id: TransactionId = new_transaction_id();
            proof {
                draws = draws.push(transaction_id);
            }
            match self.try_reserve(transaction_id, unsent) {
                None => {
                    proof {
                        assert(is_outcome_of_draws(
                            old(self).transactions(),
                            draws,
                            Some(transaction_id),
                        ));
                    }
                    return Ok(transaction_id);
                },
                Some(back) => unsent = back,
            }
            i = i + 1;
        }
        proof {
            assert(is_outcome_of_draws(old(self).transactions(), draws, None));
            assert(old(self).transactions().contains_key(draws[0]));
        }
        Err(AnnounceError::NoTransactionId)
    }

    /// Closes a transaction, whether or not it was answered.
    pub fn release(&mut self, transaction_id: TransactionId)
        requires
            old(self).wf(),
        ensures
            final(self).wf(),
            final(self).connections() == old(self).connections(),
            final(self).transactions() == old(self).transactions().remove(transaction_id),
    {
        self.transactions.remove(&transaction_id);
    }

    /// Takes in a datagram. A response closes the transaction that it answers, and goes where
    /// the request said.
    pub fn receive(&mut self, datagram: &[u8], is_ipv6: bool) -> (r: Received<Tx>)
        requires
            old(self).wf(),
        ensures
            final(self).wf(),
            final(self).connections() == old(self).connections(),
            r@ == received(old(self).transactions(), datagram@, is_ipv6),
            final(self).transactions() == open_after(
                old(self).transactions(),
                datagram@,
                is_ipv6,
            ),
    {
        match Response::parse(datagram, is_ipv6) {
            Err(e) => Received::Malformed(e),
            Ok((transaction_id, response)) => match self.transactions.remove(&transaction_id) {
                Some(tx) => Received::Answers(transaction_id, tx, response),
                None => Received::Unsolicited(transaction_id, response),
            },
        }
    }

    /// Opens a transaction for a request and writes the request out.
    pub fn begin_request(&mut self, request: &Request, tx: Tx) -> (r: Result<
        Outgoing,
        AnnounceError,
    >)
        requires
            old(self).wf(),
        ensures
            final(self).wf(),
            final(self).connections() == old(self).connections(),
            exists|draws: Seq<TransactionId>|
                are_drawn(draws) && #[trigger] is_outcome_of_draws(
                    old(self).transactions(),
                    draws,
                    transaction_id_of(r),
                ),
            r matches Ok(outgoing) ==> {
                &&& outgoing.datagram@ == request.wire(outgoing.transaction_id)
                &&& final(self).transactions() == old(self).transactions().insert(
                    outgoing.transaction_id,
                    tx,
                )
            },
            r matches Err(e) ==> {
                &&& e is NoTransactionId
                &&& final(self).transactions() == old(self).transactions()
            },
            old(self).transactions() == Map::<TransactionId, Tx>::empty() ==> r is Ok,
    {
        match self.reserve_transaction_id(tx) {
            Ok(transaction_id) => Ok(
                Outgoing { transaction_id, datagram: request.to_datagram(transaction_id) },
            ),
            Err(e) => Err(e),
        }
    }
}

/// What became of a request that was sent.
#[derive(Debug)]
pub enum Outcome {
    /// No reply came in time.
    TimedOut,
    /// The place where the reply was to go is gone.
    SenderDead,
    Answered(Response),
}

/// What an [`Outcome`] says.
pub enum OutcomeView {
    TimedOut,
    SenderDead,
    Answered(ResponseView),
}

impl View for Outcome {
    type V = OutcomeView;

    open spec fn view(&self) -> OutcomeView {
        match self {
            Outcome::TimedOut => OutcomeView::TimedOut,
            Outcome::SenderDead => OutcomeView::SenderDead,
            Outcome::Answered(response) => OutcomeView::Answered(response@),
        }
    }
}

/// Why an announce came to nothing.
#[derive(Debug)]
pub enum AnnounceError {
    /// No transaction id was found that is not taken.
    NoTransactionId,
    TimedOut,
    SenderDead,
    /// The tracker answered with this error message.
    Remote(String),
    /// The tracker answered with something that is not understood.
    NotUnderstood,
    /// The tracker answered a connect request with something else than a connection id.
    ExpectedConnect,
    /// The tracker answered an announce request with this.
    ExpectedAnnounce(Response),
}

/// What an [`AnnounceError`] says.
pub enum AnnounceErrorView {
    NoTransactionId,
    TimedOut,
    SenderDead,
    Remote(Seq<char>),
    NotUnderstood,
    ExpectedConnect,
    ExpectedAnnounce(ResponseView),
}

impl View for AnnounceError {
    type V = AnnounceErrorView;

    open spec fn view(&self) -> AnnounceErrorView {
        match self {
            AnnounceError::NoTransactionId => AnnounceErrorView::NoTransactionId,
            AnnounceError::TimedOut => AnnounceErrorView::TimedOut,
            AnnounceError::SenderDead => AnnounceErrorView::SenderDead,
            AnnounceError::Remote(message) => AnnounceErrorView::Remote(message@),
            AnnounceError::NotUnderstood => AnnounceErrorView::NotUnderstood,
            AnnounceError::ExpectedConnect => AnnounceErrorView::ExpectedConnect,
            AnnounceError::ExpectedAnnounce(response) => AnnounceErrorView::ExpectedAnnounce(
                response@,
            ),
        }
    }
}

/// The reply that a request got: an error message, or a reply that is not understood, is none.
pub open spec fn reply_of(outcome: OutcomeView) -> Result<ResponseView, AnnounceErrorView> {
    match outcome {
        OutcomeView::TimedOut => Err(AnnounceErrorView::TimedOut),
        OutcomeView::SenderDead => Err(AnnounceErrorView::SenderDead),
        OutcomeView::Answered(ResponseView::Error(message)) => Err(
            AnnounceErrorView::Remote(message),
        ),
        OutcomeView::Answered(ResponseView::Unknown) => Err(AnnounceErrorView::NotUnderstood),
        OutcomeView::Answered(response) => Ok(response),
    }
}

/// Takes the reply out of what became of a request.
pub fn finish_request(outcome: Outcome) -> (r: Result<Response, AnnounceError>)
    ensures
        match r {
            Ok(response) => reply_of(outcome@) == Ok::<_, AnnounceErrorView>(response@),
            Err(e) => reply_of(outcome@) == Err::<ResponseView, _>(e@),
        },
{
    match outcome {
        Outcome::TimedOut => Err(AnnounceError::TimedOut),
        Outcome::SenderDead => Err(AnnounceError::SenderDead),
        Outcome::Answered(Response::Error(message)) => Err(AnnounceError::Remote(message)),
        Outcome::Answered(Response::Unknown) => Err(AnnounceError::NotUnderstood),
        Outcome::Answered(response) => Ok(response),
    }
}

/// An announce of which one request is under way.
#[derive(Debug)]
pub enum Session {
    /// A connection id is being asked for.
    Connecting { tracker: SocketAddr, fields: AnnounceFields },
    /// The announce itself is out.
    Announcing { tracker: SocketAddr },
}

/// What to do next for an announce.
#[derive(Debug)]
pub enum Step {
    /// Send this request to the tracker, and hand in what becomes of it.
    Send(Session, Request),
    /// The announce is over.
    Done(Result<AnnounceResponse, AnnounceError>),
}

/// What a [`Step`] says.
pub enum StepView {
    Send(Session, Request),
    Done(Result<AnnounceView, AnnounceErrorView>),
}

impl View for Step {
    type V = StepView;

    open spec fn view(&self) -> StepView {
        match *self {
            Step::Send(session, request) => StepView::Send(session, request),
            Step::Done(Ok(announce)) => StepView::Done(Ok(announce@)),
            Step::Done(Err(e)) => StepView::Done(Err(e@)),
        }
    }
}

/// How an announce begins: with the announce itself, where a connection id is at hand, else by
/// asking for one.
pub open spec fn first_step(
    connections: Map<SocketAddr, ConnectionIdMeta>,
    tracker: SocketAddr,
    fields: AnnounceFields,
    now: u128,
) -> StepView {
    match usable_connection_id(connections, tracker, now) {
        Some(id) => StepView::Send(
            Session::Announcing { tracker },
            Request::Announce(id, fields),
        ),
        None => StepView::Send(Session::Connecting { tracker, fields }, Request::Connect),
    }
}

/// How an announce goes on after what became of its request.
pub open spec fn next_step(session: Session, outcome: OutcomeView) -> StepView {
    match (session, reply_of(outcome)) {
        (_, Err(e)) => StepView::Done(Err(e)),
        (
            Session::Connecting { tracker, fields },
            Ok(ResponseView::Connect(id)),
        ) => StepView::Send(Session::Announcing { tracker }, Request::Announce(id, fields)),
        (Session::Connecting { .. }, Ok(_)) => StepView::Done(
            Err(AnnounceErrorView::ExpectedConnect),
        ),
        (Session::Announcing { .. }, Ok(ResponseView::Announce(announce))) => StepView::Done(
            Ok(announce),
        ),
        (Session::Announcing { .. }, Ok(response)) => StepView::Done(
            Err(AnnounceErrorView::ExpectedAnnounce(response)),
        ),
    }
}

/// The connection ids that are known after what became of a request: the one that a tracker
/// was asked for is kept.
pub open spec fn known_after(
    connections: Map<SocketAddr, ConnectionIdMeta>,
    session: Session,
    outcome: OutcomeView,
    now: u128,
) -> Map<SocketAddr, ConnectionIdMeta> {
    match (session, outcome) {
        (
            Session::Connecting { tracker, .. },
            OutcomeView::Answered(ResponseView::Connect(id)),
        ) => connections.insert(tracker, ConnectionIdMeta { id, created: now }),
        _ => connections,
    }
}

impl<Tx> UdpTrackerClient<Tx> {
    /// Begins an announce.
    pub fn announce(&self, tracker: SocketAddr, fields: AnnounceFields, now: u128) -> (step: Step)
        requires
            self.wf(),
        ensures
            step@ == first_step(self.connections(), tracker, fields, now),
    {
        match self.cached_connection_id(tracker, now) {
            Some(id) => Step::Send(
                Session::Announcing { tracker },
                Request::Announce(id, fields),
            ),
            None => Step::Send(Session::Connecting { tracker, fields }, Request::Connect),
        }
    }

    /// Goes on with an announce after what became of its request by `now`.
    pub fn advance(&mut self, session: Session, outcome: Outcome, now: u128) -> (step: Step)
        requires
            old(self).wf(),
        ensures
            final(self).wf(),
            step@ == next_step(session, outcome@),
            final(self).connections() == known_after(
                old(self).connections(),
                session,
                outcome@,
                now,
            ),
            final(self).transactions() == old(self).transactions(),
    {
        let response = match finish_request(outcome) {
            Ok(response) => response,
            Err(e) => return Step::Done(Err(e)),
        };
        match session {
            Session::Connecting { tracker, fields } => match response {
                Response::Connect(id) => {
                    self.keep_connection_id(tracker, id, now);
                    Step::Send(Session::Announcing { tracker }, Request::Announce(id, fields))
                },
                _ => Step::Done(Err(AnnounceError::ExpectedConnect)),
            },
            Session::Announcing { .. } => match response {
                Response::Announce(announce) => Step::Done(Ok(announce)),
                response => Step::Done(Err(AnnounceError::ExpectedAnnounce(response))),
            },
        }
    }
}

/// Whatever a tracker sends back under the transaction id of a request goes where that request
/// said, and leaves the table as it was before the request.
pub proof fn law_reply_reaches_its_request<Tx>(
    transactions: Map<TransactionId, Tx>,
    transaction_id: TransactionId,
    tx: Tx,
    action: u32,
    body: Seq<u8>,
    is_ipv6: bool,
)
    requires
        !transactions.contains_key(transaction_id),
    ensures
        ({
            let reply = datagram(action, transaction_id, body);
            let opened = transactions.insert(transaction_id, tx);
            &&& received(opened, reply, is_ipv6) matches ReceivedView::Answers(id, to, _)
                && id == transaction_id && to == tx
            &&& open_after(opened, reply, is_ipv6) == transactions
        }),
{
    law_datagram_is_taken_apart(action, transaction_id, body, is_ipv6);
    assert(transactions.insert(transaction_id, tx).remove(transaction_id) =~= transactions);
}

/// A transaction is answered at most once: a second datagram with its id finds nobody waiting.
pub proof fn law_transaction_is_answered_once<Tx>(
    transactions: Map<TransactionId, Tx>,
    first: Seq<u8>,
    second: Seq<u8>,
    is_ipv6: bool,
    second_is_ipv6: bool,
)
    requires
        response(first, is_ipv6) matches Ok((id, _)) && response(second, second_is_ipv6) matches Ok(
            (second_id, _),
        ) && id == second_id,
    ensures
        received(open_after(transactions, first, is_ipv6), second, second_is_ipv6) is Unsolicited,
{
}

/// A datagram that answers nothing changes nothing.
pub proof fn law_stray_datagram_changes_nothing<Tx>(
    transactions: Map<TransactionId, Tx>,
    stray: Seq<u8>,
    is_ipv6: bool,
)
    requires
        !(received(transactions, stray, is_ipv6) is Answers),
    ensures
        open_after(transactions, stray, is_ipv6) == transactions,
{
    assert(open_after(transactions, stray, is_ipv6) =~= transactions);
}

/// A datagram closes no transaction but the one that it answers.
pub proof fn law_other_transactions_stay_open<Tx>(
    transactions: Map<TransactionId, Tx>,
    incoming: Seq<u8>,
    is_ipv6: bool,
    other: TransactionId,
)
    requires
        response(incoming, is_ipv6) matches Ok((id, _)) ==> id != other,
    ensures
        ({
            let after = open_after(transactions, incoming, is_ipv6);
            &&& after.contains_key(other) == transactions.contains_key(other)
            &&& transactions.contains_key(other) ==> after[other] == transactions[other]
        }),
{
}

/// Closing a transaction undoes opening it.
pub proof fn law_release_undoes_reserve<Tx>(
    transactions: Map<TransactionId, Tx>,
    transaction_id: TransactionId,
    tx: Tx,
    draws: Seq<TransactionId>,
)
    requires
        is_outcome_of_draws(transactions, draws, Some(transaction_id)),
    ensures
        transactions.insert(transaction_id, tx).remove(transaction_id) == transactions,
{
    assert(transactions.insert(transaction_id, tx).remove(transaction_id) =~= transactions);
}

/// The connection id that a tracker handed out is used for every announce to it within the
/// lifetime of a connection id; from then on a new one is asked for.
pub proof fn law_connection_id_is_used_while_it_lives(
    connections: Map<SocketAddr, ConnectionIdMeta>,
    tracker: SocketAddr,
    fields: AnnounceFields,
    id: ConnectionId,
    connected: u128,
    next_fields: AnnounceFields,
    now: u128,
)
    ensures
        ({
            let known = known_after(
                connections,
                Session::Connecting { tracker, fields },
                OutcomeView::Answered(ResponseView::Connect(id)),
                connected,
            );
            first_step(known, tracker, next_fields, now) == if elapsed(connected, now)
                < CONNECTION_ID_LIFETIME {
                StepView::Send(Session::Announcing { tracker }, Request::Announce(id, next_fields))
            } else {
                StepView::Send(
                    Session::Connecting { tracker, fields: next_fields },
                    Request::Connect,
                )
            }
        }),
{
}

/// An announce to one tracker leaves the connection ids of the others alone.
pub proof fn law_other_connection_ids_unchanged(
    connections: Map<SocketAddr, ConnectionIdMeta>,
    session: Session,
    outcome: OutcomeView,
    now: u128,
    other: SocketAddr,
    later: u128,
)
    requires
        session matches Session::Connecting { tracker, .. } ==> tracker != other,
    ensures
        usable_connection_id(known_after(connections, session, outcome, now), other, later)
            == usable_connection_id(connections, other, later),
{
}

/// An announce takes at most two requests, the last of which is the announce itself.
pub proof fn law_announce_takes_at_most_two_requests(
    connections: Map<SocketAddr, ConnectionIdMeta>,
    tracker: SocketAddr,
    fields: AnnounceFields,
    now: u128,
    first: OutcomeView,
    second: OutcomeView,
)
    ensures
        first_step(connections, tracker, fields, now) matches StepView::Send(session, request) && {
            next_step(session, first) matches StepView::Send(next_session, next_request) ==> {
                &&& request is Connect
                &&& next_request matches Request::Announce(_, sent) && sent == fields
                &&& next_step(next_session, second) is Done
            }
        },
{
}

/// An announce succeeds exactly when the announce itself was answered by an announce response,
/// and then gives that response.
pub proof fn law_announce_gives_what_the_tracker_answered(
    session: Session,
    outcome: OutcomeView,
    announce: AnnounceView,
)
    ensures
        next_step(session, outcome) == StepView::Done(Ok(announce)) <==> session is Announcing
            && outcome == OutcomeView::Answered(ResponseView::Announce(announce)),
{
}

/// Where a tracker answers the connect request of an announce with a connection id, the next
/// request is the announce itself: to that tracker, with exactly that id in the first eight
/// bytes of its datagram, and with the fields of the announce.
pub proof fn law_announce_goes_out_with_the_id_given<Tx>(
    client: &mut UdpTrackerClient<Tx>,
    tracker: SocketAddr,
    fields: AnnounceFields,
    id: ConnectionId,
    now: u128,
    step: Step,
    transaction_id: TransactionId,
    datagram: Vec<u8>,
)
    requires
        old(client).wf(),
        call_ensures(
            UdpTrackerClient::<Tx>::advance,
            (
                client,
                Session::Connecting { tracker, fields },
                Outcome::Answered(Response::Connect(id)),
                now,
            ),
            step,
        ),
    ensures
        step matches Step::Send(Session::Announcing { tracker: to }, Request::Announce(with, sent))
            && to == tracker && with == id && sent == fields && (call_ensures(
            Request::to_datagram,
            (&Request::Announce(with, sent), transaction_id),
            datagram,
        ) ==> is_announce_datagram(datagram@, id, transaction_id, fields)),
{
    lemma_wire_by_position(Request::Announce(id, fields), transaction_id);
    assert(step@ == next_step(
        Session::Connecting { tracker, fields },
        OutcomeView::Answered(ResponseView::Connect(id)),
    ));
}

/// From when a tracker handed out a connection id, every announce to it goes straight out with
/// that id for sixty seconds; from then on it begins by asking for a new one.
pub proof fn law_id_serves_for_sixty_seconds<Tx>(
    client: &mut UdpTrackerClient<Tx>,
    tracker: SocketAddr,
    fields: AnnounceFields,
    id: ConnectionId,
    connected: u128,
    step: Step,
    next_fields: AnnounceFields,
    now: u128,
    next: Step,
    cached: Option<ConnectionId>,
)
    requires
        old(client).wf(),
        call_ensures(
            UdpTrackerClient::<Tx>::advance,
            (
                client,
                Session::Connecting { tracker, fields },
                Outcome::Answered(Response::Connect(id)),
                connected,
            ),
            step,
        ),
        call_ensures(
            UdpTrackerClient::<Tx>::announce,
            (final(client), tracker, next_fields, now),
            next,
        ),
        call_ensures(
            UdpTrackerClient::<Tx>::cached_connection_id,
            (final(client), tracker, now),
            cached,
        ),
    ensures
        now < connected + 60_000_000_000 ==> cached == Some(id) && next == Step::Send(
            Session::Announcing { tracker },
            Request::Announce(id, next_fields),
        ),
        now >= connected + 60_000_000_000 ==> cached is None && next == Step::Send(
            Session::Connecting { tracker, fields: next_fields },
            Request::Connect,
        ),
{
    let known = final(client).connections();
    assert(known[tracker] == (ConnectionIdMeta { id, created: connected }));
    assert(next@ == first_step(known, tracker, next_fields, now));
}

/// Whatever becomes of a request, an announce to another tracker goes on as it would have
/// before. So does one to the same tracker, unless it is a connection id that came in.
pub proof fn law_other_announces_go_on_as_before<Tx>(
    client: &mut UdpTrackerClient<Tx>,
    session: Session,
    outcome: Outcome,
    now: u128,
    step: Step,
    other: SocketAddr,
    fields: AnnounceFields,
    later: u128,
    before: Step,
    after: Step,
)
    requires
        old(client).wf(),
        call_ensures(UdpTrackerClient::<Tx>::advance, (client, session, outcome, now), step),
        session matches Session::Connecting { tracker, .. } && outcome matches Outcome::Answered(
            Response::Connect(_),
        ) ==> tracker != other,
        call_ensures(
            UdpTrackerClient::<Tx>::announce,
            (old(client), other, fields, later),
            before,
        ),
        call_ensures(
            UdpTrackerClient::<Tx>::announce,
            (final(client), other, fields, later),
            after,
        ),
    ensures
        before == after,
        final(client).transactions() == old(client).transactions(),
{
    assert(before@ == first_step(old(client).connections(), other, fields, later));
    assert(after@ == first_step(final(client).connections(), other, fields, later));
}

/// A new client begins every announce by asking for a connection id.
pub proof fn law_new_client_connects_first<Tx>(
    client: UdpTrackerClient<Tx>,
    tracker: SocketAddr,
    fields: AnnounceFields,
    now: u128,
    step: Step,
)
    requires
        call_ensures(UdpTrackerClient::<Tx>::new, (), client),
        call_ensures(
            UdpTrackerClient::<Tx>::announce,
            (&client, tracker, fields, now),
            step,
        ),
    ensures
        step == Step::Send(Session::Connecting { tracker, fields }, Request::Connect),
{
    assert(step@ == first_step(client.connections(), tracker, fields, now));
}

/// The announce says what the other one says.
pub open spec fn same_announce(a: AnnounceResponse, b: AnnounceResponse) -> bool {
    &&& a.interval == b.interval
    &&& a.leechers == b.leechers
    &&& a.seeders == b.seeders
    &&& a.addrs@ == b.addrs@
}

/// A connection id or an announce is a reply. Nothing else is: a request that was not answered
/// in time, or whose answer is gone, failed for that reason; an error message of the tracker is
/// handed on as it is; and what is not understood is said to be so.
pub proof fn law_reply_of_a_request(outcome: Outcome, r: Result<Response, AnnounceError>)
    requires
        call_ensures(finish_request, (outcome,), r),
    ensures
        match outcome {
            Outcome::TimedOut => r matches Err(AnnounceError::TimedOut),
            Outcome::SenderDead => r matches Err(AnnounceError::SenderDead),
            Outcome::Answered(Response::Error(message)) => r matches Err(
                AnnounceError::Remote(said),
            ) && said@ == message@,
            Outcome::Answered(Response::Unknown) => r matches Err(AnnounceError::NotUnderstood),
            Outcome::Answered(Response::Connect(id)) => r matches Ok(Response::Connect(given))
                && given == id,
            Outcome::Answered(Response::Announce(a)) => r matches Ok(Response::Announce(b))
                && same_announce(a, b),
        },
{
    assert(outcome@ == outcome.view());
}

/// An announce ends as its last request did: with the announce that the tracker sent, or for
/// the reason that there is none. Only a connection id that was asked for lets it go on.
pub proof fn law_announce_ends_as_its_last_request<Tx>(
    client: &mut UdpTrackerClient<Tx>,
    session: Session,
    outcome: Outcome,
    now: u128,
    step: Step,
)
    requires
        old(client).wf(),
        call_ensures(UdpTrackerClient::<Tx>::advance, (client, session, outcome, now), step),
    ensures
        match outcome {
            Outcome::TimedOut => step matches Step::Done(Err(AnnounceError::TimedOut)),
            Outcome::SenderDead => step matches Step::Done(Err(AnnounceError::SenderDead)),
            Outcome::Answered(Response::Error(message)) => step matches Step::Done(
                Err(AnnounceError::Remote(said)),
            ) && said@ == message@,
            Outcome::Answered(Response::Unknown) => step matches Step::Done(
                Err(AnnounceError::NotUnderstood),
            ),
            Outcome::Answered(Response::Announce(a)) => match session {
                Session::Announcing { .. } => step matches Step::Done(Ok(b)) && same_announce(
                    a,
                    b,
                ),
                Session::Connecting { .. } => step matches Step::Done(
                    Err(AnnounceError::ExpectedConnect),
                ),
            },
            Outcome::Answered(Response::Connect(id)) => match session {
                Session::Announcing { .. } => step matches Step::Done(
                    Err(AnnounceError::ExpectedAnnounce(Response::Connect(given))),
                ) && given == id,
                Session::Connecting { .. } => step is Send,
            },
        },
{
    assert(step@ == next_step(session, outcome@));
}

/// A datagram that comes in under the id of an open transaction goes where that transaction
/// said, as what stands in it, read for the family that it came over. The transaction is then
/// closed.
pub proof fn law_reply_is_delivered_as_it_was_written<Tx>(
    client: &mut UdpTrackerClient<Tx>,
    incoming: &[u8],
    is_ipv6: bool,
    received: Received<Tx>,
    transaction_id: TransactionId,
)
    requires
        old(client).wf(),
        call_ensures(UdpTrackerClient::<Tx>::receive, (client, incoming, is_ipv6), received),
        incoming@.len() >= 8,
        be_value(incoming@.subrange(4, 8)) == transaction_id,
        old(client).transactions().contains_key(transaction_id),
    ensures
        ({
            let action = be_value(incoming@.subrange(0, 4));
            let len = incoming@.len() as int;
            let whole_peers = len >= 20 && (len - 20) % (if is_ipv6 {
                18int
            } else {
                6int
            }) == 0;
            &&& received matches Received::Answers(id, tx, said)
            &&& id == transaction_id
            &&& tx == old(client).transactions()[transaction_id]
            &&& action == 0 && len == 16 ==> (said matches Response::Connect(given) && given
                == be_value(incoming@.subrange(8, 16)))
            &&& action == 1 && whole_peers ==> (said matches Response::Announce(announce)
                && is_announce_in(announce, incoming@, is_ipv6))
            &&& action == 3 ==> (said matches Response::Error(message) && message@ == error_text(
                incoming@.skip(8),
            ))
            &&& action == 0 && len != 16 ==> said is Unknown
            &&& action == 1 && !whole_peers ==> said is Unknown
            &&& action != 0 && action != 1 && action != 3 ==> said is Unknown
        }),
        final(client).transactions() == old(client).transactions().remove(transaction_id),
        final(client).connections() == old(client).connections(),
{
    let said = received->Answers_2;
    lemma_pow256_values();
    lemma_response_by_position(incoming@, is_ipv6, said);
}

/// An announce response that a tracker puts together from numbers and peers of the family that
/// it is sent over is handed to the transaction that it is sent under with exactly those numbers
/// and those peers, in order.
pub proof fn law_announce_reply_is_delivered<Tx>(
    client: &mut UdpTrackerClient<Tx>,
    incoming: &[u8],
    is_ipv6: bool,
    received: Received<Tx>,
    transaction_id: TransactionId,
    interval: u32,
    leechers: u32,
    seeders: u32,
    peers: Seq<SocketAddr>,
)
    requires
        old(client).wf(),
        call_ensures(UdpTrackerClient::<Tx>::receive, (client, incoming, is_ipv6), received),
        old(client).transactions().contains_key(transaction_id),
        forall|i: int| 0 <= i < peers.len() ==> is_peer(#[trigger] peers[i], is_ipv6),
        incoming@ == be_bytes(1, 4) + be_bytes(transaction_id as nat, 4) + (be_bytes(
            interval as nat,
            4,
        ) + be_bytes(leechers as nat, 4) + be_bytes(seeders as nat, 4) + peers.map_values(
            |peer: SocketAddr| peer_bytes(peer),
        ).flatten()),
    ensures
        received matches Received::Answers(id, tx, Response::Announce(announce)) && id
            == transaction_id && tx == old(client).transactions()[transaction_id]
            && announce.interval == interval && announce.leechers == leechers && announce.seeders
            == seeders && announce.addrs@ == peers,
{
    let announce = AnnounceView { interval, leechers, seeders, addrs: peers };
    assert(announce.addrs.map_values(|addr: SocketAddr| peer_bytes(addr)) =~= peers.map_values(
        |peer: SocketAddr| peer_bytes(peer),
    ));
    law_announce_response_read_back(transaction_id, announce, is_ipv6);
    assert(incoming@ == datagram(1, transaction_id, announce_bytes(announce)));
}

/// A datagram that is no response, or that no open transaction waits for, is reported as such
/// and changes nothing.
pub proof fn law_stray_datagram_is_reported<Tx>(
    client: &mut UdpTrackerClient<Tx>,
    incoming: &[u8],
    is_ipv6: bool,
    received: Received<Tx>,
)
    requires
        old(client).wf(),
        call_ensures(UdpTrackerClient::<Tx>::receive, (client, incoming, is_ipv6), received),
        incoming@.len() >= 8 ==> !old(client).transactions().contains_key(
            be_value(incoming@.subrange(4, 8)) as u32,
        ),
    ensures
        incoming@.len() < 4 ==> (received matches Received::Malformed(ParseError::NoAction)),
        4 <= incoming@.len() < 8 ==> (received matches Received::Malformed(
            ParseError::NoTransactionId,
        )),
        incoming@.len() >= 8 ==> (received matches Received::Unsolicited(id, _) && id == be_value(
            incoming@.subrange(4, 8),
        )),
        final(client).transactions() == old(client).transactions(),
        final(client).connections() == old(client).connections(),
{
    if incoming@.len() >= 8 {
        lemma_pow256_values();
        lemma_be_value_bound(incoming@.subrange(4, 8));
    }
    assert(final(client).transactions() =~= old(client).transactions());
}

/// Of two datagrams under one transaction id, no more than the first is delivered.
pub proof fn law_second_reply_is_not_delivered<Tx>(
    first: &mut UdpTrackerClient<Tx>,
    first_incoming: &[u8],
    first_is_ipv6: bool,
    first_received: Received<Tx>,
    second: &mut UdpTrackerClient<Tx>,
    second_incoming: &[u8],
    second_is_ipv6: bool,
    second_received: Received<Tx>,
)
    requires
        old(first).wf(),
        call_ensures(
            UdpTrackerClient::<Tx>::receive,
            (first, first_incoming, first_is_ipv6),
            first_received,
        ),
        *old(second) == *final(first),
        call_ensures(
            UdpTrackerClient::<Tx>::receive,
            (second, second_incoming, second_is_ipv6),
            second_received,
        ),
        first_incoming@.len() >= 8,
        second_incoming@.len() >= 8,
        first_incoming@.subrange(4, 8) == second_incoming@.subrange(4, 8),
    ensures
        second_received is Unsolicited,
{
}

/// A request goes out under an id that no open transaction has, as a datagram that is this
/// request under that id. Its transaction is then open, and all others stay.
pub proof fn law_request_goes_out_under_a_free_id<Tx>(
    client: &mut UdpTrackerClient<Tx>,
    request: Request,
    tx: Tx,
    r: Result<Outgoing, AnnounceError>,
)
    requires
        old(client).wf(),
        call_ensures(UdpTrackerClient::<Tx>::begin_request, (client, &request, tx), r),
    ensures
        match r {
            Ok(outgoing) => {
                &&& is_request_datagram(outgoing.datagram@, request, outgoing.transaction_id)
                &&& !old(client).transactions().contains_key(outgoing.transaction_id)
                &&& call_ensures(new_transaction_id, (), outgoing.transaction_id)
                &&& final(client).transactions() == old(client).transactions().insert(
                    outgoing.transaction_id,
                    tx,
                )
            },
            Err(e) => {
                &&& e is NoTransactionId
                &&& final(client).transactions() == old(client).transactions()
                &&& exists|draws: Seq<TransactionId>|
                    draws.len() == 10 && are_drawn(draws) && all_taken(
                        old(client).transactions(),
                        draws,
                    )
            },
        },
        final(client).connections() == old(client).connections(),
{
    let draws = choose|draws: Seq<TransactionId>|
        are_drawn(draws) && #[trigger] is_outcome_of_draws(
            old(client).transactions(),
            draws,
            transaction_id_of(r),
        );
    match r {
        Ok(outgoing) => {
            lemma_wire_by_position(request, outgoing.transaction_id);
            assert(draws[draws.len() - 1] == outgoing.transaction_id);
        },
        Err(_) => {
            assert(draws.len() == 10);
            assert(all_taken(old(client).transactions(), draws));
        },
    }
}

/// All of these are ids of open transactions.
pub open spec fn all_taken<Tx>(
    transactions: Map<TransactionId, Tx>,
    ids: Seq<TransactionId>,
) -> bool {
    forall|i: int| 0 <= i < ids.len() ==> transactions.contains_key(#[trigger] ids[i])
}

/// A transaction id is given up for only after ten draws that were all taken; one that is given
/// was drawn and not taken, and leads to what the request said.
pub proof fn law_ten_draws_for_a_free_id<Tx>(
    client: &mut UdpTrackerClient<Tx>,
    tx: Tx,
    r: Result<TransactionId, AnnounceError>,
)
    requires
        old(client).wf(),
        call_ensures(UdpTrackerClient::<Tx>::reserve_transaction_id, (client, tx), r),
    ensures
        match r {
            Ok(id) => {
                &&& !old(client).transactions().contains_key(id)
                &&& call_ensures(new_transaction_id, (), id)
                &&& final(client).transactions() == old(client).transactions().insert(id, tx)
            },
            Err(e) => {
                &&& e is NoTransactionId
                &&& final(client).transactions() == old(client).transactions()
                &&& exists|draws: Seq<TransactionId>|
                    draws.len() == 10 && are_drawn(draws) && all_taken(
                        old(client).transactions(),
                        draws,
                    )
            },
        },
{
    let draws = choose|draws: Seq<TransactionId>|
        are_drawn(draws) && #[trigger] is_outcome_of_draws(
            old(client).transactions(),
            draws,
            reserved(r),
        );
    match r {
        Ok(id) => {
            assert(draws[draws.len() - 1] == id);
        },
        Err(_) => {
            assert(draws.len() == 10);
            assert(all_taken(old(client).transactions(), draws));
        },
    }
}

/// A request whose transaction id the tracker echoes gets the reply: what `begin_request` sent
/// out, answered with the same four bytes, reaches where the request said.
pub proof fn law_request_gets_the_reply_to_it<Tx>(
    asking: &mut UdpTrackerClient<Tx>,
    request: Request,
    tx: Tx,
    outgoing: Outgoing,
    answered: &mut UdpTrackerClient<Tx>,
    incoming: &[u8],
    is_ipv6: bool,
    received: Received<Tx>,
)
    requires
        old(asking).wf(),
        call_ensures(
            UdpTrackerClient::<Tx>::begin_request,
            (asking, &request, tx),
            Ok::<_, AnnounceError>(outgoing),
        ),
        *old(answered) == *final(asking),
        call_ensures(UdpTrackerClient::<Tx>::receive, (answered, incoming, is_ipv6), received),
        incoming@.len() >= 8,
        incoming@.subrange(4, 8) == outgoing.datagram@.subrange(12, 16),
    ensures
        received matches Received::Answers(id, to, _) && id == outgoing.transaction_id && to == tx,
        final(answered).transactions() == old(asking).transactions(),
{
    law_request_goes_out_under_a_free_id(asking, request, tx, Ok(outgoing));
    lemma_pow256_values();
    assert(be_value(incoming@.subrange(4, 8)) == outgoing.transaction_id);
    assert(final(answered).transactions() =~= old(asking).transactions());
}

/// An id under which a transaction is open is not given to another, until the transaction is
/// released.
pub proof fn law_id_is_free_again_after_release<Tx>(
    first: &mut UdpTrackerClient<Tx>,
    second: &mut UdpTrackerClient<Tx>,
    third: &mut UdpTrackerClient<Tx>,
    fourth: &mut UdpTrackerClient<Tx>,
    id: TransactionId,
    tx: Tx,
    other_tx: Tx,
    first_back: Option<Tx>,
    second_back: Option<Tx>,
    fourth_back: Option<Tx>,
)
    requires
        old(first).wf(),
        call_ensures(UdpTrackerClient::<Tx>::try_reserve, (first, id, tx), first_back),
        *old(second) == *final(first),
        call_ensures(UdpTrackerClient::<Tx>::try_reserve, (second, id, other_tx), second_back),
        *old(third) == *final(second),
        call_ensures(UdpTrackerClient::<Tx>::release, (third, id), ()),
        *old(fourth) == *final(third),
        call_ensures(UdpTrackerClient::<Tx>::try_reserve, (fourth, id, other_tx), fourth_back),
    ensures
        first_back is None || first_back == Some(tx),
        second_back == Some(other_tx),
        fourth_back is None,
{
}

/// An announce goes straight out exactly where a connection id is at hand, with that id.
pub proof fn law_announce_uses_the_id_at_hand<Tx>(
    client: UdpTrackerClient<Tx>,
    tracker: SocketAddr,
    fields: AnnounceFields,
    now: u128,
    cached: Option<ConnectionId>,
    step: Step,
)
    requires
        client.wf(),
        call_ensures(
            UdpTrackerClient::<Tx>::cached_connection_id,
            (&client, tracker, now),
            cached,
        ),
        call_ensures(
            UdpTrackerClient::<Tx>::announce,
            (&client, tracker, fields, now),
            step,
        ),
    ensures
        step == match cached {
            Some(id) => Step::Send(Session::Announcing { tracker }, Request::Announce(id, fields)),
            None => Step::Send(Session::Connecting { tracker, fields }, Request::Connect),
        },
{
    assert(step@ == first_step(client.connections(), tracker, fields, now));
}

/// An id is given to a transaction unless another one is open under it, and then a datagram
/// under that id reaches the one that has it. Ids of others stay with them.
pub proof fn law_reserved_id_leads_to_its_transaction<Tx>(
    asking: &mut UdpTrackerClient<Tx>,
    id: TransactionId,
    tx: Tx,
    back: Option<Tx>,
    answered: &mut UdpTrackerClient<Tx>,
    incoming: &[u8],
    is_ipv6: bool,
    received: Received<Tx>,
    other: TransactionId,
)
    requires
        old(asking).wf(),
        call_ensures(UdpTrackerClient::<Tx>::try_reserve, (asking, id, tx), back),
        *old(answered) == *final(asking),
        call_ensures(UdpTrackerClient::<Tx>::receive, (answered, incoming, is_ipv6), received),
        incoming@.len() >= 8,
        be_value(incoming@.subrange(4, 8)) == id,
        other != id,
    ensures
        back == (if old(asking).transactions().contains_key(id) {
            Some(tx)
        } else {
            None
        }),
        received matches Received::Answers(answered_id, to, _) && answered_id == id && to == (
        if old(asking).transactions().contains_key(id) {
            old(asking).transactions()[id]
        } else {
            tx
        }),
        !final(answered).transactions().contains_key(id),
        final(answered).transactions().contains_key(other) == old(
            asking,
        ).transactions().contains_key(other),
        old(asking).transactions().contains_key(other) ==> final(answered).transactions()[other]
            == old(asking).transactions()[other],
        final(answered).connections() == old(asking).connections(),
{
}

/// A datagram under the id of a transaction that was released reaches nobody, and the other
/// transactions stay open.
pub proof fn law_released_transaction_gets_no_reply<Tx>(
    releasing: &mut UdpTrackerClient<Tx>,
    id: TransactionId,
    answered: &mut UdpTrackerClient<Tx>,
    incoming: &[u8],
    is_ipv6: bool,
    received: Received<Tx>,
    other: TransactionId,
)
    requires
        old(releasing).wf(),
        call_ensures(UdpTrackerClient::<Tx>::release, (releasing, id), ()),
        *old(answered) == *final(releasing),
        call_ensures(UdpTrackerClient::<Tx>::receive, (answered, incoming, is_ipv6), received),
        incoming@.len() >= 8,
        be_value(incoming@.subrange(4, 8)) == id,
        other != id,
    ensures
        received is Unsolicited,
        final(releasing).transactions().contains_key(other) == old(
            releasing,
        ).transactions().contains_key(other),
        old(releasing).transactions().contains_key(other) ==> final(releasing).transactions()[other]
            == old(releasing).transactions()[other],
        final(releasing).connections() == old(releasing).connections(),
{
}

/// What is reported of a datagram that nobody waits for is what stands in it.
pub proof fn law_unsolicited_reply_is_reported_as_it_was_written<Tx>(
    client: &mut UdpTrackerClient<Tx>,
    incoming: &[u8],
    is_ipv6: bool,
    id: TransactionId,
    said: Response,
)
    requires
        old(client).wf(),
        call_ensures(
            UdpTrackerClient::<Tx>::receive,
            (client, incoming, is_ipv6),
            Received::<Tx>::Unsolicited(id, said),
        ),
    ensures
        incoming@.len() >= 8,
        ({
            let action = be_value(incoming@.subrange(0, 4));
            let len = incoming@.len() as int;
            let whole_peers = len >= 20 && (len - 20) % (if is_ipv6 {
                18int
            } else {
                6int
            }) == 0;
            &&& id == be_value(incoming@.subrange(4, 8))
            &&& action == 0 && len == 16 ==> (said matches Response::Connect(given) && given
                == be_value(incoming@.subrange(8, 16)))
            &&& action == 1 && whole_peers ==> (said matches Response::Announce(announce)
                && is_announce_in(announce, incoming@, is_ipv6))
            &&& action == 3 ==> (said matches Response::Error(message) && message@ == error_text(
                incoming@.skip(8),
            ))
            &&& action == 0 && len != 16 ==> said is Unknown
            &&& action == 1 && !whole_peers ==> said is Unknown
            &&& action != 0 && action != 1 && action != 3 ==> said is Unknown
        }),
{
    assert(Received::<Tx>::Unsolicited(id, said)@ == received(
        old(client).transactions(),
        incoming@,
        is_ipv6,
    ));
    lemma_response_by_position(incoming@, is_ipv6, said);
}

/// In a new client no transaction is open, so every id can be had.
pub proof fn law_new_client_has_no_transactions<Tx>(
    client: &mut UdpTrackerClient<Tx>,
    id: TransactionId,
    tx: Tx,
    back: Option<Tx>,
)
    requires
        call_ensures(UdpTrackerClient::<Tx>::new, (), *old(client)),
        call_ensures(UdpTrackerClient::<Tx>::try_reserve, (client, id, tx), back),
    ensures
        back is None,
{
}

/// How long a connection id serves, how often a transaction id is drawn, and how long a reply
/// is waited for.
pub proof fn law_client_numbers()
    ensures
        CONNECTION_ID_LIFETIME == 60_000_000_000,
        TRANSACTION_ID_DRAWS == 10,
        REPLY_TIMEOUT_SECS == 10,
{
}

} // verus!
