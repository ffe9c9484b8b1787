//! Datagrams of the UDP tracker protocol.

use std::str::Utf8Error;

use rand::Rng;
use vstd::arithmetic::div_mod::{lemma_fundamental_div_mod, lemma_fundamental_div_mod_converse};
use vstd::prelude::*;
use vstd::utf8::{decode_utf8, encode_utf8, valid_utf8};

use crate::addr::{IpAddr, Ipv4Addr, Ipv6Addr, SocketAddr, SocketAddrV4, SocketAddrV6};
use crate::compact_ip::{block, lemma_blocks, CompactSerialize, COMPACT_V4_LEN, COMPACT_V6_LEN};
use crate::hash_id::Id20;
use crate::wire::{
    be_bytes, be_digits, be_signed_value, be_value, law_number_write_then_read,
    lemma_be_bytes_len, lemma_be_value_bound, lemma_pow256_values, ParseNum,
};

verus! {

pub const ACTION_CONNECT: u32 = 0;

pub const ACTION_ANNOUNCE: u32 = 1;

pub const ACTION_ERROR: u32 = 3;

pub const EVENT_NONE: u32 = 0;

pub const EVENT_COMPLETED: u32 = 1;

pub const EVENT_STARTED: u32 = 2;

pub const EVENT_STOPPED: u32 = 3;

pub type ConnectionId = u64;

/// What stands in place of a connection id in a connect request.
pub const CONNECTION_ID_MAGIC: ConnectionId = 0x41727101980;

pub type TransactionId = u32;

/// `Rng::random` on the generator of `rand::rng`: a number picked by chance, of which nothing
/// is claimed. The generator is seeded by the operating system, and panics where that has no
/// randomness to give.
#[verifier::external_body]
pub fn new_transaction_id() -> TransactionId {
    rand::rng().random()
}

/// The number of peers wanted: -1 leaves it to the tracker.
pub const NUM_WANT_DEFAULT: u32 = 0xffff_ffff;

/// No request takes more bytes than this.
pub const MAX_REQUEST_LEN: usize = 1024;

#[derive(Debug)]
pub struct AnnounceFields {
    pub info_hash: Id20,
    pub peer_id: Id20,
    pub downloaded: u64,
    pub left: u64,
    pub uploaded: u64,
    pub event: u32,
    pub key: u32,
    pub port: u16,
}

#[derive(Debug)]
pub enum Request {
    Connect,
    Announce(ConnectionId, AnnounceFields),
}

/// Why a request was not written out.
#[derive(Clone, Copy, Debug, PartialEq, Eq, Structural)]
pub enum SerializeError {
    /// The buffer is shorter than the request.
    NotEnoughSpace,
}

/// The leading fields that fit in `room` bytes, up to the first that does not, back to back.
pub open spec fn fitting(fields: Seq<Seq<u8>>, room: int) -> Seq<u8>
    decreases fields.len(),
{
    if fields.len() == 0 || fields[0].len() > room {
        Seq::empty()
    } else {
        fields[0] + fitting(fields.drop_first(), room - fields[0].len())
    }
}

/// `buf` with `front` written over its first bytes.
pub open spec fn overwritten(buf: Seq<u8>, front: Seq<u8>) -> Seq<u8> {
    front + buf.skip(front.len() as int)
}

/// What the bytes of the vectors are.
pub open spec fn contents(fields: Seq<Vec<u8>>) -> Seq<Seq<u8>> {
    fields.map_values(|field: Vec<u8>| field@)
}

/// Where all the fields fit, all are written.
proof fn lemma_fitting_all(fields: Seq<Seq<u8>>, room: int)
    ensures
        fields.flatten().len() <= room ==> fitting(fields, room) == fields.flatten(),
    decreases fields.len(),
{
    if fields.len() > 0 {
        lemma_fitting_all(fields.drop_first(), room - fields[0].len());
    }
}

/// Copies `s` to `offset` in the buffer, where it fits.
fn put(buf: &mut [u8], offset: usize, s: &[u8]) -> (r: Result<usize, SerializeError>)
    requires
        offset <= old(buf)@.len(),
    ensures
        s@.len() <= old(buf)@.len() - offset ==> {
            &&& r matches Ok(next) && next == offset + s@.len()
            &&& final(buf)@ == old(buf)@.take(offset as int) + s@ + old(buf)@.skip(
                offset + s@.len(),
            )
        },
        s@.len() > old(buf)@.len() - offset ==> {
            &&& r == Err::<usize, SerializeError>(SerializeError::NotEnoughSpace)
            &&& final(buf)@ == old(buf)@
        },
{
    if buf.len() - offset < s.len() {
        return Err(SerializeError::NotEnoughSpace);
    }
    let len: usize = buf.len();
    let mut i: usize = 0;
    while i < s.len()
        invariant
            i <= s@.len(),
            offset + s@.len() <= len == buf@.len() == old(buf)@.len(),
            buf@ =~= old(buf)@.take(offset as int) + s@.take(i as int) + old(buf)@.skip(offset + i),
        decreases s@.len() - i,
    {
        buf[offset + i] = s[i];
        i = i + 1;
    }
    Ok(offset + s.len())
}

impl Request {
    /// The fields of the request, in the order in which they go out.
    pub open spec fn fields(self, transaction_id: TransactionId) -> Seq<Seq<u8>> {
        match self {
            Request::Connect => seq![
                be_bytes(CONNECTION_ID_MAGIC as nat, 8),
                be_bytes(ACTION_CONNECT as nat, 4),
                be_bytes(transaction_id as nat, 4),
            ],
            Request::Announce(connection_id, fields) => seq![
                be_bytes(connection_id as nat, 8),
                be_bytes(ACTION_ANNOUNCE as nat, 4),
                be_bytes(transaction_id as nat, 4),
                fields.info_hash.0@,
                fields.peer_id.0@,
                be_bytes(fields.downloaded as nat, 8),
                be_bytes(fields.left as nat, 8),
                be_bytes(fields.uploaded as nat, 8),
                be_bytes(fields.event as nat, 4),
                be_bytes(0, 4),
                be_bytes(fields.key as nat, 4),
                be_bytes(NUM_WANT_DEFAULT as nat, 4),
                be_bytes(fields.port as nat, 2),
            ],
        }
    }

    /// The request as it goes out.
    pub open spec fn wire(self, transaction_id: TransactionId) -> Seq<u8> {
        self.fields(transaction_id).flatten()
    }

    /// The fields of the request. The address is left to the tracker, as is the number of
    /// peers.
    fn field_bytes(&self, transaction_id: TransactionId) -> (fields: Vec<Vec<u8>>)
        ensures
            contents(fields@) == self.fields(transaction_id),
    {
        let mut out: Vec<Vec<u8>> = Vec::new();
        match self {
            Request::Connect => {
                out.push(be_digits(CONNECTION_ID_MAGIC as u128, 8));
                out.push(be_digits(ACTION_CONNECT as u128, 4));
                out.push(be_digits(transaction_id as u128, 4));
            },
            Request::Announce(connection_id, fields) => {
                out.push(be_digits(*connection_id as u128, 8));
                out.push(be_digits(ACTION_ANNOUNCE as u128, 4));
                out.push(be_digits(transaction_id as u128, 4));
                out.push(vstd::slice::slice_to_vec(fields.info_hash.0.as_slice()));
                out.push(vstd::slice::slice_to_vec(fields.peer_id.0.as_slice()));
                out.push(be_digits(fields.downloaded as u128, 8));
                out.push(be_digits(fields.left as u128, 8));
                out.push(be_digits(fields.uploaded as u128, 8));
                out.push(be_digits(fields.event as u128, 4));
                out.push(be_digits(0, 4));
                out.push(be_digits(fields.key as u128, 4));
                out.push(be_digits(NUM_WANT_DEFAULT as u128, 4));
                out.push(be_digits(fields.port as u128, 2));
            },
        }
        proof {
            assert(contents(out@) =~= self.fields(transaction_id));
        }
        out
    }

    /// Writes the request to the front of the buffer and returns its length. Where it does not
    /// fit, the leading fields that do fit have been written.
    pub fn serialize(&self, transaction_id: TransactionId, buf: &mut [u8]) -> (r: Result<
        usize,
        SerializeError,
    >)
        ensures
            r == (if self.wire(transaction_id).len() <= old(buf)@.len() {
                Ok(self.wire(transaction_id).len() as usize)
            } else {
                Err(SerializeError::NotEnoughSpace)
            }),
            r is Ok ==> final(buf)@ == overwritten(old(buf)@, self.wire(transaction_id)),
            r is Err ==> final(buf)@ == overwritten(
                old(buf)@,
                fitting(self.fields(transaction_id), old(buf)@.len() as int),
            ),
    {
        let fields = self.field_bytes(transaction_id);
        let ghost all = self.fields(transaction_id);
        let ghost room = buf@.len() as int;
        let mut offset: usize = 0;
        let mut i: usize = 0;
        proof {
            lemma_fitting_all(all, room);
            assert(all.skip(0) =~= all);
        }
        while i < fields.len()
            invariant
                i <= fields@.len(),
                contents(fields@) == all,
                room == old(buf)@.len(),
                buf@.len() == room,
                offset <= room,
                fitting(all, room) =~= buf@.take(offset as int) + fitting(
                    all.skip(i as int),
                    room - offset,
                ),
                offset + all.skip(i as int).flatten().len() == all.flatten().len(),
                buf@.skip(offset as int) =~= old(buf)@.skip(offset as int),
                all == self.fields(transaction_id),
                all.flatten().len() <= room ==> fitting(all, room) == all.flatten(),
            decreases fields@.len() - i,
        {
            let ghost before = buf@;
            let ghost start = offset as int;
            proof {
                assert(all.skip(i as int).drop_first() =~= all.skip(i + 1));
                assert(all.skip(i as int)[0] == fields@[i as int]@);
                assert(all.skip(i as int).flatten() == fields@[i as int]@ + all.skip(
                    i + 1,
                ).flatten());
            }
            match put(buf, offset, fields[i].as_slice()) {
                Ok(next) => {
                    offset = next;
                    proof {
                        assert(buf@.take(offset as int) =~= before.take(start)
                            + fields@[i as int]@);
                        assert(buf@.skip(offset as int) =~= before.skip(start).skip(
                            fields@[i as int]@.len() as int,
                        ));
                        assert(old(buf)@.skip(offset as int) =~= old(buf)@.skip(start).skip(
                            fields@[i as int]@.len() as int,
                        ));
                    }
                },
                Err(e) => {
                    proof {
                        assert(buf@ =~= buf@.take(offset as int) + buf@.skip(offset as int));
                    }
                    return Err(e);
                },
            }
            i = i + 1;
        }
        proof {
            assert(all.skip(i as int) =~= Seq::empty());
            assert(buf@ =~= buf@.take(offset as int) + buf@.skip(offset as int));
        }
        Ok(offset)
    }

    /// The request as a datagram.
    pub fn to_datagram(&self, transaction_id: TransactionId) -> (datagram: Vec<u8>)
        ensures
            datagram@ == self.wire(transaction_id),
    {
        let mut buf: Vec<u8> = vec![0u8; MAX_REQUEST_LEN];
        proof {
            law_request_fits(*self, transaction_id);
        }
        match self.serialize(transaction_id, buf.as_mut_slice()) {
            Ok(len) => {
                buf.truncate(len);
                proof {
                    assert(buf@ =~= self.wire(transaction_id));
                }
            },
            Err(_) => {},
        }
        buf
    }
}

/// Where the field at `k` stands among the fields back to back.
proof fn lemma_field_position(fields: Seq<Seq<u8>>, k: int)
    requires
        0 <= k < fields.len(),
    ensures
        fields.flatten().len() == fields.take(k).flatten().len() + fields[k].len() + fields.skip(
            k + 1,
        ).flatten().len(),
        fields.take(k + 1).flatten().len() == fields.take(k).flatten().len() + fields[k].len(),
        fields.flatten().subrange(
            fields.take(k).flatten().len() as int,
            (fields.take(k).flatten().len() + fields[k].len()) as int,
        ) == fields[k],
    decreases fields.len(),
{
    let rest = fields.drop_first();
    if k == 0 {
        assert(fields.take(0) =~= Seq::empty());
        assert(fields.skip(1) =~= rest);
        assert(fields.take(1).drop_first() =~= Seq::empty());
        assert(fields.flatten().subrange(0, fields[0].len() as int) =~= fields[0]);
    } else {
        lemma_field_position(rest, k - 1);
        assert(fields.take(k).drop_first() =~= rest.take(k - 1));
        assert(fields.take(k + 1).drop_first() =~= rest.take(k));
        assert(fields.skip(k + 1) =~= rest.skip(k));
        let start = rest.take(k - 1).flatten().len() as int;
        let len = fields[k].len() as int;
        assert(fields.flatten().subrange(
            fields[0].len() + start,
            fields[0].len() + start + len,
        ) =~= rest.flatten().subrange(start, start + len));
    }
}

/// A connect request takes sixteen bytes: the magic connection id, the action and the
/// transaction id.
pub proof fn law_connect_request_layout(transaction_id: TransactionId)
    ensures
        ({
            let w = Request::Connect.wire(transaction_id);
            &&& w.len() == 16
            &&& be_value(w.subrange(0, 8)) == CONNECTION_ID_MAGIC
            &&& be_value(w.subrange(8, 12)) == ACTION_CONNECT
            &&& be_value(w.subrange(12, 16)) == transaction_id
        }),
{
    let f = Request::Connect.fields(transaction_id);
    lemma_pow256_values();
    law_number_write_then_read(CONNECTION_ID_MAGIC as nat, 8);
    law_number_write_then_read(ACTION_CONNECT as nat, 4);
    law_number_write_then_read(transaction_id as nat, 4);
    assert(f.take(0).flatten().len() == 0);
    lemma_field_position(f, 0);
    lemma_field_position(f, 1);
    lemma_field_position(f, 2);
    assert(f.take(3) =~= f);
}

/// An announce request takes 98 bytes: the connection id, the action, the transaction id, the
/// info hash, the peer id, the byte counts, the event, no address, the key, no number of peers
/// wanted and the port.
pub proof fn law_announce_request_layout(
    connection_id: ConnectionId,
    fields: AnnounceFields,
    transaction_id: TransactionId,
)
    ensures
        ({
            let w = Request::Announce(connection_id, fields).wire(transaction_id);
            &&& w.len() == 98
            &&& be_value(w.subrange(0, 8)) == connection_id
            &&& be_value(w.subrange(8, 12)) == ACTION_ANNOUNCE
            &&& be_value(w.subrange(12, 16)) == transaction_id
            &&& w.subrange(16, 36) == fields.info_hash.0@
            &&& w.subrange(36, 56) == fields.peer_id.0@
            &&& be_value(w.subrange(56, 64)) == fields.downloaded
            &&& be_value(w.subrange(64, 72)) == fields.left
            &&& be_value(w.subrange(72, 80)) == fields.uploaded
            &&& be_value(w.subrange(80, 84)) == fields.event
            &&& be_value(w.subrange(84, 88)) == 0
            &&& be_value(w.subrange(88, 92)) == fields.key
            &&& be_signed_value(w.subrange(92, 96)) == -1
            &&& be_value(w.subrange(96, 98)) == fields.port
        }),
{
    let f = Request::Announce(connection_id, fields).fields(transaction_id);
    lemma_pow256_values();
    law_number_write_then_read(connection_id as nat, 8);
    law_number_write_then_read(ACTION_ANNOUNCE as nat, 4);
    law_number_write_then_read(transaction_id as nat, 4);
    law_number_write_then_read(fields.downloaded as nat, 8);
    law_number_write_then_read(fields.left as nat, 8);
    law_number_write_then_read(fields.uploaded as nat, 8);
    law_number_write_then_read(fields.event as nat, 4);
    law_number_write_then_read(0, 4);
    law_number_write_then_read(fields.key as nat, 4);
    law_number_write_then_read(NUM_WANT_DEFAULT as nat, 4);
    law_number_write_then_read(fields.port as nat, 2);
    assert(f.take(0).flatten().len() == 0);
    lemma_field_position(f, 0);
    lemma_field_position(f, 1);
    lemma_field_position(f, 2);
    lemma_field_position(f, 3);
    lemma_field_position(f, 4);
    lemma_field_position(f, 5);
    lemma_field_position(f, 6);
    lemma_field_position(f, 7);
    lemma_field_position(f, 8);
    lemma_field_position(f, 9);
    lemma_field_position(f, 10);
    lemma_field_position(f, 11);
    lemma_field_position(f, 12);
    assert(f.take(13) =~= f);
}

/// Every request fits in a buffer of [`MAX_REQUEST_LEN`] bytes.
pub proof fn law_request_fits(request: Request, transaction_id: TransactionId)
    ensures
        request.wire(transaction_id).len() <= MAX_REQUEST_LEN,
{
    match request {
        Request::Connect => law_connect_request_layout(transaction_id),
        Request::Announce(connection_id, fields) => law_announce_request_layout(
            connection_id,
            fields,
            transaction_id,
        ),
    }
}

#[derive(Debug)]
pub struct AnnounceResponse {
    pub interval: u32,
    pub leechers: u32,
    pub seeders: u32,
    pub addrs: Vec<SocketAddr>,
}

#[derive(Debug)]
pub enum Response {
    Connect(ConnectionId),
    Announce(AnnounceResponse),
    Error(String),
    Unknown,
}

/// What an [`AnnounceResponse`] says.
pub struct AnnounceView {
    pub interval: u32,
    pub leechers: u32,
    pub seeders: u32,
    pub addrs: Seq<SocketAddr>,
}

/// What a [`Response`] says.
pub enum ResponseView {
    Connect(ConnectionId),
    Announce(AnnounceView),
    Error(Seq<char>),
    Unknown,
}

impl View for AnnounceResponse {
    type V = AnnounceView;

    open spec fn view(&self) -> AnnounceView {
        AnnounceView {
            interval: self.interval,
            leechers: self.leechers,
            seeders: self.seeders,
            addrs: self.addrs@,
        }
    }
}

impl View for Response {
    type V = ResponseView;

    open spec fn view(&self) -> ResponseView {
        match self {
            Response::Connect(connection_id) => ResponseView::Connect(*connection_id),
            Response::Announce(announce) => ResponseView::Announce(announce@),
            Response::Error(message) => ResponseView::Error(message@),
            Response::Unknown => ResponseView::Unknown,
        }
    }
}

/// Why a datagram is no response at all.
#[derive(Clone, Copy, Debug, PartialEq, Eq, Structural)]
pub enum ParseError {
    /// It ends before the action does.
    NoAction,
    /// It ends before the transaction id does.
    NoTransactionId,
}

/// The part of a response behind the transaction id that is cut short.
#[derive(Clone, Copy, Debug, PartialEq, Eq, Structural)]
pub enum ResponseField {
    ConnectionId,
    Interval,
    Leechers,
    Seeders,
    PeerAddress,
    PeerPort,
}

/// Why what stands behind the transaction id is not understood.
#[derive(Clone, Copy, Debug, PartialEq, Eq, Structural)]
pub enum ResponseError {
    /// The datagram ends before this field does.
    CutShort(ResponseField),
    /// There are this many bytes too many.
    Trailing(usize),
    UnsupportedAction(u32),
}

/// How many bytes a peer takes in an announce response.
pub open spec fn peer_len(is_ipv6: bool) -> nat {
    if is_ipv6 {
        COMPACT_V6_LEN as nat
    } else {
        COMPACT_V4_LEN as nat
    }
}

/// The peer that `bytes` denote.
pub open spec fn peer_addr(bytes: Seq<u8>, is_ipv6: bool) -> SocketAddr {
    if is_ipv6 {
        SocketAddrV6::from_compact(bytes).socket_addr()
    } else {
        SocketAddrV4::from_compact(bytes).socket_addr()
    }
}

/// The peers that stand back to back in `bytes`.
pub open spec fn peer_addrs(bytes: Seq<u8>, is_ipv6: bool) -> Seq<SocketAddr> {
    Seq::new(
        bytes.len() / peer_len(is_ipv6),
        |i: int| peer_addr(block(bytes, peer_len(is_ipv6), i), is_ipv6),
    )
}

/// What the body of an announce response says.
pub open spec fn announce_body(body: Seq<u8>, is_ipv6: bool) -> Result<
    AnnounceView,
    ResponseError,
> {
    if body.len() < 4 {
        Err(ResponseError::CutShort(ResponseField::Interval))
    } else if body.len() < 8 {
        Err(ResponseError::CutShort(ResponseField::Leechers))
    } else if body.len() < 12 {
        Err(ResponseError::CutShort(ResponseField::Seeders))
    } else {
        let peers = body.skip(12);
        let left_over = peers.len() % peer_len(is_ipv6);
        if left_over == 0 {
            Ok(
                AnnounceView {
                    interval: be_value(body.subrange(0, 4)) as u32,
                    leechers: be_value(body.subrange(4, 8)) as u32,
                    seeders: be_value(body.subrange(8, 12)) as u32,
                    addrs: peer_addrs(peers, is_ipv6),
                },
            )
        } else if left_over < peer_len(is_ipv6) - 2 {
            Err(ResponseError::CutShort(ResponseField::PeerAddress))
        } else {
            Err(ResponseError::CutShort(ResponseField::PeerPort))
        }
    }
}

/// The bytes end in a NUL and hold no other.
pub open spec fn is_c_string(bytes: Seq<u8>) -> bool {
    &&& bytes.len() > 0
    &&& bytes.last() == 0
    &&& forall|i: int| 0 <= i < bytes.len() - 1 ==> #[trigger] bytes[i] != 0
}

/// What is reported of an error message that is no text.
pub const INVALID_UTF8: &'static str = "<invalid UTF-8>";

/// The text of an error message: a C string without its NUL, else the bytes as they are.
pub open spec fn error_text(body: Seq<u8>) -> Seq<char> {
    if is_c_string(body) && valid_utf8(body.drop_last()) {
        decode_utf8(body.drop_last())
    } else if valid_utf8(body) {
        decode_utf8(body)
    } else {
        INVALID_UTF8@
    }
}

/// What stands behind the transaction id of a response to `action`.
pub open spec fn response_body(action: u32, is_ipv6: bool, body: Seq<u8>) -> Result<
    ResponseView,
    ResponseError,
> {
    if action == ACTION_CONNECT {
        if body.len() < 8 {
            Err(ResponseError::CutShort(ResponseField::ConnectionId))
        } else if body.len() > 8 {
            Err(ResponseError::Trailing((body.len() - 8) as usize))
        } else {
            Ok(ResponseView::Connect(be_value(body) as u64))
        }
    } else if action == ACTION_ANNOUNCE {
        match announce_body(body, is_ipv6) {
            Ok(announce) => Ok(ResponseView::Announce(announce)),
            Err(e) => Err(e),
        }
    } else if action == ACTION_ERROR {
        Ok(ResponseView::Error(error_text(body)))
    } else {
        Err(ResponseError::UnsupportedAction(action))
    }
}

/// What a datagram says: the transaction that it answers and the response, which is unknown
/// where it is not understood.
pub open spec fn response(datagram: Seq<u8>, is_ipv6: bool) -> Result<
    (TransactionId, ResponseView),
    ParseError,
> {
    if datagram.len() < 4 {
        Err(ParseError::NoAction)
    } else if datagram.len() < 8 {
        Err(ParseError::NoTransactionId)
    } else {
        let action = be_value(datagram.subrange(0, 4)) as u32;
        let transaction_id = be_value(datagram.subrange(4, 8)) as u32;
        match response_body(action, is_ipv6, datagram.skip(8)) {
            Ok(r) => Ok((transaction_id, r)),
            Err(_) => Ok((transaction_id, ResponseView::Unknown)),
        }
    }
}

/// Where a byte sequence stops being UTF-8.
#[verifier::external_type_specification]
#[verifier::external_body]
pub struct ExUtf8Error(Utf8Error);

/// `str::from_utf8` accepts exactly the byte sequences that are UTF-8, and hands back the text
/// that they encode.
pub assume_specification[ std::str::from_utf8 ](v: &[u8]) -> (r: Result<&str, Utf8Error>)
    ensures
        r is Ok <==> valid_utf8(v@),
        r matches Ok(text) ==> encode_utf8(text@) == v@,
;

/// Reads UTF-8 text.
fn text_of(bytes: &[u8]) -> (r: Option<&str>)
    ensures
        r is Some <==> valid_utf8(bytes@),
        r matches Some(text) ==> text@ == decode_utf8(bytes@),
{
    match std::str::from_utf8(bytes) {
        Ok(text) => {
            proof {
                vstd::utf8::encode_utf8_decode_utf8(text@);
            }
            Some(text)
        },
        Err(_) => None,
    }
}

/// Whether the bytes end in a NUL and hold no other.
fn ends_in_only_nul(bytes: &[u8]) -> (r: bool)
    ensures
        r == is_c_string(bytes@),
{
    let len: usize = bytes.len();
    if len == 0 || bytes[len - 1] != 0 {
        return false;
    }
    let mut i: usize = 0;
    while i < len - 1
        invariant
            len == bytes@.len(),
            0 < len,
            i <= len - 1,
            forall|j: int| 0 <= j < i ==> #[trigger] bytes@[j] != 0,
        decreases len - i,
    {
        if bytes[i] == 0 {
            return false;
        }
        i = i + 1;
    }
    true
}

/// Reads the message of an error response.
fn error_message(body: &[u8]) -> (message: String)
    ensures
        message@ == error_text(body@),
{
    if ends_in_only_nul(body) {
        let (front, _) = body.split_at(body.len() - 1);
        proof {
            assert(front@ =~= body@.drop_last());
        }
        match text_of(front) {
            Some(text) => return text.to_owned(),
            None => {},
        }
    }
    match text_of(body) {
        Some(text) => text.to_owned(),
        None => INVALID_UTF8.to_owned(),
    }
}

/// Reads the peers that take all of `bytes`.
fn parse_peers(bytes: &[u8], is_ipv6: bool) -> (r: Result<Vec<SocketAddr>, ResponseError>)
    ensures
        ({
            let left_over = bytes@.len() % peer_len(is_ipv6);
            match r {
                Ok(addrs) => left_over == 0 && addrs@ == peer_addrs(bytes@, is_ipv6),
                Err(e) => left_over != 0 && e == ResponseError::CutShort(
                    if left_over < peer_len(is_ipv6) - 2 {
                        ResponseField::PeerAddress
                    } else {
                        ResponseField::PeerPort
                    },
                ),
            }
        }),
{
    let mut addrs: Vec<SocketAddr> = Vec::new();
    let mut rest: &[u8] = bytes;
    let ghost n = peer_len(is_ipv6) as int;
    proof {
        assert(0 * n == 0) by (nonlinear_arith);
        assert(bytes@.skip(0) =~= bytes@);
    }
    while !rest.is_empty()
        invariant
            n == peer_len(is_ipv6),
            addrs@.len() * n + rest@.len() == bytes@.len(),
            rest@ == bytes@.skip(addrs@.len() * n),
            forall|i: int|
                0 <= i < addrs@.len() ==> addrs@[i] == peer_addr(
                    #[trigger] block(bytes@, peer_len(is_ipv6), i),
                    is_ipv6,
                ),
        decreases rest@.len(),
    {
        let ghost count = addrs@.len() as int;
        let ghost before = rest@;
        proof {
            if before.len() < n {
                lemma_fundamental_div_mod_converse(
                    bytes@.len() as int,
                    n,
                    count,
                    before.len() as int,
                );
            } else {
                assert(block(bytes@, peer_len(is_ipv6), count) =~= before.take(n));
            }
        }
        let (ip, behind_ip) = if is_ipv6 {
            match u128::parse_num(rest) {
                Ok((bits, behind)) => (IpAddr::V6(Ipv6Addr { bits }), behind),
                Err(_) => return Err(ResponseError::CutShort(ResponseField::PeerAddress)),
            }
        } else {
            match u32::parse_num(rest) {
                Ok((bits, behind)) => (IpAddr::V4(Ipv4Addr { bits }), behind),
                Err(_) => return Err(ResponseError::CutShort(ResponseField::PeerAddress)),
            }
        };
        let (port, behind_port) = match u16::parse_num(behind_ip) {
            Ok(parsed) => parsed,
            Err(_) => return Err(ResponseError::CutShort(ResponseField::PeerPort)),
        };
        proof {
            let peer = before.take(n);
            assert(peer.take(n - 2) =~= before.take(n - 2));
            assert(peer.skip(n - 2) =~= behind_ip@.take(2));
            assert(SocketAddr::spec_new(ip, port) == peer_addr(peer, is_ipv6));
            assert((count + 1) * n == count * n + n) by (nonlinear_arith);
            assert(behind_port@ =~= bytes@.skip((count + 1) * n));
        }
        rest = behind_port;
        addrs.push(SocketAddr::new(ip, port));
    }
    proof {
        lemma_fundamental_div_mod_converse(bytes@.len() as int, n, addrs@.len() as int, 0);
        assert(addrs@ =~= peer_addrs(bytes@, is_ipv6));
    }
    Ok(addrs)
}

/// Reads the body of an announce response.
fn parse_announce(body: &[u8], is_ipv6: bool) -> (r: Result<AnnounceResponse, ResponseError>)
    ensures
        match r {
            Ok(announce) => announce_body(body@, is_ipv6) == Ok::<_, ResponseError>(announce@),
            Err(e) => announce_body(body@, is_ipv6) == Err::<AnnounceView, _>(e),
        },
{
    let (interval, behind_interval) = match u32::parse_num(body) {
        Ok(parsed) => parsed,
        Err(_) => return Err(ResponseError::CutShort(ResponseField::Interval)),
    };
    let (leechers, behind_leechers) = match u32::parse_num(behind_interval) {
        Ok(parsed) => parsed,
        Err(_) => return Err(ResponseError::CutShort(ResponseField::Leechers)),
    };
    let (seeders, peers) = match u32::parse_num(behind_leechers) {
        Ok(parsed) => parsed,
        Err(_) => return Err(ResponseError::CutShort(ResponseField::Seeders)),
    };
    proof {
        assert(behind_interval@.take(4) =~= body@.subrange(4, 8));
        assert(behind_leechers@.take(4) =~= body@.subrange(8, 12));
        assert(body@.take(4) =~= body@.subrange(0, 4));
        assert(peers@ =~= body@.skip(12));
    }
    match parse_peers(peers, is_ipv6) {
        Ok(addrs) => Ok(AnnounceResponse { interval, leechers, seeders, addrs }),
        Err(e) => Err(e),
    }
}

impl Response {
    /// Reads a datagram that came back. `is_ipv6` says whether it came over IPv6: peers are
    /// then IPv6 addresses. A response that is not understood is unknown, and keeps its
    /// transaction id.
    pub fn parse(buf: &[u8], is_ipv6: bool) -> (r: Result<(TransactionId, Self), ParseError>)
        ensures
            match r {
                Ok((transaction_id, parsed)) => response(buf@, is_ipv6) == Ok::<_, ParseError>(
                    (transaction_id, parsed@),
                ),
                Err(e) => response(buf@, is_ipv6) == Err::<(TransactionId, ResponseView), _>(e),
            },
    {
        let (action, behind_action) = match u32::parse_num(buf) {
            Ok(parsed) => parsed,
            Err(_) => return Err(ParseError::NoAction),
        };
        let (transaction_id, body) = match u32::parse_num(behind_action) {
            Ok(parsed) => parsed,
            Err(_) => return Err(ParseError::NoTransactionId),
        };
        proof {
            assert(buf@.take(4) =~= buf@.subrange(0, 4));
            assert(behind_action@.take(4) =~= buf@.subrange(4, 8));
            assert(body@ =~= buf@.skip(8));
        }
        match Self::parse_response(action, is_ipv6, body) {
            Ok(parsed) => Ok((transaction_id, parsed)),
            Err(_) => Ok((transaction_id, Response::Unknown)),
        }
    }

    /// Reads what stands behind the transaction id.
    fn parse_response(action: u32, is_ipv6: bool, body: &[u8]) -> (r: Result<Self, ResponseError>)
        ensures
            match r {
                Ok(parsed) => response_body(action, is_ipv6, body@) == Ok::<_, ResponseError>(
                    parsed@,
                ),
                Err(e) => response_body(action, is_ipv6, body@) == Err::<ResponseView, _>(e),
            },
    {
        if action == ACTION_CONNECT {
            let (connection_id, rest) = match u64::parse_num(body) {
                Ok(parsed) => parsed,
                Err(_) => return Err(ResponseError::CutShort(ResponseField::ConnectionId)),
            };
            if !rest.is_empty() {
                return Err(ResponseError::Trailing(rest.len()));
            }
            proof {
                assert(body@.take(8) =~= body@);
            }
            Ok(Response::Connect(connection_id))
        } else if action == ACTION_ANNOUNCE {
            match parse_announce(body, is_ipv6) {
                Ok(announce) => Ok(Response::Announce(announce)),
                Err(e) => Err(e),
            }
        } else if action == ACTION_ERROR {
            Ok(Response::Error(error_message(body)))
        } else {
            Err(ResponseError::UnsupportedAction(action))
        }
    }
}

/// A datagram that answers a transaction.
pub open spec fn datagram(action: u32, transaction_id: TransactionId, body: Seq<u8>) -> Seq<u8> {
    be_bytes(action as nat, 4) + be_bytes(transaction_id as nat, 4) + body
}

/// The address can stand in an announce response that comes over IPv6, or over IPv4.
pub open spec fn is_peer(addr: SocketAddr, is_ipv6: bool) -> bool {
    match addr {
        SocketAddr::V4(addr) => !is_ipv6 && addr.is_plain(),
        SocketAddr::V6(addr) => is_ipv6 && addr.is_plain(),
    }
}

/// The peer as it stands in an announce response.
pub open spec fn peer_bytes(addr: SocketAddr) -> Seq<u8> {
    match addr {
        SocketAddr::V4(addr) => addr.to_compact(),
        SocketAddr::V6(addr) => addr.to_compact(),
    }
}

/// The body of an announce response.
pub open spec fn announce_bytes(announce: AnnounceView) -> Seq<u8> {
    be_bytes(announce.interval as nat, 4) + be_bytes(announce.leechers as nat, 4) + be_bytes(
        announce.seeders as nat,
        4,
    ) + announce.addrs.map_values(|addr: SocketAddr| peer_bytes(addr)).flatten()
}

/// A datagram is taken apart as it was put together: its action decides how its body is read,
/// and its transaction id comes through whatever the body is.
pub proof fn law_datagram_is_taken_apart(
    action: u32,
    transaction_id: TransactionId,
    body: Seq<u8>,
    is_ipv6: bool,
)
    ensures
        response(datagram(action, transaction_id, body), is_ipv6) == Ok::<_, ParseError>(
            (
                transaction_id,
                match response_body(action, is_ipv6, body) {
                    Ok(r) => r,
                    Err(_) => ResponseView::Unknown,
                },
            ),
        ),
{
    let d = datagram(action, transaction_id, body);
    lemma_pow256_values();
    law_number_write_then_read(action as nat, 4);
    law_number_write_then_read(transaction_id as nat, 4);
    assert(d.subrange(0, 4) =~= be_bytes(action as nat, 4));
    assert(d.subrange(4, 8) =~= be_bytes(transaction_id as nat, 4));
    assert(d.skip(8) =~= body);
}

/// A connect response gives back the transaction id and the connection id that the tracker
/// put in it.
pub proof fn law_connect_response_read_back(
    transaction_id: TransactionId,
    connection_id: ConnectionId,
    is_ipv6: bool,
)
    ensures
        response(
            datagram(ACTION_CONNECT, transaction_id, be_bytes(connection_id as nat, 8)),
            is_ipv6,
        ) == Ok::<_, ParseError>((transaction_id, ResponseView::Connect(connection_id))),
{
    let body = be_bytes(connection_id as nat, 8);
    lemma_pow256_values();
    law_number_write_then_read(connection_id as nat, 8);
    law_datagram_is_taken_apart(ACTION_CONNECT, transaction_id, body, is_ipv6);
}

/// An announce response gives back the numbers and the peers that the tracker put in it, in
/// order.
pub proof fn law_announce_response_read_back(
    transaction_id: TransactionId,
    announce: AnnounceView,
    is_ipv6: bool,
)
    requires
        forall|i: int|
            0 <= i < announce.addrs.len() ==> is_peer(#[trigger] announce.addrs[i], is_ipv6),
    ensures
        response(
            datagram(ACTION_ANNOUNCE, transaction_id, announce_bytes(announce)),
            is_ipv6,
        ) == Ok::<_, ParseError>((transaction_id, ResponseView::Announce(announce))),
{
    let body = announce_bytes(announce);
    let forms = announce.addrs.map_values(|addr: SocketAddr| peer_bytes(addr));
    let len = peer_len(is_ipv6);
    lemma_pow256_values();
    law_number_write_then_read(announce.interval as nat, 4);
    law_number_write_then_read(announce.leechers as nat, 4);
    law_number_write_then_read(announce.seeders as nat, 4);
    assert forall|i: int| 0 <= i < forms.len() implies {
        &&& (#[trigger] forms[i]).len() == len
        &&& peer_addr(forms[i], is_ipv6) == announce.addrs[i]
    } by {
        assert(is_peer(announce.addrs[i], is_ipv6));
        match announce.addrs[i] {
            SocketAddr::V4(addr) => addr.law_compact_form(Seq::empty()),
            SocketAddr::V6(addr) => addr.law_compact_form(Seq::empty()),
        }
    }
    lemma_blocks(forms, len, Seq::empty());
    assert(forms.flatten() + Seq::<u8>::empty() =~= forms.flatten());
    assert(body.subrange(0, 4) =~= be_bytes(announce.interval as nat, 4));
    assert(body.subrange(4, 8) =~= be_bytes(announce.leechers as nat, 4));
    assert(body.subrange(8, 12) =~= be_bytes(announce.seeders as nat, 4));
    assert(body.skip(12) =~= forms.flatten());
    assert forall|i: int| 0 <= i < announce.addrs.len() implies #[trigger] peer_addrs(
        forms.flatten(),
        is_ipv6,
    )[i] == announce.addrs[i] by {
        assert(block(forms.flatten(), len, i) == forms[i]);
    }
    assert(peer_addrs(forms.flatten(), is_ipv6) =~= announce.addrs);
    law_datagram_is_taken_apart(ACTION_ANNOUNCE, transaction_id, body, is_ipv6);
}

/// An error response gives back the message that the tracker put in it: as it stands, unless
/// it looks like a C string, or with a NUL behind it.
pub proof fn law_error_response_read_back(
    transaction_id: TransactionId,
    message: Seq<char>,
    is_ipv6: bool,
)
    ensures
        !is_c_string(encode_utf8(message)) ==> response(
            datagram(ACTION_ERROR, transaction_id, encode_utf8(message)),
            is_ipv6,
        ) == Ok::<_, ParseError>((transaction_id, ResponseView::Error(message))),
        is_c_string(encode_utf8(message).push(0)) ==> response(
            datagram(ACTION_ERROR, transaction_id, encode_utf8(message).push(0)),
            is_ipv6,
        ) == Ok::<_, ParseError>((transaction_id, ResponseView::Error(message))),
{
    let plain = encode_utf8(message);
    vstd::utf8::encode_utf8_valid_utf8(message);
    vstd::utf8::encode_utf8_decode_utf8(message);
    assert(plain.push(0).drop_last() =~= plain);
    law_datagram_is_taken_apart(ACTION_ERROR, transaction_id, plain, is_ipv6);
    law_datagram_is_taken_apart(ACTION_ERROR, transaction_id, plain.push(0), is_ipv6);
}

/// A tracker that answers with the four bytes that stand in the place of the transaction id of
/// a request, whatever else it says, answers that transaction.
pub proof fn law_echoed_transaction_id(
    request: Request,
    transaction_id: TransactionId,
    action: u32,
    body: Seq<u8>,
    is_ipv6: bool,
)
    ensures
        response(
            be_bytes(action as nat, 4) + request.wire(transaction_id).subrange(12, 16) + body,
            is_ipv6,
        ) matches Ok((answered, _)) && answered == transaction_id,
{
    let f = request.fields(transaction_id);
    lemma_pow256_values();
    law_number_write_then_read(
        match request {
            Request::Connect => CONNECTION_ID_MAGIC as nat,
            Request::Announce(connection_id, _) => connection_id as nat,
        },
        8,
    );
    law_number_write_then_read(
        match request {
            Request::Connect => ACTION_CONNECT as nat,
            Request::Announce(..) => ACTION_ANNOUNCE as nat,
        },
        4,
    );
    law_number_write_then_read(transaction_id as nat, 4);
    assert(f.take(0).flatten().len() == 0);
    lemma_field_position(f, 0);
    lemma_field_position(f, 1);
    lemma_field_position(f, 2);
    assert(request.wire(transaction_id).subrange(12, 16) == be_bytes(transaction_id as nat, 4));
    law_datagram_is_taken_apart(action, transaction_id, body, is_ipv6);
}

/// Whether a response came over IPv6 or over IPv4 matters to announce responses only.
pub proof fn law_address_family_matters_to_announces_only(action: u32, body: Seq<u8>)
    requires
        action != ACTION_ANNOUNCE,
    ensures
        response_body(action, true, body) == response_body(action, false, body),
{
}

/// The peers of two bodies of whole peers, joined, are the peers of the first and then those of
/// the second.
proof fn lemma_joined_peers(p: Seq<u8>, q: Seq<u8>, is_ipv6: bool)
    requires
        p.len() % peer_len(is_ipv6) == 0,
        q.len() % peer_len(is_ipv6) == 0,
    ensures
        (p + q).len() % peer_len(is_ipv6) == 0,
        peer_addrs(p + q, is_ipv6) == peer_addrs(p, is_ipv6) + peer_addrs(q, is_ipv6),
{
    let len = peer_len(is_ipv6);
    let n = len as int;
    let count_p = p.len() as int / n;
    let count_q = q.len() as int / n;
    lemma_fundamental_div_mod(p.len() as int, n);
    lemma_fundamental_div_mod(q.len() as int, n);
    assert(p.len() == count_p * n) by (nonlinear_arith)
        requires
            p.len() == n * count_p,
    ;
    assert(q.len() == count_q * n) by (nonlinear_arith)
        requires
            q.len() == n * count_q,
    ;
    assert((count_p + count_q) * n == count_p * n + count_q * n) by (nonlinear_arith);
    lemma_fundamental_div_mod_converse((p + q).len() as int, n, count_p + count_q, 0);
    let joined = peer_addrs(p, is_ipv6) + peer_addrs(q, is_ipv6);
    assert forall|i: int| 0 <= i < count_p + count_q implies #[trigger] peer_addrs(
        p + q,
        is_ipv6,
    )[i] == joined[i] by {
        assert(i * n >= 0) by (nonlinear_arith)
            requires
                i >= 0,
                n > 0,
        ;
        if i < count_p {
            assert(i * n + n <= count_p * n) by (nonlinear_arith)
                requires
                    i + 1 <= count_p,
                    n > 0,
            ;
            assert(block(p + q, len, i) =~= block(p, len, i));
        } else {
            let j = i - count_p;
            assert(i * n == count_p * n + j * n) by (nonlinear_arith)
                requires
                    i == count_p + j,
            ;
            assert(j * n + n <= count_q * n && j * n >= 0) by (nonlinear_arith)
                requires
                    0 <= j,
                    j + 1 <= count_q,
                    n > 0,
            ;
            assert(block(p + q, len, i) =~= block(q, len, j));
        }
    }
    assert(peer_addrs(p + q, is_ipv6) =~= joined);
}

/// Announce responses with the same numbers `head` can be joined: the peers of `p` and `q`
/// together are those of `p` and then those of `q`, and the numbers stay the same.
pub proof fn law_peers_of_joined_announces(
    head: Seq<u8>,
    p: Seq<u8>,
    q: Seq<u8>,
    is_ipv6: bool,
)
    requires
        head.len() == 12,
        p.len() % peer_len(is_ipv6) == 0,
        q.len() % peer_len(is_ipv6) == 0,
    ensures
        ({
            let first = response_body(ACTION_ANNOUNCE, is_ipv6, head + p);
            let second = response_body(ACTION_ANNOUNCE, is_ipv6, head + q);
            let both = response_body(ACTION_ANNOUNCE, is_ipv6, head + p + q);
            &&& first matches Ok(ResponseView::Announce(a))
            &&& second matches Ok(ResponseView::Announce(b))
            &&& both matches Ok(ResponseView::Announce(c))
            &&& c.addrs == a.addrs + b.addrs
            &&& a.interval == b.interval == c.interval
            &&& a.leechers == b.leechers == c.leechers
            &&& a.seeders == b.seeders == c.seeders
        }),
{
    lemma_joined_peers(p, q, is_ipv6);
    assert((head + p).skip(12) =~= p);
    assert((head + q).skip(12) =~= q);
    assert((head + p + q).skip(12) =~= p + q);
    assert((head + p).subrange(0, 4) =~= head.subrange(0, 4));
    assert((head + q).subrange(0, 4) =~= head.subrange(0, 4));
    assert((head + p + q).subrange(0, 4) =~= head.subrange(0, 4));
    assert((head + p).subrange(4, 8) =~= head.subrange(4, 8));
    assert((head + q).subrange(4, 8) =~= head.subrange(4, 8));
    assert((head + p + q).subrange(4, 8) =~= head.subrange(4, 8));
    assert((head + p).subrange(8, 12) =~= head.subrange(8, 12));
    assert((head + q).subrange(8, 12) =~= head.subrange(8, 12));
    assert((head + p + q).subrange(8, 12) =~= head.subrange(8, 12));
}

/// The peer stands at `at` in a datagram that came over IPv6, or over IPv4: the bytes of the
/// address, then those of the port.
pub open spec fn is_peer_at(addr: SocketAddr, datagram: Seq<u8>, at: int, is_ipv6: bool) -> bool {
    match addr {
        SocketAddr::V4(v4) => {
            &&& !is_ipv6
            &&& v4.ip.bits == be_value(datagram.subrange(at, at + 4))
            &&& v4.port == be_value(datagram.subrange(at + 4, at + 6))
        },
        SocketAddr::V6(v6) => {
            &&& is_ipv6
            &&& v6.ip.bits == be_value(datagram.subrange(at, at + 16))
            &&& v6.port == be_value(datagram.subrange(at + 16, at + 18))
            &&& v6.flowinfo == 0
            &&& v6.scope_id == 0
        },
    }
}

/// The announce says what stands in the datagram: the interval, the leechers and the seeders,
/// and from the twentieth byte on the peers, in order.
pub open spec fn is_announce_in(
    announce: AnnounceResponse,
    datagram: Seq<u8>,
    is_ipv6: bool,
) -> bool {
    let len: int = if is_ipv6 {
        18
    } else {
        6
    };
    &&& announce.interval == be_value(datagram.subrange(8, 12))
    &&& announce.leechers == be_value(datagram.subrange(12, 16))
    &&& announce.seeders == be_value(datagram.subrange(16, 20))
    &&& 20 + announce.addrs@.len() * len == datagram.len()
    &&& forall|i: int|
        0 <= i < announce.addrs@.len() ==> is_peer_at(
            #[trigger] announce.addrs@[i],
            datagram,
            20 + i * len,
            is_ipv6,
        )
}

/// What a peer's bytes say is read from where they stand.
proof fn lemma_peer_is_read(datagram: Seq<u8>, i: int, is_ipv6: bool)
    requires
        datagram.len() >= 20,
        0 <= i,
        20 + i * (peer_len(is_ipv6) as int) + peer_len(is_ipv6) <= datagram.len(),
    ensures
        is_peer_at(
            peer_addr(block(datagram.skip(8).skip(12), peer_len(is_ipv6), i), is_ipv6),
            datagram,
            20 + i * (peer_len(is_ipv6) as int),
            is_ipv6,
        ),
{
    let n = peer_len(is_ipv6) as int;
    let at = 20 + i * n;
    let bytes = block(datagram.skip(8).skip(12), peer_len(is_ipv6), i);
    assert(i * n >= 0) by (nonlinear_arith)
        requires
            i >= 0,
            n > 0,
    ;
    assert(bytes =~= datagram.subrange(at, at + n));
    lemma_pow256_values();
    lemma_be_value_bound(datagram.subrange(at, at + n - 2));
    lemma_be_value_bound(datagram.subrange(at + n - 2, at + n));
    assert(bytes.take(n - 2) =~= datagram.subrange(at, at + n - 2));
    assert(bytes.skip(n - 2) =~= datagram.subrange(at + n - 2, at + n));
}

/// A response that says what a datagram says is read by position.
pub proof fn lemma_response_by_position(d: Seq<u8>, is_ipv6: bool, said: Response)
    requires
        d.len() >= 8,
        response(d, is_ipv6) matches Ok((_, r)) && r == said@,
    ensures
        ({
            let action = be_value(d.subrange(0, 4));
            let len = d.len() as int;
            let whole_peers = len >= 20 && (len - 20) % (if is_ipv6 {
                18int
            } else {
                6int
            }) == 0;
            &&& response(d, is_ipv6)->Ok_0.0 == be_value(d.subrange(4, 8))
            &&& action == 0 && len == 16 ==> (said matches Response::Connect(id) && id == be_value(
                d.subrange(8, 16),
            ))
            &&& action == 1 && whole_peers ==> (said matches Response::Announce(announce)
                && is_announce_in(announce, d, is_ipv6))
            &&& action == 3 ==> (said matches Response::Error(message) && message@ == error_text(
                d.skip(8),
            ))
            &&& action == 0 && len != 16 ==> said is Unknown
            &&& action == 1 && !whole_peers ==> said is Unknown
            &&& action != 0 && action != 1 && action != 3 ==> said is Unknown
        }),
{
    let body = d.skip(8);
    let n = peer_len(is_ipv6) as int;
    lemma_pow256_values();
    lemma_be_value_bound(d.subrange(0, 4));
    lemma_be_value_bound(d.subrange(4, 8));
    if d.len() == 16 {
        lemma_be_value_bound(d.subrange(8, 16));
        assert(body =~= d.subrange(8, 16));
    }
    if d.len() >= 20 {
        let peers = body.skip(12);
        assert(body.subrange(0, 4) =~= d.subrange(8, 12));
        assert(body.subrange(4, 8) =~= d.subrange(12, 16));
        assert(body.subrange(8, 12) =~= d.subrange(16, 20));
        lemma_be_value_bound(d.subrange(8, 12));
        lemma_be_value_bound(d.subrange(12, 16));
        lemma_be_value_bound(d.subrange(16, 20));
        assert(peers.len() == d.len() - 20);
        if be_value(d.subrange(0, 4)) == 1 && peers.len() as int % n == 0 {
            let count = peers.len() as int / n;
            lemma_fundamental_div_mod(peers.len() as int, n);
            assert(count * n == n * count) by (nonlinear_arith);
            assert(said@ == response(d, is_ipv6)->Ok_0.1);
            let announce = said->Announce_0;
            assert(announce.addrs@ == peer_addrs(peers, is_ipv6));
            assert forall|i: int| 0 <= i < announce.addrs@.len() implies is_peer_at(
                #[trigger] announce.addrs@[i],
                d,
                20 + i * n,
                is_ipv6,
            ) by {
                assert(i * n + n <= count * n) by (nonlinear_arith)
                    requires
                        i + 1 <= count,
                        n > 0,
                ;
                lemma_peer_is_read(d, i, is_ipv6);
            }
        }
    }
}

/// A datagram is read by position: the action, the transaction id, and behind them what the
/// action calls for, to the last byte. What is too short for an action and a transaction id is
/// refused, and what does not fit its action is unknown.
pub proof fn law_datagram_is_read_by_position(
    datagram: &[u8],
    is_ipv6: bool,
    r: Result<(TransactionId, Response), ParseError>,
)
    requires
        call_ensures(Response::parse, (datagram, is_ipv6), r),
    ensures
        datagram@.len() < 4 ==> r == Err::<(TransactionId, Response), _>(ParseError::NoAction),
        4 <= datagram@.len() < 8 ==> r == Err::<(TransactionId, Response), _>(
            ParseError::NoTransactionId,
        ),
        datagram@.len() >= 8 ==> {
            let action = be_value(datagram@.subrange(0, 4));
            let len = datagram@.len() as int;
            let whole_peers = len >= 20 && (len - 20) % (if is_ipv6 {
                18int
            } else {
                6int
            }) == 0;
            &&& r matches Ok((transaction_id, said))
            &&& transaction_id == be_value(datagram@.subrange(4, 8))
            &&& action == 0 && len == 16 ==> (said matches Response::Connect(id) && id == be_value(
                datagram@.subrange(8, 16),
            ))
            &&& action == 1 && whole_peers ==> (said matches Response::Announce(announce)
                && is_announce_in(announce, datagram@, is_ipv6))
            &&& action == 3 ==> said is Error
            &&& action == 0 && len != 16 ==> said is Unknown
            &&& action == 1 && !whole_peers ==> said is Unknown
            &&& action != 0 && action != 1 && action != 3 ==> said is Unknown
        },
{
    if datagram@.len() >= 8 {
        lemma_response_by_position(datagram@, is_ipv6, r->Ok_0.1);
    }
}

/// The message of an error response is the text that stands behind the transaction id. Where
/// that ends in a NUL and holds no other, the NUL is no part of the message. What is no UTF-8
/// is reported as such.
pub proof fn law_error_message_is_what_stands_there(
    datagram: &[u8],
    is_ipv6: bool,
    r: Result<(TransactionId, Response), ParseError>,
)
    requires
        call_ensures(Response::parse, (datagram, is_ipv6), r),
        datagram@.len() >= 8,
        be_value(datagram@.subrange(0, 4)) == 3,
    ensures
        ({
            let body = datagram@.skip(8);
            let front = datagram@.subrange(8, datagram@.len() - 1);
            let only_nul_at_the_end = body.len() > 0 && body[body.len() - 1] == 0
                && !front.contains(0u8);
            &&& r matches Ok((_, Response::Error(message)))
            &&& only_nul_at_the_end && valid_utf8(front) ==> encode_utf8(message@) == front
            &&& !only_nul_at_the_end && valid_utf8(body) ==> encode_utf8(message@) == body
            &&& !valid_utf8(body) && !(only_nul_at_the_end && valid_utf8(front)) ==> message@
                == "<invalid UTF-8>"@
        }),
{
    let body = datagram@.skip(8);
    let front = datagram@.subrange(8, datagram@.len() - 1);
    lemma_pow256_values();
    if body.len() > 0 {
        assert(front =~= body.drop_last());
        if front.contains(0u8) {
            let i = choose|i: int| 0 <= i < front.len() && front[i] == 0u8;
            assert(body[i] == 0u8);
        } else {
            assert forall|i: int| 0 <= i < body.len() - 1 implies #[trigger] body[i] != 0 by {
                assert(front[i] == body[i]);
                assert(front.contains(front[i]));
            }
        }
        if valid_utf8(front) {
            vstd::utf8::decode_utf8_encode_utf8(front);
        }
    }
    if valid_utf8(body) {
        vstd::utf8::decode_utf8_encode_utf8(body);
    }
}

/// The numbers of the protocol.
pub proof fn law_protocol_numbers()
    ensures
        ACTION_CONNECT == 0,
        ACTION_ANNOUNCE == 1,
        ACTION_ERROR == 3,
        EVENT_NONE == 0,
        EVENT_COMPLETED == 1,
        EVENT_STARTED == 2,
        EVENT_STOPPED == 3,
        CONNECTION_ID_MAGIC == 0x417_2710_1980,
{
}

/// The datagram is an announce request with these contents.
pub open spec fn is_announce_datagram(
    datagram: Seq<u8>,
    id: ConnectionId,
    transaction_id: TransactionId,
    fields: AnnounceFields,
) -> bool {
    &&& datagram.len() == 98
    &&& be_value(datagram.subrange(0, 8)) == id
    &&& be_value(datagram.subrange(8, 12)) == 1
    &&& be_value(datagram.subrange(12, 16)) == transaction_id
    &&& datagram.subrange(16, 36) == fields.info_hash.0@
    &&& datagram.subrange(36, 56) == fields.peer_id.0@
    &&& be_value(datagram.subrange(56, 64)) == fields.downloaded
    &&& be_value(datagram.subrange(64, 72)) == fields.left
    &&& be_value(datagram.subrange(72, 80)) == fields.uploaded
    &&& be_value(datagram.subrange(80, 84)) == fields.event
    &&& be_value(datagram.subrange(84, 88)) == 0
    &&& be_value(datagram.subrange(88, 92)) == fields.key
    &&& be_value(datagram.subrange(92, 96)) == 0xffff_ffff
    &&& be_value(datagram.subrange(96, 98)) == fields.port
}

/// The datagram is a connect request.
pub open spec fn is_connect_datagram(datagram: Seq<u8>, transaction_id: TransactionId) -> bool {
    &&& datagram.len() == 16
    &&& be_value(datagram.subrange(0, 8)) == 0x417_2710_1980
    &&& be_value(datagram.subrange(8, 12)) == 0
    &&& be_value(datagram.subrange(12, 16)) == transaction_id
}

/// The datagram is this request.
pub open spec fn is_request_datagram(
    datagram: Seq<u8>,
    request: Request,
    transaction_id: TransactionId,
) -> bool {
    match request {
        Request::Connect => is_connect_datagram(datagram, transaction_id),
        Request::Announce(id, fields) => is_announce_datagram(
            datagram,
            id,
            transaction_id,
            fields,
        ),
    }
}

/// A request on the wire holds each of its parts at its place.
pub proof fn lemma_wire_by_position(request: Request, transaction_id: TransactionId)
    ensures
        is_request_datagram(request.wire(transaction_id), request, transaction_id),
{
    match request {
        Request::Connect => law_connect_request_layout(transaction_id),
        Request::Announce(id, fields) => {
            law_announce_request_layout(id, fields, transaction_id);
            lemma_pow256_values();
            assert(request.wire(transaction_id).subrange(92, 96).len() == 4);
        },
    }
}

/// Where the fields of a request begin, and where the last of them ends.
pub open spec fn field_bounds(request: Request) -> Seq<int> {
    match request {
        Request::Connect => seq![0, 8, 12, 16],
        Request::Announce(..) => seq![0, 8, 12, 16, 36, 56, 64, 72, 80, 84, 88, 92, 96, 98],
    }
}

/// The fields that fit are some of the first, and the next one does not fit.
proof fn lemma_fitting_prefix(fields: Seq<Seq<u8>>, room: int) -> (k: int)
    requires
        0 <= room < fields.flatten().len(),
    ensures
        0 <= k < fields.len(),
        fitting(fields, room) == fields.take(k).flatten(),
        fields.take(k).flatten().len() <= room < fields.take(k).flatten().len() + fields[k].len(),
    decreases fields.len(),
{
    if fields[0].len() > room {
        assert(fields.take(0) =~= Seq::empty());
        0
    } else {
        let rest = fields.drop_first();
        let j = lemma_fitting_prefix(rest, room - fields[0].len());
        assert(fields.take(j + 1).drop_first() =~= rest.take(j));
        assert(fields.take(j + 1)[0] == fields[0]);
        assert(fields[j + 1] == rest[j]);
        j + 1
    }
}

/// The first fields back to back are the front of all fields back to back.
proof fn lemma_fields_front(fields: Seq<Seq<u8>>, k: int)
    requires
        0 <= k <= fields.len(),
    ensures
        fields.take(k).flatten().len() <= fields.flatten().len(),
        fields.take(k).flatten() == fields.flatten().take(fields.take(k).flatten().len() as int),
    decreases fields.len(),
{
    if k == 0 {
        assert(fields.take(0) =~= Seq::empty());
    } else {
        let rest = fields.drop_first();
        lemma_fields_front(rest, k - 1);
        assert(fields.take(k).drop_first() =~= rest.take(k - 1));
        assert(fields.take(k)[0] == fields[0]);
    }
    assert(fields.take(k).flatten() =~= fields.flatten().take(
        fields.take(k).flatten().len() as int,
    ));
}

proof fn lemma_field_bounds(request: Request, transaction_id: TransactionId, k: int)
    requires
        0 <= k < request.fields(transaction_id).len(),
    ensures
        field_bounds(request).len() == request.fields(transaction_id).len() + 1,
        request.fields(transaction_id).take(k).flatten().len() == field_bounds(request)[k],
        request.fields(transaction_id).take(k).flatten().len() + request.fields(
            transaction_id,
        )[k].len() == field_bounds(request)[k + 1],
    decreases k,
{
    let f = request.fields(transaction_id);
    if k == 0 {
        assert(f.take(0) =~= Seq::empty());
    } else {
        lemma_field_bounds(request, transaction_id, k - 1);
        lemma_field_position(f, k - 1);
    }
    match request {
        Request::Connect => {
            lemma_be_bytes_len(CONNECTION_ID_MAGIC as nat, 8);
            lemma_be_bytes_len(ACTION_CONNECT as nat, 4);
            lemma_be_bytes_len(transaction_id as nat, 4);
        },
        Request::Announce(id, fields) => {
            lemma_be_bytes_len(id as nat, 8);
            lemma_be_bytes_len(ACTION_ANNOUNCE as nat, 4);
            lemma_be_bytes_len(transaction_id as nat, 4);
            lemma_be_bytes_len(fields.downloaded as nat, 8);
            lemma_be_bytes_len(fields.left as nat, 8);
            lemma_be_bytes_len(fields.uploaded as nat, 8);
            lemma_be_bytes_len(fields.event as nat, 4);
            lemma_be_bytes_len(0, 4);
            lemma_be_bytes_len(fields.key as nat, 4);
            lemma_be_bytes_len(NUM_WANT_DEFAULT as nat, 4);
            lemma_be_bytes_len(fields.port as nat, 2);
        },
    }
}

/// A request is written to the front of a buffer that has room for it, and nothing behind it is
/// touched. Where there is no room, that is said, and the fields before the first that does not
/// fit are written.
pub proof fn law_request_is_written_where_it_fits(
    request: Request,
    transaction_id: TransactionId,
    buf: &mut [u8],
    r: Result<usize, SerializeError>,
    datagram: Vec<u8>,
)
    requires
        call_ensures(Request::serialize, (&request, transaction_id, buf), r),
        call_ensures(Request::to_datagram, (&request, transaction_id), datagram),
    ensures
        ({
            let len = datagram@.len() as int;
            let room = old(buf)@.len() as int;
            &&& is_request_datagram(datagram@, request, transaction_id)
            &&& final(buf)@.len() == room
            &&& room >= len ==> {
                &&& r == Ok::<_, SerializeError>(len as usize)
                &&& final(buf)@.take(len) == datagram@
                &&& final(buf)@.skip(len) == old(buf)@.skip(len)
            }
            &&& room < len ==> r == Err::<usize, _>(SerializeError::NotEnoughSpace) && exists|
                k: int,
            |
                0 <= k < field_bounds(request).len() - 1 && #[trigger] field_bounds(request)[k]
                    <= room < field_bounds(request)[k + 1] && final(buf)@ == datagram@.take(
                    field_bounds(request)[k],
                ) + old(buf)@.skip(field_bounds(request)[k])
        }),
{
    let fields = request.fields(transaction_id);
    let wire = request.wire(transaction_id);
    let room = old(buf)@.len() as int;
    let len = wire.len() as int;
    lemma_wire_by_position(request, transaction_id);
    if room >= len {
        assert(final(buf)@.take(len) =~= wire);
        assert(final(buf)@.skip(len) =~= old(buf)@.skip(len));
    } else {
        let k = lemma_fitting_prefix(fields, room);
        lemma_fields_front(fields, k);
        lemma_field_bounds(request, transaction_id, k);
        assert(field_bounds(request)[k] <= room < field_bounds(request)[k + 1]);
        assert(final(buf)@.len() == room);
    }
}

} // verus!
