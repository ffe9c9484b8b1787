//! Announces over HTTP: the query string of a request and the peers in a response.

use vstd::prelude::*;

use crate::addr::{IpAddr, SocketAddr, SocketAddrV4, SocketAddrV6};
use crate::compact_ip::{
    block, compact_forms, law_compact_list_write_then_read, CompactListInBuffer, CompactSerialize,
};
use crate::hash_id::Id20;
use crate::text::{
    decimal, digit, ip_text, is_address_char, is_free_of, law_address_chars,
    law_address_text_is_one_to_one, law_numeral_is_digits, law_numeral_is_one_to_one,
    law_numeral_read_back, lemma_cut_at_first, numeral, numeral_value,
};
use crate::wire::{be_value, lemma_be_value_bound, lemma_pow256_values};

verus! {

#[derive(Clone, Copy, Debug, PartialEq, Eq, Structural)]
pub enum TrackerRequestEvent {
    Started,
    Stopped,
    Completed,
}

pub struct TrackerRequest<'a> {
    pub info_hash: &'a Id20,
    pub peer_id: &'a Id20,
    pub event: Option<TrackerRequestEvent>,
    pub port: u16,
    pub uploaded: u64,
    pub downloaded: u64,
    pub left: u64,
    pub compact: bool,
    pub no_peer_id: bool,
    pub ip: Option<IpAddr>,
    pub numwant: Option<usize>,
    pub key: Option<u32>,
    pub trackerid: Option<&'a str>,
}

/// The byte stands for itself in a URL.
pub open spec fn is_unreserved(b: u8) -> bool {
    ||| 0x30 <= b <= 0x39  // 0-9
    ||| 0x41 <= b <= 0x5a  // A-Z
    ||| 0x61 <= b <= 0x7a  // a-z
    ||| b == 0x2d  // -
    ||| b == 0x2e  // .
    ||| b == 0x5f  // _
    ||| b == 0x7e  // ~

}

/// The hexadecimal digit for `d`, in upper case.
pub open spec fn upper_digit(d: u8) -> char {
    if d < 10 {
        (0x30 + d) as char
    } else {
        (0x37 + d) as char
    }
}

/// The byte as it stands in a URL.
pub open spec fn percent_encoded_byte(b: u8) -> Seq<char> {
    if is_unreserved(b) {
        seq![b as char]
    } else {
        seq!['%', upper_digit(b / 16), upper_digit(b % 16)]
    }
}

/// The bytes as they stand in a URL.
pub open spec fn percent_encoded(bytes: Seq<u8>) -> Seq<char> {
    bytes.map_values(|b: u8| percent_encoded_byte(b)).flatten()
}

/// `urlencoding::encode_binary`, applied to the bytes of an id: letters, digits, `-`, `.`, `_`
/// and `~` stand for themselves, and of every other byte the two hexadecimal digits stand
/// behind a percent sign.
#[verifier::external_body]
fn encode_binary(id: &Id20) -> (text: String)
    ensures
        text@ == percent_encoded(id.0@),
{
    urlencoding::encode_binary(&id.0).into_owned()
}

/// The parameters as a query string: names and values, with `&` between the parameters.
pub open spec fn query_text(params: Seq<(Seq<char>, Seq<char>)>) -> Seq<char>
    decreases params.len(),
{
    if params.len() == 0 {
        Seq::empty()
    } else {
        let (name, value) = params.last();
        let before = params.drop_last();
        (if before.len() == 0 {
            Seq::empty()
        } else {
            query_text(before) + "&"@
        }) + name + "="@ + value
    }
}

/// A parameter that is left out where there is no value.
pub open spec fn optional(name: Seq<char>, value: Option<Seq<char>>) -> Seq<
    (Seq<char>, Seq<char>),
> {
    match value {
        Some(value) => seq![(name, value)],
        None => Seq::empty(),
    }
}

impl TrackerRequestEvent {
    pub open spec fn name(self) -> Seq<char> {
        match self {
            TrackerRequestEvent::Started => "started"@,
            TrackerRequestEvent::Stopped => "stopped"@,
            TrackerRequestEvent::Completed => "completed"@,
        }
    }
}

/// A yes or no as a number.
pub open spec fn flag_text(flag: bool) -> Seq<char> {
    if flag {
        "1"@
    } else {
        "0"@
    }
}

impl<'a> TrackerRequest<'a> {
    /// The parameters that every request has.
    pub open spec fn required_params(self) -> Seq<(Seq<char>, Seq<char>)> {
        seq![
            ("port"@, numeral(self.port as nat, 10)),
            ("uploaded"@, numeral(self.uploaded as nat, 10)),
            ("downloaded"@, numeral(self.downloaded as nat, 10)),
            ("left"@, numeral(self.left as nat, 10)),
            ("compact"@, flag_text(self.compact)),
            ("no_peer_id"@, flag_text(self.no_peer_id)),
        ]
    }

    /// The parameters, in order.
    pub open spec fn params(self) -> Seq<(Seq<char>, Seq<char>)> {
        seq![
            ("info_hash"@, percent_encoded(self.info_hash.0@)),
            ("peer_id"@, percent_encoded(self.peer_id.0@)),
        ] + optional("event"@, self.event_value()) + self.required_params() + optional(
            "ip"@,
            self.ip_value(),
        ) + optional("numwant"@, self.numwant_value()) + optional("key"@, self.key_value())
            + optional("trackerid"@, self.trackerid_value())
    }

    pub open spec fn event_value(self) -> Option<Seq<char>> {
        match self.event {
            Some(event) => Some(event.name()),
            None => None,
        }
    }

    pub open spec fn ip_value(self) -> Option<Seq<char>> {
        match self.ip {
            Some(ip) => Some(ip_text(ip)),
            None => None,
        }
    }

    pub open spec fn numwant_value(self) -> Option<Seq<char>> {
        match self.numwant {
            Some(numwant) => Some(numeral(numwant as nat, 10)),
            None => None,
        }
    }

    pub open spec fn key_value(self) -> Option<Seq<char>> {
        match self.key {
            Some(key) => Some(numeral(key as nat, 10)),
            None => None,
        }
    }

    pub open spec fn trackerid_value(self) -> Option<Seq<char>> {
        match self.trackerid {
            Some(trackerid) => Some(trackerid@),
            None => None,
        }
    }
}

/// What the parameters say.
spec fn param_views(params: Seq<(&'static str, String)>) -> Seq<(Seq<char>, Seq<char>)> {
    params.map_values(|param: (&'static str, String)| (param.0@, param.1@))
}

/// What the value says, where there is one.
spec fn value_view(value: Option<String>) -> Option<Seq<char>> {
    match value {
        Some(value) => Some(value@),
        None => None,
    }
}

/// Adds a parameter.
fn push_param(params: &mut Vec<(&'static str, String)>, name: &'static str, value: String)
    ensures
        param_views(final(params)@) == param_views(old(params)@).push((name@, value@)),
{
    params.push((name, value));
    proof {
        assert(param_views(params@) =~= param_views(old(params)@).push((name@, value@)));
    }
}

/// Adds a parameter where it has a value.
fn push_optional(
    params: &mut Vec<(&'static str, String)>,
    name: &'static str,
    value: Option<String>,
)
    ensures
        param_views(final(params)@) == param_views(old(params)@) + optional(
            name@,
            value_view(value),
        ),
{
    match value {
        Some(value) => push_param(params, name, value),
        None => {},
    }
    proof {
        assert(param_views(params@) =~= param_views(old(params)@) + optional(
            name@,
            value_view(value),
        ));
    }
}

/// Joins the parameters to a query string.
fn join_params(params: &Vec<(&'static str, String)>) -> (text: String)
    ensures
        text@ == query_text(param_views(params@)),
{
    let mut s: String = String::new();
    let mut i: usize = 0;
    let ghost all = param_views(params@);
    proof {
        assert(all.take(0) =~= Seq::empty());
    }
    while i < params.len()
        invariant
            i <= params@.len(),
            all == param_views(params@),
            s@ == query_text(all.take(i as int)),
        decreases params@.len() - i,
    {
        let ghost before = s@;
        if i > 0 {
            s.append("&");
        }
        s.append(params[i].0);
        s.append("=");
        s.append(params[i].1.as_str());
        proof {
            let more = all.take(i + 1);
            assert(more.drop_last() =~= all.take(i as int));
            assert(more.last() == (params@[i as int].0@, params@[i as int].1@));
            assert(s@ =~= query_text(more));
        }
        i = i + 1;
    }
    proof {
        assert(all.take(i as int) =~= all);
    }
    s
}

/// A yes or no as a number.
fn flag(yes: bool) -> (text: String)
    ensures
        text@ == flag_text(yes),
{
    if yes {
        "1".to_owned()
    } else {
        "0".to_owned()
    }
}

impl TrackerRequestEvent {
    fn to_text(self) -> (text: String)
        ensures
            text@ == self.name(),
    {
        match self {
            TrackerRequestEvent::Started => "started".to_owned(),
            TrackerRequestEvent::Stopped => "stopped".to_owned(),
            TrackerRequestEvent::Completed => "completed".to_owned(),
        }
    }
}

impl<'a> TrackerRequest<'a> {
    /// The parameters, in order.
    fn param_list(&self) -> (params: Vec<(&'static str, String)>)
        ensures
            param_views(params@) == self.params(),
    {
        let event = match self.event {
            Some(event) => Some(event.to_text()),
            None => None,
        };
        let ip = match self.ip {
            Some(ip) => Some(ip.to_text()),
            None => None,
        };
        let numwant = match self.numwant {
            Some(numwant) => Some(decimal(numwant as u64)),
            None => None,
        };
        let key = match self.key {
            Some(key) => Some(decimal(key as u64)),
            None => None,
        };
        let trackerid = match self.trackerid {
            Some(trackerid) => Some(trackerid.to_owned()),
            None => None,
        };
        let mut params: Vec<(&'static str, String)> = Vec::new();
        push_param(&mut params, "info_hash", encode_binary(self.info_hash));
        push_param(&mut params, "peer_id", encode_binary(self.peer_id));
        push_optional(&mut params, "event", event);
        let ghost leading = param_views(params@);
        push_param(&mut params, "port", decimal(self.port as u64));
        push_param(&mut params, "uploaded", decimal(self.uploaded));
        push_param(&mut params, "downloaded", decimal(self.downloaded));
        push_param(&mut params, "left", decimal(self.left));
        push_param(&mut params, "compact", flag(self.compact));
        push_param(&mut params, "no_peer_id", flag(self.no_peer_id));
        proof {
            assert(leading =~= seq![
                ("info_hash"@, percent_encoded(self.info_hash.0@)),
                ("peer_id"@, percent_encoded(self.peer_id.0@)),
            ] + optional("event"@, self.event_value()));
            assert(param_views(params@) =~= leading + self.required_params());
        }
        push_optional(&mut params, "ip", ip);
        push_optional(&mut params, "numwant", numwant);
        push_optional(&mut params, "key", key);
        push_optional(&mut params, "trackerid", trackerid);
        params
    }

    /// The request as a query string. The tracker id goes out as the tracker gave it.
    pub fn as_querystring(&self) -> (text: String)
        ensures
            text@ == query_text(self.params()),
    {
        join_params(&self.param_list())
    }
}

/// The number that an upper-case hexadecimal digit stands for.
pub open spec fn upper_digit_value(c: char) -> u8 {
    if c as nat >= 0x41 {
        (c as nat - 0x37) as u8
    } else {
        (c as nat - 0x30) as u8
    }
}

/// The bytes that stand for text in a URL.
pub open spec fn percent_decoded(text: Seq<char>) -> Seq<u8>
    decreases text.len(),
{
    if text.len() == 0 {
        Seq::empty()
    } else if text[0] == '%' && text.len() >= 3 {
        seq![(upper_digit_value(text[1]) * 16 + upper_digit_value(text[2])) as u8]
            + percent_decoded(text.skip(3))
    } else {
        seq![text[0] as u8] + percent_decoded(text.skip(1))
    }
}

/// Bytes that are percent-encoded come back when they are decoded.
pub proof fn law_percent_decoding_undoes_encoding(bytes: Seq<u8>)
    ensures
        percent_decoded(percent_encoded(bytes)) == bytes,
    decreases bytes.len(),
{
    let text = percent_encoded(bytes);
    let parts = bytes.map_values(|b: u8| percent_encoded_byte(b));
    if bytes.len() > 0 {
        let rest = bytes.drop_first();
        law_percent_decoding_undoes_encoding(rest);
        assert(parts.drop_first() =~= rest.map_values(|b: u8| percent_encoded_byte(b)));
        assert(text == percent_encoded_byte(bytes[0]) + percent_encoded(rest));
        assert(text.skip(percent_encoded_byte(bytes[0]).len() as int) =~= percent_encoded(rest));
        assert(bytes =~= seq![bytes[0]] + rest);
        if !is_unreserved(bytes[0]) {
            assert(upper_digit_value(upper_digit(bytes[0] / 16)) == bytes[0] / 16);
            assert(upper_digit_value(upper_digit(bytes[0] % 16)) == bytes[0] % 16);
        }
    } else {
        assert(text =~= Seq::empty());
    }
}

/// What a percent-encoded value is made of neither ends the value nor the query string.
pub proof fn law_percent_encoded_value_stays_whole(bytes: Seq<u8>)
    ensures
        forall|i: int|
            0 <= i < percent_encoded(bytes).len() ==> (#[trigger] percent_encoded(bytes)[i]) != '&'
                && percent_encoded(bytes)[i] != '=' && percent_encoded(bytes)[i] != '#',
    decreases bytes.len(),
{
    let text = percent_encoded(bytes);
    let parts = bytes.map_values(|b: u8| percent_encoded_byte(b));
    if bytes.len() > 0 {
        let rest = bytes.drop_first();
        let first = percent_encoded_byte(bytes[0]);
        law_percent_encoded_value_stays_whole(rest);
        assert(parts.drop_first() =~= rest.map_values(|b: u8| percent_encoded_byte(b)));
        assert(text == first + percent_encoded(rest));
        assert forall|i: int| 0 <= i < text.len() implies (#[trigger] text[i]) != '&' && text[i]
            != '=' && text[i] != '#' by {
            if i >= first.len() {
                assert(text[i] == percent_encoded(rest)[i - first.len()]);
            }
        }
    } else {
        assert(text =~= Seq::empty());
    }
}

/// A request has a parameter of this name.
pub open spec fn has_param(params: Seq<(Seq<char>, Seq<char>)>, name: Seq<char>) -> bool {
    exists|i: int| 0 <= i < params.len() && (#[trigger] params[i]).0 == name
}

/// A parameter of two lists is one of the first or one of the second.
proof fn lemma_has_param(
    a: Seq<(Seq<char>, Seq<char>)>,
    b: Seq<(Seq<char>, Seq<char>)>,
    name: Seq<char>,
)
    ensures
        has_param(a + b, name) == (has_param(a, name) || has_param(b, name)),
{
    if has_param(a, name) {
        let i = choose|i: int| 0 <= i < a.len() && (#[trigger] a[i]).0 == name;
        assert((a + b)[i].0 == name);
    }
    if has_param(b, name) {
        let i = choose|i: int| 0 <= i < b.len() && (#[trigger] b[i]).0 == name;
        assert((a + b)[a.len() + i].0 == name);
    }
    if has_param(a + b, name) {
        let i = choose|i: int| 0 <= i < (a + b).len() && (#[trigger] (a + b)[i]).0 == name;
        if i < a.len() {
            assert(a[i].0 == name);
        } else {
            assert(b[i - a.len()].0 == name);
        }
    }
}

/// A parameter that is left out has no name.
proof fn lemma_has_optional(name: Seq<char>, value: Option<Seq<char>>, asked: Seq<char>)
    ensures
        has_param(optional(name, value), asked) == (value is Some && name == asked),
{
    if value is Some {
        assert(optional(name, value)[0].0 == name);
    }
}

/// Which parameters of a request have this name.
proof fn lemma_request_has_param(request: TrackerRequest<'_>, name: Seq<char>)
    ensures
        has_param(request.params(), name) == {
            ||| name == "info_hash"@
            ||| name == "peer_id"@
            ||| request.event is Some && name == "event"@
            ||| has_param(request.required_params(), name)
            ||| request.ip is Some && name == "ip"@
            ||| request.numwant is Some && name == "numwant"@
            ||| request.key is Some && name == "key"@
            ||| request.trackerid is Some && name == "trackerid"@
        },
{
    let ids = seq![
        ("info_hash"@, percent_encoded(request.info_hash.0@)),
        ("peer_id"@, percent_encoded(request.peer_id.0@)),
    ];
    assert(has_param(ids, name) == (name == "info_hash"@ || name == "peer_id"@)) by {
        assert(ids[0].0 == "info_hash"@);
        assert(ids[1].0 == "peer_id"@);
    }
    let event = optional("event"@, request.event_value());
    let ip = optional("ip"@, request.ip_value());
    let numwant = optional("numwant"@, request.numwant_value());
    let key = optional("key"@, request.key_value());
    let trackerid = optional("trackerid"@, request.trackerid_value());
    lemma_has_optional("event"@, request.event_value(), name);
    lemma_has_optional("ip"@, request.ip_value(), name);
    lemma_has_optional("numwant"@, request.numwant_value(), name);
    lemma_has_optional("key"@, request.key_value(), name);
    lemma_has_optional("trackerid"@, request.trackerid_value(), name);
    let up_to_event = ids + event;
    let up_to_flags = up_to_event + request.required_params();
    let up_to_ip = up_to_flags + ip;
    let up_to_numwant = up_to_ip + numwant;
    let up_to_key = up_to_numwant + key;
    lemma_has_param(ids, event, name);
    lemma_has_param(up_to_event, request.required_params(), name);
    lemma_has_param(up_to_flags, ip, name);
    lemma_has_param(up_to_ip, numwant, name);
    lemma_has_param(up_to_numwant, key, name);
    lemma_has_param(up_to_key, trackerid, name);
}

/// The ids, the port, the byte counts and the flags are in every request; each of the others
/// is there exactly when the request says something of it.
pub proof fn law_optional_parameters(request: TrackerRequest<'_>)
    ensures
        has_param(request.params(), "info_hash"@),
        has_param(request.params(), "peer_id"@),
        has_param(request.params(), "port"@),
        has_param(request.params(), "uploaded"@),
        has_param(request.params(), "downloaded"@),
        has_param(request.params(), "left"@),
        has_param(request.params(), "compact"@),
        has_param(request.params(), "no_peer_id"@),
        has_param(request.params(), "event"@) <==> request.event is Some,
        has_param(request.params(), "ip"@) <==> request.ip is Some,
        has_param(request.params(), "numwant"@) <==> request.numwant is Some,
        has_param(request.params(), "key"@) <==> request.key is Some,
        has_param(request.params(), "trackerid"@) <==> request.trackerid is Some,
{
    reveal_strlit("info_hash");
    reveal_strlit("peer_id");
    reveal_strlit("port");
    reveal_strlit("uploaded");
    reveal_strlit("downloaded");
    reveal_strlit("left");
    reveal_strlit("compact");
    reveal_strlit("no_peer_id");
    reveal_strlit("event");
    reveal_strlit("ip");
    reveal_strlit("numwant");
    reveal_strlit("key");
    reveal_strlit("trackerid");
    let required = request.required_params();
    assert(required[0].0 == "port"@);
    assert(required[1].0 == "uploaded"@);
    assert(required[2].0 == "downloaded"@);
    assert(required[3].0 == "left"@);
    assert(required[4].0 == "compact"@);
    assert(required[5].0 == "no_peer_id"@);
    lemma_request_has_param(request, "info_hash"@);
    lemma_request_has_param(request, "peer_id"@);
    lemma_request_has_param(request, "port"@);
    lemma_request_has_param(request, "uploaded"@);
    lemma_request_has_param(request, "downloaded"@);
    lemma_request_has_param(request, "left"@);
    lemma_request_has_param(request, "compact"@);
    lemma_request_has_param(request, "no_peer_id"@);
    lemma_request_has_param(request, "event"@);
    lemma_request_has_param(request, "ip"@);
    lemma_request_has_param(request, "numwant"@);
    lemma_request_has_param(request, "key"@);
    lemma_request_has_param(request, "trackerid"@);
    assert forall|i: int| 0 <= i < required.len() implies {
        let name = (#[trigger] required[i]).0;
        name != "event"@ && name != "ip"@ && name != "numwant"@ && name != "key"@ && name
            != "trackerid"@
    } by {
        let name = required[i].0;
        assert(name[0] == 'p' || name[0] == 'u' || name[0] == 'd' || name[0] == 'l' || name[0]
            == 'c' || name[1] == 'o');
        assert("event"@[0] == 'e' && "ip"@[0] == 'i' && "numwant"@[1] == 'u' && "key"@[0] == 'k'
            && "trackerid"@[0] == 't');
    }
    assert("event"@[0] != "info_hash"@[0] && "event"@[0] != "peer_id"@[0]);
    assert("ip"@.len() == 2 && "numwant"@[0] == 'n' && "key"@[0] == 'k' && "trackerid"@[0] == 't'
        && "event"@[0] == 'e' && "info_hash"@.len() == 9 && "peer_id"@[0] == 'p');
}

/// The text holds no `&`.
pub open spec fn is_one_piece(text: Seq<char>) -> bool {
    forall|i: int| 0 <= i < text.len() ==> #[trigger] text[i] != '&'
}

/// The text, taken apart at each `&`.
pub open spec fn pieces(text: Seq<char>) -> Seq<Seq<char>>
    decreases text.len(),
{
    if text.len() == 0 {
        seq![Seq::empty()]
    } else {
        let before = pieces(text.drop_last());
        if text.last() == '&' {
            before.push(Seq::empty())
        } else {
            before.drop_last().push(before.last().push(text.last()))
        }
    }
}

/// Neither the name nor the value of the parameter holds an `&`.
pub open spec fn is_whole(param: (Seq<char>, Seq<char>)) -> bool {
    is_one_piece(param.0) && is_one_piece(param.1)
}

/// No name and no value holds an `&`.
pub open spec fn all_whole(params: Seq<(Seq<char>, Seq<char>)>) -> bool {
    forall|i: int| 0 <= i < params.len() ==> is_whole(#[trigger] params[i])
}

/// A parameter as it stands in a query string.
pub open spec fn param_text(param: (Seq<char>, Seq<char>)) -> Seq<char> {
    param.0 + "="@ + param.1
}

/// Text without `&` adds to the last piece.
proof fn lemma_pieces_grow(front: Seq<char>, piece: Seq<char>)
    requires
        is_one_piece(piece),
    ensures
        pieces(front).len() > 0,
        pieces(front + piece) == pieces(front).drop_last().push(pieces(front).last() + piece),
    decreases piece.len(), front.len(),
{
    if piece.len() > 0 {
        let shorter = piece.drop_last();
        assert forall|i: int| 0 <= i < shorter.len() implies #[trigger] shorter[i] != '&' by {
            assert(piece[i] != '&');
        }
        lemma_pieces_grow(front, shorter);
        let whole = front + piece;
        assert(whole.drop_last() =~= front + shorter);
        assert(whole.last() == piece.last());
        assert(piece.last() != '&');
        let before = pieces(front).drop_last().push(pieces(front).last() + shorter);
        assert(before.drop_last() =~= pieces(front).drop_last());
        assert((pieces(front).last() + shorter).push(piece.last()) =~= pieces(front).last()
            + piece);
    } else {
        if front.len() > 0 {
            lemma_pieces_grow(front.drop_last(), Seq::empty());
        }
        assert(front + piece =~= front);
        assert(pieces(front).last() + piece =~= pieces(front).last());
        assert(pieces(front).drop_last().push(pieces(front).last()) =~= pieces(front));
    }
}

/// Taken apart at each `&`, a query string falls into its parameters, in order, where no name
/// and no value holds an `&`.
pub proof fn law_query_text_falls_into_its_parameters(params: Seq<(Seq<char>, Seq<char>)>)
    requires
        params.len() > 0,
        all_whole(params),
    ensures
        pieces(query_text(params)) == params.map_values(
            |param: (Seq<char>, Seq<char>)| param_text(param),
        ),
    decreases params.len(),
{
    reveal_strlit("&");
    reveal_strlit("=");
    let before = params.drop_last();
    let last = params.last();
    let texts = params.map_values(|param: (Seq<char>, Seq<char>)| param_text(param));
    let piece = param_text(last);
    assert(is_whole(params[params.len() - 1]));
    assert forall|i: int| 0 <= i < piece.len() implies #[trigger] piece[i] != '&' by {
        if i < last.0.len() {
            assert(piece[i] == last.0[i]);
        } else if i > last.0.len() {
            assert(piece[i] == last.1[i - last.0.len() - 1]);
        }
    }
    if before.len() == 0 {
        assert(query_text(params) =~= Seq::empty() + piece);
        lemma_pieces_grow(Seq::empty(), piece);
        assert(Seq::<char>::empty() + piece =~= piece);
        assert(pieces(query_text(params)) =~= texts);
    } else {
        assert(all_whole(before)) by {
            assert forall|i: int| 0 <= i < before.len() implies is_whole(#[trigger] before[i]) by {
                assert(params[i] == before[i]);
            }
        }
        law_query_text_falls_into_its_parameters(before);
        let front = query_text(before) + "&"@;
        assert(query_text(params) =~= front + piece);
        assert(front.drop_last() =~= query_text(before));
        lemma_pieces_grow(front, piece);
        assert(pieces(front).last() + piece =~= piece);
        assert(pieces(query_text(params)) =~= texts);
    }
}

/// A number in decimal holds no `&`.
proof fn lemma_decimal_is_one_piece(n: nat)
    ensures
        is_one_piece(numeral(n, 10)),
{
    law_numeral_is_digits(n, 10);
    assert forall|i: int| 0 <= i < numeral(n, 10).len() implies #[trigger] numeral(n, 10)[i]
        != '&' by {
        let d = choose|d: nat| d < 10 && numeral(n, 10)[i] == #[trigger] digit(d);
        assert(digit(d) != '&');
    }
}

/// An address as text holds no `&`.
proof fn lemma_address_is_one_piece(ip: IpAddr)
    ensures
        is_one_piece(ip_text(ip)),
{
    law_address_chars(ip);
    assert forall|i: int| 0 <= i < ip_text(ip).len() implies #[trigger] ip_text(ip)[i] != '&' by {
        assert(is_address_char(ip_text(ip)[i]));
    }
}

proof fn lemma_all_whole(a: Seq<(Seq<char>, Seq<char>)>, b: Seq<(Seq<char>, Seq<char>)>)
    requires
        all_whole(a),
        all_whole(b),
    ensures
        all_whole(a + b),
{
}

proof fn lemma_ids_whole(request: TrackerRequest<'_>)
    ensures
        all_whole(
            seq![
                ("info_hash"@, percent_encoded(request.info_hash.0@)),
                ("peer_id"@, percent_encoded(request.peer_id.0@)),
            ],
        ),
{
    reveal_strlit("info_hash");
    reveal_strlit("peer_id");
    law_percent_encoded_value_stays_whole(request.info_hash.0@);
    law_percent_encoded_value_stays_whole(request.peer_id.0@);
}

proof fn lemma_event_whole(request: TrackerRequest<'_>)
    ensures
        all_whole(optional("event"@, request.event_value())),
{
    reveal_strlit("event");
    reveal_strlit("started");
    reveal_strlit("stopped");
    reveal_strlit("completed");
}

proof fn lemma_required_whole(request: TrackerRequest<'_>)
    ensures
        all_whole(request.required_params()),
{
    reveal_strlit("port");
    reveal_strlit("uploaded");
    reveal_strlit("downloaded");
    reveal_strlit("left");
    reveal_strlit("compact");
    reveal_strlit("no_peer_id");
    reveal_strlit("0");
    reveal_strlit("1");
    lemma_decimal_is_one_piece(request.port as nat);
    lemma_decimal_is_one_piece(request.uploaded as nat);
    lemma_decimal_is_one_piece(request.downloaded as nat);
    lemma_decimal_is_one_piece(request.left as nat);
    let required = request.required_params();
    assert(is_whole(required[0]));
    assert(is_whole(required[1]));
    assert(is_whole(required[2]));
    assert(is_whole(required[3]));
    assert(is_whole(required[4]));
    assert(is_whole(required[5]));
}

proof fn lemma_rest_whole(request: TrackerRequest<'_>)
    ensures
        all_whole(optional("ip"@, request.ip_value())),
        all_whole(optional("numwant"@, request.numwant_value())),
        all_whole(optional("key"@, request.key_value())),
        (request.trackerid matches Some(trackerid) ==> is_one_piece(trackerid@)) ==> all_whole(
            optional("trackerid"@, request.trackerid_value()),
        ),
{
    reveal_strlit("ip");
    reveal_strlit("numwant");
    reveal_strlit("key");
    reveal_strlit("trackerid");
    if let Some(ip) = request.ip {
        lemma_address_is_one_piece(ip);
    }
    if let Some(numwant) = request.numwant {
        lemma_decimal_is_one_piece(numwant as nat);
    }
    if let Some(key) = request.key {
        lemma_decimal_is_one_piece(key as nat);
    }
}

/// Taken apart at each `&`, the query string of a request falls into the parameters of the
/// request, in order. A tracker id that holds an `&` would fall apart: it goes out as it is.
pub proof fn law_request_falls_into_its_parameters(request: TrackerRequest<'_>)
    requires
        request.trackerid matches Some(trackerid) ==> is_one_piece(trackerid@),
    ensures
        pieces(query_text(request.params())) == request.params().map_values(
            |param: (Seq<char>, Seq<char>)| param_text(param),
        ),
{
    lemma_ids_whole(request);
    lemma_event_whole(request);
    lemma_required_whole(request);
    lemma_rest_whole(request);
    let ids = seq![
        ("info_hash"@, percent_encoded(request.info_hash.0@)),
        ("peer_id"@, percent_encoded(request.peer_id.0@)),
    ];
    let up_to_event = ids + optional("event"@, request.event_value());
    let up_to_flags = up_to_event + request.required_params();
    let up_to_ip = up_to_flags + optional("ip"@, request.ip_value());
    let up_to_numwant = up_to_ip + optional("numwant"@, request.numwant_value());
    let up_to_key = up_to_numwant + optional("key"@, request.key_value());
    lemma_all_whole(ids, optional("event"@, request.event_value()));
    lemma_all_whole(up_to_event, request.required_params());
    lemma_all_whole(up_to_flags, optional("ip"@, request.ip_value()));
    lemma_all_whole(up_to_ip, optional("numwant"@, request.numwant_value()));
    lemma_all_whole(up_to_numwant, optional("key"@, request.key_value()));
    lemma_all_whole(up_to_key, optional("trackerid"@, request.trackerid_value()));
    law_query_text_falls_into_its_parameters(request.params());
}

/// Further parameters as they stand behind those before them.
spec fn tail_text(params: Seq<(Seq<char>, Seq<char>)>) -> Seq<char>
    decreases params.len(),
{
    if params.len() == 0 {
        Seq::empty()
    } else {
        tail_text(params.drop_last()) + ("&"@ + param_text(params.last()))
    }
}

/// A query string goes on with further parameters as they stand.
proof fn lemma_query_text_goes_on(
    a: Seq<(Seq<char>, Seq<char>)>,
    b: Seq<(Seq<char>, Seq<char>)>,
)
    requires
        a.len() > 0,
    ensures
        query_text(a + b) == query_text(a) + tail_text(b),
    decreases b.len(),
{
    if b.len() == 0 {
        assert(a + b =~= a);
        assert(query_text(a) + tail_text(b) =~= query_text(a));
    } else {
        let whole = a + b;
        lemma_query_text_goes_on(a, b.drop_last());
        assert(whole.drop_last() =~= a + b.drop_last());
        assert(whole.last() == b.last());
        assert(query_text(whole) =~= query_text(a) + tail_text(b));
    }
}

/// A parameter as it stands behind others.
spec fn slot(name: Seq<char>, value: Seq<char>) -> Seq<char> {
    "&"@ + param_text((name, value))
}

/// A parameter as it stands behind others, or nothing where it has no value.
spec fn optional_slot(name: Seq<char>, value: Option<Seq<char>>) -> Seq<char> {
    match value {
        Some(value) => slot(name, value),
        None => Seq::empty(),
    }
}

proof fn lemma_optional_tail(name: Seq<char>, value: Option<Seq<char>>)
    ensures
        tail_text(optional(name, value)) == optional_slot(name, value),
{
    let params = optional(name, value);
    if value is Some {
        assert(params.drop_last() =~= Seq::empty());
        assert(tail_text(params.drop_last()) =~= Seq::empty());
        assert(tail_text(params) =~= optional_slot(name, value));
    }
}

/// The text is empty or goes on with another parameter.
spec fn goes_on(rest: Seq<char>) -> bool {
    rest.len() > 0 ==> rest[0] == '&'
}

/// The text is empty or goes on with a parameter whose name does not begin as `name` does.
spec fn goes_on_without(rest: Seq<char>, name: Seq<char>) -> bool {
    rest.len() > 0 ==> rest.len() > 1 && rest[0] == '&' && rest[1] != name[0]
}

/// A parameter, and what stands behind it, are fixed by their text.
proof fn lemma_slot(name: Seq<char>, v: Seq<char>, x: Seq<char>, w: Seq<char>, y: Seq<char>)
    requires
        is_one_piece(name),
        is_one_piece(v),
        is_one_piece(w),
        goes_on(x),
        goes_on(y),
        slot(name, v) + x == slot(name, w) + y,
    ensures
        v == w,
        x == y,
{
    reveal_strlit("&");
    reveal_strlit("=");
    let p = param_text((name, v));
    let q = param_text((name, w));
    lemma_param_is_one_piece((name, v));
    lemma_param_is_one_piece((name, w));
    assert((slot(name, v) + x).skip(1) =~= p + x);
    assert((slot(name, w) + y).skip(1) =~= q + y);
    lemma_cut_at_first(p, x, q, y, '&');
    assert(p.skip(name.len() as int + 1) =~= v);
    assert(q.skip(name.len() as int + 1) =~= w);
}

/// The text of a whole parameter holds no `&`.
proof fn lemma_param_is_one_piece(param: (Seq<char>, Seq<char>))
    requires
        is_whole(param),
    ensures
        is_free_of(param_text(param), '&'),
{
    reveal_strlit("=");
    let text = param_text(param);
    assert forall|i: int| 0 <= i < text.len() implies #[trigger] text[i] != '&' by {
        if i < param.0.len() {
            assert(text[i] == param.0[i]);
        } else if i > param.0.len() {
            assert(text[i] == param.1[i - param.0.len() - 1]);
        }
    }
}

/// Whether a parameter is there, its value, and what stands behind it, are fixed by the text.
proof fn lemma_optional_slot(
    name: Seq<char>,
    v: Option<Seq<char>>,
    x: Seq<char>,
    w: Option<Seq<char>>,
    y: Seq<char>,
)
    requires
        name.len() > 0,
        is_one_piece(name),
        v matches Some(value) ==> is_one_piece(value),
        w matches Some(value) ==> is_one_piece(value),
        goes_on_without(x, name),
        goes_on_without(y, name),
        optional_slot(name, v) + x == optional_slot(name, w) + y,
    ensures
        v == w,
        x == y,
{
    reveal_strlit("&");
    assert(Seq::<char>::empty() + x =~= x);
    assert(Seq::<char>::empty() + y =~= y);
    match (v, w) {
        (Some(value), Some(other)) => lemma_slot(name, value, x, other, y),
        (Some(value), None) => {
            assert((slot(name, value) + x)[1] == name[0]);
        },
        (None, Some(other)) => {
            assert((slot(name, other) + y)[1] == name[0]);
        },
        (None, None) => {},
    }
}

/// What stands behind a parameter goes on without a name as long as the parameter itself does.
proof fn lemma_goes_on(
    name: Seq<char>,
    value: Option<Seq<char>>,
    rest: Seq<char>,
    other: Seq<char>,
)
    requires
        name.len() > 0,
        name[0] != other[0],
        goes_on_without(rest, other),
    ensures
        goes_on_without(optional_slot(name, value) + rest, other),
{
    reveal_strlit("&");
    let text = optional_slot(name, value) + rest;
    match value {
        Some(value) => {
            assert(text[0] == '&');
            assert(text[1] == name[0]);
        },
        None => {
            assert(text =~= rest);
        },
    }
}

/// The end of a query string, from the address on.
spec fn text_from_ip(
    ip: Option<Seq<char>>,
    numwant: Option<Seq<char>>,
    key: Option<Seq<char>>,
    trackerid: Option<Seq<char>>,
) -> Seq<char> {
    optional_slot("ip"@, ip) + (optional_slot("numwant"@, numwant) + (optional_slot("key"@, key)
        + optional_slot("trackerid"@, trackerid)))
}

proof fn lemma_text_from_ip(
    ip: Option<Seq<char>>,
    numwant: Option<Seq<char>>,
    key: Option<Seq<char>>,
    trackerid: Option<Seq<char>>,
    other_ip: Option<Seq<char>>,
    other_numwant: Option<Seq<char>>,
    other_key: Option<Seq<char>>,
    other_trackerid: Option<Seq<char>>,
)
    requires
        ip matches Some(value) ==> is_one_piece(value),
        numwant matches Some(value) ==> is_one_piece(value),
        key matches Some(value) ==> is_one_piece(value),
        other_ip matches Some(value) ==> is_one_piece(value),
        other_numwant matches Some(value) ==> is_one_piece(value),
        other_key matches Some(value) ==> is_one_piece(value),
        text_from_ip(ip, numwant, key, trackerid) == text_from_ip(
            other_ip,
            other_numwant,
            other_key,
            other_trackerid,
        ),
    ensures
        ip == other_ip,
        numwant == other_numwant,
        key == other_key,
        trackerid == other_trackerid,
{
    lemma_from_ip_rests(numwant, key, trackerid);
    lemma_from_ip_rests(other_numwant, other_key, other_trackerid);
    let from_trackerid = optional_slot("trackerid"@, trackerid);
    let other_from_trackerid = optional_slot("trackerid"@, other_trackerid);
    let from_key = optional_slot("key"@, key) + from_trackerid;
    let other_from_key = optional_slot("key"@, other_key) + other_from_trackerid;
    let from_numwant = optional_slot("numwant"@, numwant) + from_key;
    let other_from_numwant = optional_slot("numwant"@, other_numwant) + other_from_key;
    lemma_names();
    lemma_optional_slot("ip"@, ip, from_numwant, other_ip, other_from_numwant);
    lemma_optional_slot("numwant"@, numwant, from_key, other_numwant, other_from_key);
    lemma_optional_slot("key"@, key, from_trackerid, other_key, other_from_trackerid);
    lemma_last_slot("trackerid"@, trackerid, other_trackerid);
}

/// What stands behind the address, the number of peers and the key goes on without them.
proof fn lemma_from_ip_rests(
    numwant: Option<Seq<char>>,
    key: Option<Seq<char>>,
    trackerid: Option<Seq<char>>,
)
    ensures
        ({
            let from_trackerid = optional_slot("trackerid"@, trackerid);
            let from_key = optional_slot("key"@, key) + from_trackerid;
            let from_numwant = optional_slot("numwant"@, numwant) + from_key;
            &&& goes_on_without(from_trackerid, "key"@)
            &&& goes_on_without(from_key, "numwant"@)
            &&& goes_on_without(from_numwant, "ip"@)
        }),
{
    lemma_names();
    let from_trackerid = optional_slot("trackerid"@, trackerid);
    let from_key = optional_slot("key"@, key) + from_trackerid;
    assert(from_trackerid + Seq::<char>::empty() =~= from_trackerid);
    lemma_goes_on("trackerid"@, trackerid, Seq::empty(), "key"@);
    lemma_goes_on("trackerid"@, trackerid, Seq::empty(), "numwant"@);
    lemma_goes_on("trackerid"@, trackerid, Seq::empty(), "ip"@);
    lemma_goes_on("key"@, key, from_trackerid, "numwant"@);
    lemma_goes_on("key"@, key, from_trackerid, "ip"@);
    lemma_goes_on("numwant"@, numwant, from_key, "ip"@);
}

/// How the names of the optional parameters begin.
proof fn lemma_names()
    ensures
        "ip"@.len() > 0 && "ip"@[0] == 'i' && is_one_piece("ip"@),
        "numwant"@.len() > 0 && "numwant"@[0] == 'n' && is_one_piece("numwant"@),
        "key"@.len() > 0 && "key"@[0] == 'k' && is_one_piece("key"@),
        "trackerid"@.len() > 0 && "trackerid"@[0] == 't' && is_one_piece("trackerid"@),
        "event"@.len() > 0 && "event"@[0] == 'e' && is_one_piece("event"@),
{
    reveal_strlit("ip");
    reveal_strlit("numwant");
    reveal_strlit("key");
    reveal_strlit("trackerid");
    reveal_strlit("event");
}

/// The last parameter is fixed by its text, whatever its value.
proof fn lemma_last_slot(name: Seq<char>, v: Option<Seq<char>>, w: Option<Seq<char>>)
    requires
        optional_slot(name, v) == optional_slot(name, w),
    ensures
        v == w,
{
    reveal_strlit("&");
    reveal_strlit("=");
    match (v, w) {
        (Some(value), Some(other)) => {
            let front = name.len() as int + 2;
            assert(slot(name, value).skip(front) =~= value);
            assert(slot(name, other).skip(front) =~= other);
        },
        (Some(value), None) => {
            assert(slot(name, value).len() > 0);
        },
        (None, Some(other)) => {
            assert(slot(name, other).len() > 0);
        },
        (None, None) => {},
    }
}

/// Parameters with the same names, and what stands behind them, are fixed by their text.
proof fn lemma_tail_text(
    a: Seq<(Seq<char>, Seq<char>)>,
    x: Seq<char>,
    b: Seq<(Seq<char>, Seq<char>)>,
    y: Seq<char>,
)
    requires
        a.len() == b.len(),
        all_whole(a),
        all_whole(b),
        forall|i: int| 0 <= i < a.len() ==> (#[trigger] a[i]).0 == (#[trigger] b[i]).0,
        goes_on(x),
        goes_on(y),
        tail_text(a) + x == tail_text(b) + y,
    ensures
        a == b,
        x == y,
    decreases a.len(),
{
    reveal_strlit("&");
    if a.len() == 0 {
        assert(tail_text(a) + x =~= x);
        assert(tail_text(b) + y =~= y);
        assert(a =~= b);
    } else {
        let last = a.len() - 1;
        let (name, v) = a[last];
        let (_, w) = b[last];
        assert(is_whole(a[last]) && is_whole(b[last]));
        assert(a[last].0 == b[last].0);
        assert(tail_text(a) + x =~= tail_text(a.drop_last()) + (slot(name, v) + x));
        assert(tail_text(b) + y =~= tail_text(b.drop_last()) + (slot(name, w) + y));
        assert((slot(name, v) + x)[0] == '&');
        assert((slot(name, w) + y)[0] == '&');
        assert forall|i: int| 0 <= i < last implies is_whole(#[trigger] a.drop_last()[i])
            && is_whole(#[trigger] b.drop_last()[i]) by {
            assert(is_whole(a[i]) && is_whole(b[i]));
        }
        lemma_tail_text(a.drop_last(), slot(name, v) + x, b.drop_last(), slot(name, w) + y);
        lemma_slot(name, v, x, w, y);
        assert(a =~= a.drop_last().push(a[last]));
        assert(b =~= b.drop_last().push(b[last]));
    }
}

/// The ids of a request.
spec fn id_params(request: TrackerRequest<'_>) -> Seq<(Seq<char>, Seq<char>)> {
    seq![
        ("info_hash"@, percent_encoded(request.info_hash.0@)),
        ("peer_id"@, percent_encoded(request.peer_id.0@)),
    ]
}

/// The query string from behind the ids on.
spec fn text_from_event(request: TrackerRequest<'_>) -> Seq<char> {
    optional_slot("event"@, request.event_value()) + (tail_text(request.required_params())
        + text_from_ip(
        request.ip_value(),
        request.numwant_value(),
        request.key_value(),
        request.trackerid_value(),
    ))
}

/// The query string of a request, part by part.
proof fn lemma_query_text_parts(request: TrackerRequest<'_>)
    ensures
        "&"@ + query_text(request.params()) == tail_text(id_params(request)) + text_from_event(
            request,
        ),
{
    let ids = id_params(request);
    let event = optional("event"@, request.event_value());
    let required = request.required_params();
    let ip = optional("ip"@, request.ip_value());
    let numwant = optional("numwant"@, request.numwant_value());
    let key = optional("key"@, request.key_value());
    let trackerid = optional("trackerid"@, request.trackerid_value());
    lemma_query_text_goes_on(ids, event);
    lemma_query_text_goes_on(ids + event, required);
    lemma_query_text_goes_on(ids + event + required, ip);
    lemma_query_text_goes_on(ids + event + required + ip, numwant);
    lemma_query_text_goes_on(ids + event + required + ip + numwant, key);
    lemma_query_text_goes_on(ids + event + required + ip + numwant + key, trackerid);
    lemma_optional_tail("event"@, request.event_value());
    lemma_optional_tail("ip"@, request.ip_value());
    lemma_optional_tail("numwant"@, request.numwant_value());
    lemma_optional_tail("key"@, request.key_value());
    lemma_optional_tail("trackerid"@, request.trackerid_value());
    assert(request.params() == ids + event + required + ip + numwant + key + trackerid);
    lemma_front_of_tail(ids);
    lemma_regroup(
        query_text(ids),
        tail_text(event),
        tail_text(required),
        tail_text(ip),
        tail_text(numwant),
        tail_text(key),
        tail_text(trackerid),
    );
}

/// Behind an `&`, a query string is what would stand behind other parameters.
proof fn lemma_front_of_tail(params: Seq<(Seq<char>, Seq<char>)>)
    requires
        params.len() > 0,
    ensures
        "&"@ + query_text(params) == tail_text(params),
    decreases params.len(),
{
    let before = params.drop_last();
    if before.len() > 0 {
        lemma_front_of_tail(before);
    } else {
        assert(tail_text(before) =~= Seq::empty());
    }
    assert("&"@ + query_text(params) =~= tail_text(params));
}

proof fn lemma_regroup(
    a: Seq<char>,
    b: Seq<char>,
    c: Seq<char>,
    d: Seq<char>,
    e: Seq<char>,
    f: Seq<char>,
    g: Seq<char>,
)
    ensures
        "&"@ + (a + b + c + d + e + f + g) == ("&"@ + a) + (b + (c + (d + (e + (f + g))))),
{
    assert("&"@ + (a + b + c + d + e + f + g) =~= ("&"@ + a) + (b + (c + (d + (e + (f + g))))));
}

/// The requests say the same: all their fields agree.
pub open spec fn same_request(a: TrackerRequest<'_>, b: TrackerRequest<'_>) -> bool {
    &&& a.info_hash.0@ == b.info_hash.0@
    &&& a.peer_id.0@ == b.peer_id.0@
    &&& a.event == b.event
    &&& a.port == b.port
    &&& a.uploaded == b.uploaded
    &&& a.downloaded == b.downloaded
    &&& a.left == b.left
    &&& a.compact == b.compact
    &&& a.no_peer_id == b.no_peer_id
    &&& a.ip == b.ip
    &&& a.numwant == b.numwant
    &&& a.key == b.key
    &&& a.trackerid_value() == b.trackerid_value()
}

/// Equal parameters come of equal fields.
proof fn lemma_required_fields(a: TrackerRequest<'_>, b: TrackerRequest<'_>)
    requires
        a.required_params() == b.required_params(),
    ensures
        a.port == b.port,
        a.uploaded == b.uploaded,
        a.downloaded == b.downloaded,
        a.left == b.left,
        a.compact == b.compact,
        a.no_peer_id == b.no_peer_id,
{
    reveal_strlit("0");
    reveal_strlit("1");
    let p = a.required_params();
    let q = b.required_params();
    assert(p[0].1 == q[0].1 && p[1].1 == q[1].1 && p[2].1 == q[2].1);
    assert(p[3].1 == q[3].1 && p[4].1 == q[4].1 && p[5].1 == q[5].1);
    law_numeral_is_one_to_one(a.port as nat, b.port as nat, 10);
    law_numeral_is_one_to_one(a.uploaded as nat, b.uploaded as nat, 10);
    law_numeral_is_one_to_one(a.downloaded as nat, b.downloaded as nat, 10);
    law_numeral_is_one_to_one(a.left as nat, b.left as nat, 10);
    assert("0"@[0] == '0' && "1"@[0] == '1');
}

/// Equal values of optional parameters come of equal fields.
proof fn lemma_optional_fields(a: TrackerRequest<'_>, b: TrackerRequest<'_>)
    requires
        a.event_value() == b.event_value(),
        a.ip_value() == b.ip_value(),
        a.numwant_value() == b.numwant_value(),
        a.key_value() == b.key_value(),
    ensures
        a.event == b.event,
        a.ip == b.ip,
        a.numwant == b.numwant,
        a.key == b.key,
{
    reveal_strlit("started");
    reveal_strlit("stopped");
    reveal_strlit("completed");
    assert("started"@[2] == 'a' && "stopped"@[2] == 'o' && "completed"@[2] == 'm');
    if let (Some(x), Some(y)) = (a.ip, b.ip) {
        law_address_text_is_one_to_one(x, y);
    }
    if let (Some(x), Some(y)) = (a.numwant, b.numwant) {
        law_numeral_is_one_to_one(x as nat, y as nat, 10);
    }
    if let (Some(x), Some(y)) = (a.key, b.key) {
        law_numeral_is_one_to_one(x as nat, y as nat, 10);
    }
}

/// What stands behind the ids and behind the event goes on as it should.
proof fn lemma_rests_go_on(request: TrackerRequest<'_>)
    ensures
        goes_on(text_from_event(request)),
        goes_on(
            text_from_ip(
                request.ip_value(),
                request.numwant_value(),
                request.key_value(),
                request.trackerid_value(),
            ),
        ),
        goes_on_without(
            tail_text(request.required_params()) + text_from_ip(
                request.ip_value(),
                request.numwant_value(),
                request.key_value(),
                request.trackerid_value(),
            ),
            "event"@,
        ),
{
    reveal_strlit("&");
    reveal_strlit("port");
    lemma_names();
    let end = text_from_ip(
        request.ip_value(),
        request.numwant_value(),
        request.key_value(),
        request.trackerid_value(),
    );
    lemma_from_ip_rests(
        request.numwant_value(),
        request.key_value(),
        request.trackerid_value(),
    );
    if request.ip is Some {
        assert(end[0] == '&');
    } else {
        assert(end =~= optional_slot("numwant"@, request.numwant_value()) + (optional_slot(
            "key"@,
            request.key_value(),
        ) + optional_slot("trackerid"@, request.trackerid_value())));
    }
    let required = request.required_params();
    lemma_tail_begins(required);
    let rest = tail_text(required) + end;
    assert(required[0].0 == "port"@);
    assert(rest[0] == '&' && rest[1] == 'p');
    if request.event is Some {
        assert(text_from_event(request)[0] == '&');
    } else {
        assert(text_from_event(request) =~= rest);
    }
}

/// Further parameters begin with an `&` and the name of the first.
proof fn lemma_tail_begins(params: Seq<(Seq<char>, Seq<char>)>)
    requires
        params.len() > 0,
        params[0].0.len() > 0,
    ensures
        tail_text(params).len() > 1,
        tail_text(params)[0] == '&',
        tail_text(params)[1] == params[0].0[0],
    decreases params.len(),
{
    reveal_strlit("&");
    let before = params.drop_last();
    let last = "&"@ + param_text(params.last());
    if before.len() > 0 {
        lemma_tail_begins(before);
        assert(tail_text(params)[0] == tail_text(before)[0]);
        assert(tail_text(params)[1] == tail_text(before)[1]);
    } else {
        assert(tail_text(before) =~= Seq::empty());
        assert(tail_text(params) =~= last);
        assert(params.last() == params[0]);
        assert(last[1] == params[0].0[0]);
    }
}

/// Two requests have the same query string exactly when all their fields agree: every field
/// reaches the string. The ids come back when their values are decoded.
pub proof fn law_query_string_is_one_to_one(a: TrackerRequest<'_>, b: TrackerRequest<'_>)
    ensures
        query_text(a.params()) == query_text(b.params()) <==> same_request(a, b),
        percent_decoded(a.params()[0].1) == a.info_hash.0@,
        percent_decoded(a.params()[1].1) == a.peer_id.0@,
{
    law_percent_decoding_undoes_encoding(a.info_hash.0@);
    law_percent_decoding_undoes_encoding(a.peer_id.0@);
    assert(a.params()[0] == id_params(a)[0]);
    assert(a.params()[1] == id_params(a)[1]);
    if query_text(a.params()) == query_text(b.params()) {
        law_percent_decoding_undoes_encoding(b.info_hash.0@);
        law_percent_decoding_undoes_encoding(b.peer_id.0@);
        lemma_query_text_parts(a);
        lemma_query_text_parts(b);
        lemma_rests_go_on(a);
        lemma_rests_go_on(b);
        lemma_ids_whole(a);
        lemma_ids_whole(b);
        lemma_tail_text(id_params(a), text_from_event(a), id_params(b), text_from_event(b));
        assert(id_params(a)[0].1 == id_params(b)[0].1);
        assert(id_params(a)[1].1 == id_params(b)[1].1);
        lemma_behind_ids(a, b);
    } else if same_request(a, b) {
        assert(a.params() =~= b.params());
    }
}

/// The fields behind the ids are fixed by the text behind the ids.
proof fn lemma_behind_ids(a: TrackerRequest<'_>, b: TrackerRequest<'_>)
    requires
        text_from_event(a) == text_from_event(b),
    ensures
        a.event == b.event,
        a.port == b.port,
        a.uploaded == b.uploaded,
        a.downloaded == b.downloaded,
        a.left == b.left,
        a.compact == b.compact,
        a.no_peer_id == b.no_peer_id,
        a.ip == b.ip,
        a.numwant == b.numwant,
        a.key == b.key,
        a.trackerid_value() == b.trackerid_value(),
{
    let end_a = text_from_ip(a.ip_value(), a.numwant_value(), a.key_value(), a.trackerid_value());
    let end_b = text_from_ip(b.ip_value(), b.numwant_value(), b.key_value(), b.trackerid_value());
    lemma_names();
    lemma_rests_go_on(a);
    lemma_rests_go_on(b);
    lemma_values_whole(a);
    lemma_values_whole(b);
    lemma_optional_slot(
        "event"@,
        a.event_value(),
        tail_text(a.required_params()) + end_a,
        b.event_value(),
        tail_text(b.required_params()) + end_b,
    );
    lemma_required_whole(a);
    lemma_required_whole(b);
    lemma_tail_text(a.required_params(), end_a, b.required_params(), end_b);
    lemma_text_from_ip(
        a.ip_value(),
        a.numwant_value(),
        a.key_value(),
        a.trackerid_value(),
        b.ip_value(),
        b.numwant_value(),
        b.key_value(),
        b.trackerid_value(),
    );
    lemma_required_fields(a, b);
    lemma_optional_fields(a, b);
}

/// No value of an optional parameter holds an `&`, but for the tracker id.
proof fn lemma_values_whole(request: TrackerRequest<'_>)
    ensures
        request.event_value() matches Some(value) ==> is_one_piece(value),
        request.ip_value() matches Some(value) ==> is_one_piece(value),
        request.numwant_value() matches Some(value) ==> is_one_piece(value),
        request.key_value() matches Some(value) ==> is_one_piece(value),
{
    lemma_event_whole(request);
    lemma_rest_whole(request);
    if let Some(value) = request.event_value() {
        assert(is_whole(optional("event"@, request.event_value())[0]));
    }
    if let Some(value) = request.ip_value() {
        assert(is_whole(optional("ip"@, request.ip_value())[0]));
    }
    if let Some(value) = request.numwant_value() {
        assert(is_whole(optional("numwant"@, request.numwant_value())[0]));
    }
    if let Some(value) = request.key_value() {
        assert(is_whole(optional("key"@, request.key_value())[0]));
    }
}

/// Bytes of a response.
#[derive(Clone, Copy, Debug)]
pub struct ByteBuf<'a>(pub &'a [u8]);

/// What a tracker says when it refuses an announce.
#[derive(Clone, Copy, Debug)]
pub struct TrackerError<'a> {
    pub failure_reason: ByteBuf<'a>,
}

/// Peers in a response: one by one, or in compact form.
pub enum Peers<'a, AddrType> {
    DictPeers(Vec<SocketAddr>),
    Compact(CompactListInBuffer<'a, AddrType>),
}

impl<'a, AddrType> Default for Peers<'a, AddrType> {
    fn default() -> (peers: Self)
        ensures
            peers matches Peers::DictPeers(addrs) && addrs@ == Seq::<SocketAddr>::empty(),
    {
        Peers::DictPeers(Vec::new())
    }
}

/// The addresses among those of both families.
pub open spec fn socket_addrs<T: CompactSerialize>(addrs: Seq<T>) -> Seq<SocketAddr> {
    addrs.map_values(|addr: T| addr.socket_addr())
}

impl<'a, AddrType: CompactSerialize + Copy> Peers<'a, AddrType> {
    /// The addresses of the peers, in order.
    pub open spec fn addrs(self) -> Seq<SocketAddr> {
        match self {
            Peers::DictPeers(addrs) => addrs@,
            Peers::Compact(list) => socket_addrs(list.addrs()),
        }
    }

    /// The addresses of the peers, in order.
    pub fn iter(&self) -> (addrs: Vec<SocketAddr>)
        ensures
            addrs@ == self.addrs(),
    {
        let mut out: Vec<SocketAddr> = Vec::new();
        match self {
            Peers::DictPeers(addrs) => {
                let mut i: usize = 0;
                while i < addrs.len()
                    invariant
                        i <= addrs@.len(),
                        out@ == addrs@.take(i as int),
                    decreases addrs@.len() - i,
                {
                    out.push(addrs[i]);
                    i = i + 1;
                    proof {
                        assert(addrs@.take(i as int) =~= addrs@.take(i - 1).push(addrs@[i - 1]));
                    }
                }
                proof {
                    assert(addrs@.take(i as int) =~= addrs@);
                }
            },
            Peers::Compact(list) => {
                let addrs = list.iter();
                let mut i: usize = 0;
                while i < addrs.len()
                    invariant
                        i <= addrs@.len(),
                        out@ =~= socket_addrs(addrs@).take(i as int),
                    decreases addrs@.len() - i,
                {
                    out.push(addrs[i].into_socket_addr());
                    i = i + 1;
                }
                proof {
                    assert(out@ =~= socket_addrs(addrs@));
                }
            },
        }
        out
    }
}

/// No more peers than this are taken one by one.
pub const MAX_DICT_PEERS: usize = 10_000;

/// The addresses with one more behind them, unless there are enough.
pub open spec fn with_dict_peer(addrs: Seq<SocketAddr>, ip: IpAddr, port: u16) -> Seq<SocketAddr> {
    if addrs.len() < MAX_DICT_PEERS {
        addrs.push(SocketAddr::new(ip, port))
    } else {
        addrs
    }
}

/// The addresses that are kept of peers that come one by one: the first [`MAX_DICT_PEERS`].
pub open spec fn kept_dict_peers(peers: Seq<(IpAddr, u16)>) -> Seq<SocketAddr> {
    peers.take(
        if peers.len() < MAX_DICT_PEERS {
            peers.len() as int
        } else {
            MAX_DICT_PEERS as int
        },
    ).map_values(|peer: (IpAddr, u16)| SocketAddr::new(peer.0, peer.1))
}

/// Peers that come one by one.
pub struct DictPeers {
    addrs: Vec<SocketAddr>,
}

impl DictPeers {
    /// The addresses that were kept.
    pub closed spec fn addrs(self) -> Seq<SocketAddr> {
        self.addrs@
    }

    pub fn new() -> (peers: Self)
        ensures
            peers.addrs() == Seq::<SocketAddr>::empty(),
    {
        DictPeers { addrs: Vec::new() }
    }

    /// Takes a peer, and says whether to go on.
    pub fn push(&mut self, ip: IpAddr, port: u16) -> (more: bool)
        ensures
            final(self).addrs() == with_dict_peer(old(self).addrs(), ip, port),
            more == (final(self).addrs().len() < MAX_DICT_PEERS),
    {
        if self.addrs.len() < MAX_DICT_PEERS {
            self.addrs.push(SocketAddr::new(ip, port));
        }
        self.addrs.len() < MAX_DICT_PEERS
    }

    /// The peers of a response.
    pub fn into_peers<'a, AddrType>(self) -> (peers: Peers<'a, AddrType>)
        ensures
            peers matches Peers::DictPeers(addrs) && addrs@ == self.addrs(),
    {
        Peers::DictPeers(self.addrs)
    }
}

/// Taking peers one by one keeps the first ones, up to the limit: one more peer is one more
/// address until there are enough, and changes nothing from then on.
pub proof fn law_first_dict_peers_are_kept(peers: Seq<(IpAddr, u16)>, ip: IpAddr, port: u16)
    ensures
        kept_dict_peers(Seq::empty()) == Seq::<SocketAddr>::empty(),
        with_dict_peer(kept_dict_peers(peers), ip, port) == kept_dict_peers(
            peers.push((ip, port)),
        ),
        kept_dict_peers(peers).len() <= MAX_DICT_PEERS,
{
    assert(kept_dict_peers(Seq::empty()) =~= Seq::empty());
    assert(with_dict_peer(kept_dict_peers(peers), ip, port) =~= kept_dict_peers(
        peers.push((ip, port)),
    ));
}

/// What a tracker answers to an announce.
pub struct TrackerResponse<'a> {
    pub warning_message: Option<ByteBuf<'a>>,
    pub complete: u64,
    pub interval: u64,
    pub min_interval: Option<u64>,
    pub tracker_id: Option<ByteBuf<'a>>,
    pub incomplete: u64,
    pub peers: Peers<'a, SocketAddrV4>,
    pub peers6: Peers<'a, SocketAddrV6>,
}

impl<'a> TrackerResponse<'a> {
    /// All peers: those of `peers`, then those of `peers6`.
    pub fn iter_peers(&self) -> (addrs: Vec<SocketAddr>)
        ensures
            addrs@ == self.peers.addrs() + self.peers6.addrs(),
    {
        let mut addrs = self.peers.iter();
        let mut more = self.peers6.iter();
        addrs.append(&mut more);
        addrs
    }
}

/// A response whose peers are in compact form gives back the peers that were written: the IPv4
/// peers, then the IPv6 peers, each in order.
pub proof fn law_compact_response_gives_its_peers(
    response: TrackerResponse<'_>,
    v4: Seq<SocketAddrV4>,
    v6: Seq<SocketAddrV6>,
)
    requires
        forall|i: int| 0 <= i < v4.len() ==> (#[trigger] v4[i]).is_plain(),
        forall|i: int| 0 <= i < v6.len() ==> (#[trigger] v6[i]).is_plain(),
        response.peers matches Peers::Compact(list) && list.bytes() == compact_forms(v4).flatten(),
        response.peers6 matches Peers::Compact(list) && list.bytes() == compact_forms(
            v6,
        ).flatten(),
    ensures
        response.peers.addrs() + response.peers6.addrs() == socket_addrs(v4) + socket_addrs(v6),
{
    let list = response.peers->Compact_0;
    let list6 = response.peers6->Compact_0;
    assert(list.bytes() =~= compact_forms(v4).flatten() + Seq::empty());
    assert(list6.bytes() =~= compact_forms(v6).flatten() + Seq::empty());
    law_compact_list_write_then_read(v4, Seq::empty(), list);
    law_compact_list_write_then_read(v6, Seq::empty(), list6);
}

/// A number behind an `&`, its name and an equals sign.
pub open spec fn number_part(front: Seq<char>, n: nat) -> Seq<char> {
    front + numeral(n, 10)
}

/// The query string of every request, written out: the two ids, the event if there is one, the
/// port and the byte counts, the two flags, and then what else the request says.
pub proof fn law_query_string_written_out(request: TrackerRequest<'_>, text: String)
    requires
        call_ensures(TrackerRequest::as_querystring, (&request,), text),
    ensures
        text@ == "info_hash="@ + percent_encoded(request.info_hash.0@) + "&peer_id="@
            + percent_encoded(request.peer_id.0@) + (match request.event {
            None => Seq::empty(),
            Some(TrackerRequestEvent::Started) => "&event=started"@,
            Some(TrackerRequestEvent::Stopped) => "&event=stopped"@,
            Some(TrackerRequestEvent::Completed) => "&event=completed"@,
        }) + number_part("&port="@, request.port as nat) + number_part(
            "&uploaded="@,
            request.uploaded as nat,
        ) + number_part("&downloaded="@, request.downloaded as nat) + number_part(
            "&left="@,
            request.left as nat,
        ) + (if request.compact {
            "&compact=1"@
        } else {
            "&compact=0"@
        }) + (if request.no_peer_id {
            "&no_peer_id=1"@
        } else {
            "&no_peer_id=0"@
        }) + (match request.ip {
            None => Seq::empty(),
            Some(ip) => "&ip="@ + ip_text(ip),
        }) + (match request.numwant {
            None => Seq::empty(),
            Some(numwant) => number_part("&numwant="@, numwant as nat),
        }) + (match request.key {
            None => Seq::empty(),
            Some(key) => number_part("&key="@, key as nat),
        }) + (match request.trackerid {
            None => Seq::empty(),
            Some(trackerid) => "&trackerid="@ + trackerid@,
        }),
{
    lemma_query_text_parts(request);
    lemma_ids_written_out(request);
    lemma_event_written_out(request);
    lemma_required_written_out(request);
    lemma_ip_written_out(request);
    lemma_numwant_written_out(request);
    lemma_key_written_out(request);
    lemma_trackerid_written_out(request);
    let ids = "info_hash="@ + percent_encoded(request.info_hash.0@) + "&peer_id="@
        + percent_encoded(request.peer_id.0@);
    let event = optional_slot("event"@, request.event_value());
    lemma_ungroup(
        text@,
        ids,
        event,
        tail_text(request.required_params()),
        optional_slot("ip"@, request.ip_value()),
        optional_slot("numwant"@, request.numwant_value()),
        optional_slot("key"@, request.key_value()),
        optional_slot("trackerid"@, request.trackerid_value()),
    );
    lemma_required_regroup(
        ids + event,
        number_part("&port="@, request.port as nat),
        number_part("&uploaded="@, request.uploaded as nat),
        number_part("&downloaded="@, request.downloaded as nat),
        number_part("&left="@, request.left as nat),
        if request.compact {
            "&compact=1"@
        } else {
            "&compact=0"@
        },
        if request.no_peer_id {
            "&no_peer_id=1"@
        } else {
            "&no_peer_id=0"@
        },
    );
}

proof fn lemma_ungroup(
    q: Seq<char>,
    a: Seq<char>,
    b: Seq<char>,
    c: Seq<char>,
    d: Seq<char>,
    e: Seq<char>,
    f: Seq<char>,
    g: Seq<char>,
)
    requires
        "&"@ + q == ("&"@ + a) + (b + (c + (d + (e + (f + g))))),
    ensures
        q == a + b + c + d + e + f + g,
{
    lemma_regroup(a, b, c, d, e, f, g);
    let n = "&"@.len() as int;
    let whole = a + b + c + d + e + f + g;
    assert(("&"@ + q).skip(n) =~= q);
    assert(("&"@ + whole).skip(n) =~= whole);
}

proof fn lemma_required_regroup(
    z: Seq<char>,
    a: Seq<char>,
    b: Seq<char>,
    c: Seq<char>,
    d: Seq<char>,
    e: Seq<char>,
    f: Seq<char>,
)
    ensures
        z + (a + b + c + d + e + f) == z + a + b + c + d + e + f,
{
    assert(z + (a + b + c + d + e + f) =~= z + a + b + c + d + e + f);
}

proof fn lemma_ids_written_out(request: TrackerRequest<'_>)
    ensures
        tail_text(id_params(request)) == "&"@ + ("info_hash="@ + percent_encoded(
            request.info_hash.0@,
        ) + "&peer_id="@ + percent_encoded(request.peer_id.0@)),
{
    reveal_strlit("&");
    reveal_strlit("=");
    reveal_strlit("info_hash");
    reveal_strlit("info_hash=");
    reveal_strlit("peer_id");
    reveal_strlit("&peer_id=");
    let ids = id_params(request);
    assert("info_hash"@ + "="@ =~= "info_hash="@);
    assert("&"@ + "peer_id"@ + "="@ =~= "&peer_id="@);
    let first = ids.drop_last();
    assert(first.drop_last() =~= Seq::empty());
    assert(tail_text(first.drop_last()) =~= Seq::empty());
    assert(tail_text(first) =~= "&"@ + ("info_hash="@ + percent_encoded(request.info_hash.0@)));
    assert(tail_text(ids) =~= "&"@ + ("info_hash="@ + percent_encoded(request.info_hash.0@)
        + "&peer_id="@ + percent_encoded(request.peer_id.0@)));
}

proof fn lemma_event_written_out(request: TrackerRequest<'_>)
    ensures
        optional_slot("event"@, request.event_value()) == (match request.event {
            None => Seq::empty(),
            Some(TrackerRequestEvent::Started) => "&event=started"@,
            Some(TrackerRequestEvent::Stopped) => "&event=stopped"@,
            Some(TrackerRequestEvent::Completed) => "&event=completed"@,
        }),
{
    reveal_strlit("&");
    reveal_strlit("=");
    reveal_strlit("event");
    reveal_strlit("started");
    reveal_strlit("stopped");
    reveal_strlit("completed");
    reveal_strlit("&event=started");
    reveal_strlit("&event=stopped");
    reveal_strlit("&event=completed");
    assert("&"@ + ("event"@ + "="@ + "started"@) =~= "&event=started"@);
    assert("&"@ + ("event"@ + "="@ + "stopped"@) =~= "&event=stopped"@);
    assert("&"@ + ("event"@ + "="@ + "completed"@) =~= "&event=completed"@);
}

/// A parameter behind others begins with the `&`, its name and the equals sign.
proof fn lemma_slot_front(name: Seq<char>, front: Seq<char>, value: Seq<char>)
    requires
        "&"@ + name + "="@ == front,
    ensures
        slot(name, value) == front + value,
{
    assert(slot(name, value) =~= front + value);
}

proof fn lemma_required_written_out(request: TrackerRequest<'_>)
    ensures
        tail_text(request.required_params()) == number_part("&port="@, request.port as nat)
            + number_part("&uploaded="@, request.uploaded as nat) + number_part(
            "&downloaded="@,
            request.downloaded as nat,
        ) + number_part("&left="@, request.left as nat) + (if request.compact {
            "&compact=1"@
        } else {
            "&compact=0"@
        }) + (if request.no_peer_id {
            "&no_peer_id=1"@
        } else {
            "&no_peer_id=0"@
        }),
{
    let p = request.required_params();
    lemma_required_fronts();
    lemma_slot_front("port"@, "&port="@, p[0].1);
    lemma_slot_front("uploaded"@, "&uploaded="@, p[1].1);
    lemma_slot_front("downloaded"@, "&downloaded="@, p[2].1);
    lemma_slot_front("left"@, "&left="@, p[3].1);
    lemma_slot_front("compact"@, "&compact="@, p[4].1);
    lemma_slot_front("no_peer_id"@, "&no_peer_id="@, p[5].1);
    lemma_six_slots(p);
}

/// Six parameters behind others stand one behind the other.
proof fn lemma_six_slots(p: Seq<(Seq<char>, Seq<char>)>)
    requires
        p.len() == 6,
    ensures
        tail_text(p) == slot(p[0].0, p[0].1) + slot(p[1].0, p[1].1) + slot(p[2].0, p[2].1) + slot(
            p[3].0,
            p[3].1,
        ) + slot(p[4].0, p[4].1) + slot(p[5].0, p[5].1),
{
    lemma_tail_push(p, 0);
    lemma_tail_push(p, 1);
    lemma_tail_push(p, 2);
    lemma_tail_push(p, 3);
    lemma_tail_push(p, 4);
    lemma_tail_push(p, 5);
    assert(p.take(0) =~= Seq::empty());
    assert(p.take(6) =~= p);
    let first = slot(p[0].0, p[0].1);
    assert(Seq::<char>::empty() + first =~= first);
}

proof fn lemma_tail_push(p: Seq<(Seq<char>, Seq<char>)>, k: int)
    requires
        0 <= k < p.len(),
    ensures
        tail_text(p.take(k + 1)) == tail_text(p.take(k)) + slot(p[k].0, p[k].1),
{
    assert(p.take(k + 1).drop_last() =~= p.take(k));
    assert(p.take(k + 1).last() == (p[k].0, p[k].1));
}

proof fn lemma_required_fronts()
    ensures
        "&"@ + "port"@ + "="@ == "&port="@,
        "&"@ + "uploaded"@ + "="@ == "&uploaded="@,
        "&"@ + "downloaded"@ + "="@ == "&downloaded="@,
        "&"@ + "left"@ + "="@ == "&left="@,
        "&"@ + "compact"@ + "="@ == "&compact="@,
        "&"@ + "no_peer_id"@ + "="@ == "&no_peer_id="@,
        "&compact="@ + "0"@ == "&compact=0"@,
        "&compact="@ + "1"@ == "&compact=1"@,
        "&no_peer_id="@ + "0"@ == "&no_peer_id=0"@,
        "&no_peer_id="@ + "1"@ == "&no_peer_id=1"@,
{
    reveal_strlit("&");
    reveal_strlit("=");
    reveal_strlit("0");
    reveal_strlit("1");
    reveal_strlit("port");
    reveal_strlit("&port=");
    reveal_strlit("uploaded");
    reveal_strlit("&uploaded=");
    reveal_strlit("downloaded");
    reveal_strlit("&downloaded=");
    reveal_strlit("left");
    reveal_strlit("&left=");
    reveal_strlit("compact");
    reveal_strlit("&compact=");
    reveal_strlit("&compact=0");
    reveal_strlit("&compact=1");
    reveal_strlit("no_peer_id");
    reveal_strlit("&no_peer_id=");
    reveal_strlit("&no_peer_id=0");
    reveal_strlit("&no_peer_id=1");
    assert("&"@ + "port"@ + "="@ =~= "&port="@);
    assert("&"@ + "uploaded"@ + "="@ =~= "&uploaded="@);
    assert("&"@ + "downloaded"@ + "="@ =~= "&downloaded="@);
    assert("&"@ + "left"@ + "="@ =~= "&left="@);
    assert("&"@ + "compact"@ + "="@ =~= "&compact="@);
    assert("&"@ + "no_peer_id"@ + "="@ =~= "&no_peer_id="@);
    assert("&compact="@ + "0"@ =~= "&compact=0"@);
    assert("&compact="@ + "1"@ =~= "&compact=1"@);
    assert("&no_peer_id="@ + "0"@ =~= "&no_peer_id=0"@);
    assert("&no_peer_id="@ + "1"@ =~= "&no_peer_id=1"@);
}

proof fn lemma_ip_written_out(request: TrackerRequest<'_>)
    ensures
        optional_slot("ip"@, request.ip_value()) == (match request.ip {
            None => Seq::empty(),
            Some(ip) => "&ip="@ + ip_text(ip),
        }),
{
    reveal_strlit("&");
    reveal_strlit("=");
    reveal_strlit("ip");
    reveal_strlit("&ip=");
    assert("&"@ + "ip"@ + "="@ =~= "&ip="@);
    if let Some(value) = request.ip_value() {
        lemma_slot_front("ip"@, "&ip="@, value);
    }
}

proof fn lemma_numwant_written_out(request: TrackerRequest<'_>)
    ensures
        optional_slot("numwant"@, request.numwant_value()) == (match request.numwant {
            None => Seq::empty(),
            Some(numwant) => number_part("&numwant="@, numwant as nat),
        }),
{
    reveal_strlit("&");
    reveal_strlit("=");
    reveal_strlit("numwant");
    reveal_strlit("&numwant=");
    assert("&"@ + "numwant"@ + "="@ =~= "&numwant="@);
    if let Some(value) = request.numwant_value() {
        lemma_slot_front("numwant"@, "&numwant="@, value);
    }
}

proof fn lemma_key_written_out(request: TrackerRequest<'_>)
    ensures
        optional_slot("key"@, request.key_value()) == (match request.key {
            None => Seq::empty(),
            Some(key) => number_part("&key="@, key as nat),
        }),
{
    reveal_strlit("&");
    reveal_strlit("=");
    reveal_strlit("key");
    reveal_strlit("&key=");
    assert("&"@ + "key"@ + "="@ =~= "&key="@);
    if let Some(value) = request.key_value() {
        lemma_slot_front("key"@, "&key="@, value);
    }
}

proof fn lemma_trackerid_written_out(request: TrackerRequest<'_>)
    ensures
        optional_slot("trackerid"@, request.trackerid_value()) == (match request.trackerid {
            None => Seq::empty(),
            Some(trackerid) => "&trackerid="@ + trackerid@,
        }),
{
    reveal_strlit("&");
    reveal_strlit("=");
    reveal_strlit("trackerid");
    reveal_strlit("&trackerid=");
    assert("&"@ + "trackerid"@ + "="@ =~= "&trackerid="@);
    if let Some(value) = request.trackerid_value() {
        lemma_slot_front("trackerid"@, "&trackerid="@, value);
    }
}

/// The piece of a query string is a parameter of this name.
pub open spec fn is_named(piece: Seq<char>, name: Seq<char>) -> bool {
    &&& name.len() < piece.len()
    &&& piece.take(name.len() as int) == name
    &&& piece[name.len() as int] == '='
}

/// The text holds one parameter of this name, and this is its value.
pub open spec fn says(text: Seq<char>, name: Seq<char>, value: Seq<char>) -> bool {
    exists|i: int| is_said_at(pieces(text), name, value, i)
}

/// The piece at `i`, and no other, is the parameter of this name, and this is its value.
pub open spec fn is_said_at(
    parts: Seq<Seq<char>>,
    name: Seq<char>,
    value: Seq<char>,
    i: int,
) -> bool {
    &&& 0 <= i < parts.len()
    &&& is_named(parts[i], name)
    &&& parts[i].skip(name.len() as int + 1) == value
    &&& forall|j: int| 0 <= j < parts.len() && is_named(#[trigger] parts[j], name) ==> j == i
}

/// The text holds no parameter of this name.
pub open spec fn is_silent_on(text: Seq<char>, name: Seq<char>) -> bool {
    forall|j: int| 0 <= j < pieces(text).len() ==> !is_named(#[trigger] pieces(text)[j], name)
}

/// The text holds one parameter of this name, and its value reads as this number in decimal.
pub open spec fn says_number(text: Seq<char>, name: Seq<char>, n: nat) -> bool {
    exists|value: Seq<char>| #[trigger] says(text, name, value) && numeral_value(value, 10) == n
}

/// The text holds one parameter of this name, and its value decodes to these bytes.
pub open spec fn says_bytes(text: Seq<char>, name: Seq<char>, bytes: Seq<u8>) -> bool {
    exists|value: Seq<char>| #[trigger]
        says(text, name, value) && percent_decoded(value) == bytes
}

/// The place of a name among the names of all parameters.
spec fn rank(name: Seq<char>) -> int {
    if name == "info_hash"@ {
        0
    } else if name == "peer_id"@ {
        1
    } else if name == "event"@ {
        2
    } else if name == "port"@ {
        3
    } else if name == "uploaded"@ {
        4
    } else if name == "downloaded"@ {
        5
    } else if name == "left"@ {
        6
    } else if name == "compact"@ {
        7
    } else if name == "no_peer_id"@ {
        8
    } else if name == "ip"@ {
        9
    } else if name == "numwant"@ {
        10
    } else if name == "key"@ {
        11
    } else if name == "trackerid"@ {
        12
    } else {
        13
    }
}

/// The names are told apart by their places.
proof fn lemma_ranks()
    ensures
        rank("info_hash"@) == 0,
        rank("peer_id"@) == 1,
        rank("event"@) == 2,
        rank("port"@) == 3,
        rank("uploaded"@) == 4,
        rank("downloaded"@) == 5,
        rank("left"@) == 6,
        rank("compact"@) == 7,
        rank("no_peer_id"@) == 8,
        rank("ip"@) == 9,
        rank("numwant"@) == 10,
        rank("key"@) == 11,
        rank("trackerid"@) == 12,
{
    reveal_strlit("info_hash");
    reveal_strlit("peer_id");
    reveal_strlit("event");
    reveal_strlit("port");
    reveal_strlit("uploaded");
    reveal_strlit("downloaded");
    reveal_strlit("left");
    reveal_strlit("compact");
    reveal_strlit("no_peer_id");
    reveal_strlit("ip");
    reveal_strlit("numwant");
    reveal_strlit("key");
    reveal_strlit("trackerid");
    assert("info_hash"@.len() == 9 && "info_hash"@[0] == 'i');
    assert("peer_id"@.len() == 7 && "peer_id"@[0] == 'p');
    assert("event"@.len() == 5 && "event"@[0] == 'e');
    assert("port"@.len() == 4 && "port"@[0] == 'p');
    assert("uploaded"@.len() == 8 && "uploaded"@[0] == 'u');
    assert("downloaded"@.len() == 10 && "downloaded"@[0] == 'd');
    assert("left"@.len() == 4 && "left"@[0] == 'l');
    assert("compact"@.len() == 7 && "compact"@[0] == 'c');
    assert("no_peer_id"@.len() == 10 && "no_peer_id"@[0] == 'n');
    assert("ip"@.len() == 2);
    assert("numwant"@.len() == 7 && "numwant"@[0] == 'n');
    assert("key"@.len() == 3);
    assert("trackerid"@.len() == 9 && "trackerid"@[0] == 't');
}

/// The names come in the order of their places, each from `low` up to below `high`, so none
/// comes twice.
spec fn in_order(params: Seq<(Seq<char>, Seq<char>)>, low: int, high: int) -> bool {
    &&& forall|i: int| 0 <= i < params.len() ==> low <= rank((#[trigger] params[i]).0) < high
    &&& forall|i: int, j: int|
        0 <= i < j < params.len() ==> rank((#[trigger] params[i]).0) < rank(
            (#[trigger] params[j]).0,
        )
}

proof fn lemma_in_order(
    a: Seq<(Seq<char>, Seq<char>)>,
    b: Seq<(Seq<char>, Seq<char>)>,
    low: int,
    middle: int,
    high: int,
)
    requires
        low <= middle <= high,
        in_order(a, low, middle),
        in_order(b, middle, high),
    ensures
        in_order(a + b, low, high),
{
    let all = a + b;
    assert forall|i: int| 0 <= i < all.len() implies low <= rank((#[trigger] all[i]).0) < high by {
        if i < a.len() {
            assert(all[i] == a[i]);
        } else {
            assert(all[i] == b[i - a.len()]);
        }
    }
    assert forall|i: int, j: int| 0 <= i < j < all.len() implies rank((#[trigger] all[i]).0) < rank(
        (#[trigger] all[j]).0,
    ) by {
        if j < a.len() {
            assert(all[i] == a[i] && all[j] == a[j]);
        } else if i < a.len() {
            assert(all[i] == a[i] && all[j] == b[j - a.len()]);
        } else {
            assert(all[i] == b[i - a.len()] && all[j] == b[j - a.len()]);
        }
    }
}

/// The parameters of a request come in order.
proof fn lemma_params_in_order(request: TrackerRequest<'_>)
    ensures
        in_order(request.params(), 0, 13),
{
    lemma_ranks();
    let ids = id_params(request);
    let event = optional("event"@, request.event_value());
    let required = request.required_params();
    let ip = optional("ip"@, request.ip_value());
    let numwant = optional("numwant"@, request.numwant_value());
    let key = optional("key"@, request.key_value());
    let trackerid = optional("trackerid"@, request.trackerid_value());
    assert(in_order(ids, 0, 2));
    assert(in_order(event, 2, 3));
    assert(in_order(required, 3, 9)) by {
        assert(required[0].0 == "port"@ && required[1].0 == "uploaded"@);
        assert(required[2].0 == "downloaded"@ && required[3].0 == "left"@);
        assert(required[4].0 == "compact"@ && required[5].0 == "no_peer_id"@);
    }
    assert(in_order(ip, 9, 10));
    assert(in_order(numwant, 10, 11));
    assert(in_order(key, 11, 12));
    assert(in_order(trackerid, 12, 13));
    lemma_in_order(ids, event, 0, 2, 3);
    lemma_in_order(ids + event, required, 0, 3, 9);
    lemma_in_order(ids + event + required, ip, 0, 9, 10);
    lemma_in_order(ids + event + required + ip, numwant, 0, 10, 11);
    lemma_in_order(ids + event + required + ip + numwant, key, 0, 11, 12);
    lemma_in_order(ids + event + required + ip + numwant + key, trackerid, 0, 12, 13);
    assert(request.params() == ids + event + required + ip + numwant + key + trackerid);
}

/// A parameter is one of a name exactly where that is its name.
proof fn lemma_is_named(param: (Seq<char>, Seq<char>), name: Seq<char>)
    requires
        is_free_of(param.0, '='),
        is_free_of(name, '='),
    ensures
        is_named(param_text(param), name) <==> param.0 == name,
        param_text(param).skip(param.0.len() as int + 1) == param.1,
{
    reveal_strlit("=");
    let piece = param_text(param);
    assert(piece.skip(param.0.len() as int + 1) =~= param.1);
    assert(piece.take(param.0.len() as int) =~= param.0);
    if is_named(piece, name) {
        let x = piece.skip(param.0.len() as int);
        let y = piece.skip(name.len() as int);
        assert(piece =~= param.0 + x);
        assert(piece =~= name + y);
        lemma_cut_at_first(param.0, x, name, y, '=');
    }
}

/// No name of a parameter holds an equals sign.
proof fn lemma_names_have_no_equals(name: Seq<char>)
    requires
        0 <= rank(name) < 13,
    ensures
        is_free_of(name, '='),
{
    reveal_strlit("info_hash");
    reveal_strlit("peer_id");
    reveal_strlit("event");
    reveal_strlit("port");
    reveal_strlit("uploaded");
    reveal_strlit("downloaded");
    reveal_strlit("left");
    reveal_strlit("compact");
    reveal_strlit("no_peer_id");
    reveal_strlit("ip");
    reveal_strlit("numwant");
    reveal_strlit("key");
    reveal_strlit("trackerid");
}

/// The parameter at `i` is said, once and as it is.
proof fn lemma_said(request: TrackerRequest<'_>, i: int)
    requires
        request.trackerid matches Some(trackerid) ==> is_one_piece(trackerid@),
        0 <= i < request.params().len(),
    ensures
        says(query_text(request.params()), request.params()[i].0, request.params()[i].1),
{
    let params = request.params();
    let (name, value) = params[i];
    let parts = pieces(query_text(params));
    law_request_falls_into_its_parameters(request);
    lemma_params_in_order(request);
    lemma_names_have_no_equals(name);
    assert forall|j: int| 0 <= j < parts.len() implies parts[j] == param_text(params[j]) && (
    is_named(#[trigger] parts[j], name) <==> params[j].0 == name) by {
        assert(0 <= rank(params[j].0) < 13);
        lemma_names_have_no_equals(params[j].0);
        lemma_is_named(params[j], name);
    }
    lemma_is_named(params[i], name);
    assert forall|j: int| 0 <= j < parts.len() && is_named(#[trigger] parts[j], name) implies j
        == i by {
        if j < i {
            assert(rank(params[j].0) < rank(params[i].0));
        } else if i < j {
            assert(rank(params[i].0) < rank(params[j].0));
        }
    }
    assert(is_said_at(parts, name, value, i));
}

/// A name that no parameter has is not said.
proof fn lemma_not_said(request: TrackerRequest<'_>, name: Seq<char>)
    requires
        request.trackerid matches Some(trackerid) ==> is_one_piece(trackerid@),
        0 <= rank(name) < 13,
        !has_param(request.params(), name),
    ensures
        is_silent_on(query_text(request.params()), name),
{
    let params = request.params();
    let parts = pieces(query_text(params));
    law_request_falls_into_its_parameters(request);
    lemma_params_in_order(request);
    lemma_names_have_no_equals(name);
    assert forall|j: int| 0 <= j < parts.len() implies !is_named(#[trigger] parts[j], name) by {
        assert(0 <= rank(params[j].0) < 13);
        lemma_names_have_no_equals(params[j].0);
        lemma_is_named(params[j], name);
    }
}

/// In every query string, each name of a required parameter stands once, and its value reads
/// as the field of that name: the ids decode to their bytes, the port and the byte counts are
/// the decimal numbers of the request, and the flags are 1 or 0. A tracker id that holds an
/// `&` could bring in names of its own.
pub proof fn law_each_required_name_says_its_field(request: TrackerRequest<'_>, text: String)
    requires
        call_ensures(TrackerRequest::as_querystring, (&request,), text),
        request.trackerid matches Some(trackerid) ==> is_one_piece(trackerid@),
    ensures
        says_bytes(text@, "info_hash"@, request.info_hash.0@),
        says_bytes(text@, "peer_id"@, request.peer_id.0@),
        says_number(text@, "port"@, request.port as nat),
        says_number(text@, "uploaded"@, request.uploaded as nat),
        says_number(text@, "downloaded"@, request.downloaded as nat),
        says_number(text@, "left"@, request.left as nat),
        says(
            text@,
            "compact"@,
            if request.compact {
                "1"@
            } else {
                "0"@
            },
        ),
        says(
            text@,
            "no_peer_id"@,
            if request.no_peer_id {
                "1"@
            } else {
                "0"@
            },
        ),
{
    let params = request.params();
    let at = 2 + optional("event"@, request.event_value()).len() as int;
    let required = request.required_params();
    assert(params[0] == id_params(request)[0]);
    assert(params[1] == id_params(request)[1]);
    assert(params[at] == required[0]);
    assert(params[at + 1] == required[1]);
    assert(params[at + 2] == required[2]);
    assert(params[at + 3] == required[3]);
    assert(params[at + 4] == required[4]);
    assert(params[at + 5] == required[5]);
    lemma_said(request, 0);
    lemma_said(request, 1);
    lemma_said(request, at);
    lemma_said(request, at + 1);
    lemma_said(request, at + 2);
    lemma_said(request, at + 3);
    lemma_said(request, at + 4);
    lemma_said(request, at + 5);
    law_percent_decoding_undoes_encoding(request.info_hash.0@);
    law_percent_decoding_undoes_encoding(request.peer_id.0@);
    law_numeral_read_back(request.port as nat, 10);
    law_numeral_read_back(request.uploaded as nat, 10);
    law_numeral_read_back(request.downloaded as nat, 10);
    law_numeral_read_back(request.left as nat, 10);
}

/// In every query string, each name of an optional parameter stands once, with the value of its
/// field, where the request says something of it, and else not at all.
pub proof fn law_each_optional_name_says_its_field(request: TrackerRequest<'_>, text: String)
    requires
        call_ensures(TrackerRequest::as_querystring, (&request,), text),
        request.trackerid matches Some(trackerid) ==> is_one_piece(trackerid@),
    ensures
        match request.event {
            None => is_silent_on(text@, "event"@),
            Some(TrackerRequestEvent::Started) => says(text@, "event"@, "started"@),
            Some(TrackerRequestEvent::Stopped) => says(text@, "event"@, "stopped"@),
            Some(TrackerRequestEvent::Completed) => says(text@, "event"@, "completed"@),
        },
        match request.ip {
            None => is_silent_on(text@, "ip"@),
            Some(ip) => says(text@, "ip"@, ip_text(ip)),
        },
        match request.numwant {
            None => is_silent_on(text@, "numwant"@),
            Some(numwant) => says_number(text@, "numwant"@, numwant as nat),
        },
        match request.key {
            None => is_silent_on(text@, "key"@),
            Some(key) => says_number(text@, "key"@, key as nat),
        },
        match request.trackerid {
            None => is_silent_on(text@, "trackerid"@),
            Some(trackerid) => says(text@, "trackerid"@, trackerid@),
        },
{
    let params = request.params();
    let event = optional("event"@, request.event_value());
    let ip = optional("ip"@, request.ip_value());
    let numwant = optional("numwant"@, request.numwant_value());
    let key = optional("key"@, request.key_value());
    let at_ip = 8 + event.len() as int;
    let at_numwant = at_ip + ip.len();
    let at_key = at_numwant + numwant.len();
    let at_trackerid = at_key + key.len();
    law_optional_parameters(request);
    lemma_ranks();
    if request.event is Some {
        assert(params[2] == event[0]);
        lemma_said(request, 2);
    } else {
        lemma_not_said(request, "event"@);
    }
    if request.ip is Some {
        assert(params[at_ip] == ip[0]);
        lemma_said(request, at_ip);
    } else {
        lemma_not_said(request, "ip"@);
    }
    if let Some(n) = request.numwant {
        assert(params[at_numwant] == numwant[0]);
        lemma_said(request, at_numwant);
        law_numeral_read_back(n as nat, 10);
    } else {
        lemma_not_said(request, "numwant"@);
    }
    if let Some(n) = request.key {
        assert(params[at_key] == key[0]);
        lemma_said(request, at_key);
        law_numeral_read_back(n as nat, 10);
    } else {
        lemma_not_said(request, "key"@);
    }
    if request.trackerid is Some {
        assert(params[at_trackerid] == optional("trackerid"@, request.trackerid_value())[0]);
        lemma_said(request, at_trackerid);
    } else {
        lemma_not_said(request, "trackerid"@);
    }
}

/// Bytes are encoded one by one. Letters, digits, `-`, `.`, `_` and `~` stand for themselves;
/// any other byte is a percent sign and its two hexadecimal digits, in upper case.
pub proof fn law_bytes_are_encoded_one_by_one(a: Seq<u8>, b: Seq<u8>, byte: u8)
    ensures
        percent_encoded(a + b) == percent_encoded(a) + percent_encoded(b),
        ({
            let c = byte as char;
            let itself = 'a' <= c <= 'z' || 'A' <= c <= 'Z' || '0' <= c <= '9' || c == '-' || c
                == '.' || c == '_' || c == '~';
            percent_encoded(seq![byte]) == if itself {
                seq![c]
            } else {
                seq![
                    '%',
                    "0123456789ABCDEF"@[byte as int / 16],
                    "0123456789ABCDEF"@[byte as int % 16],
                ]
            }
        }),
{
    reveal_strlit("0123456789ABCDEF");
    let f = |b: u8| percent_encoded_byte(b);
    lemma_flatten_concat(a.map_values(f), b.map_values(f));
    assert((a + b).map_values(f) =~= a.map_values(f) + b.map_values(f));
    let one = seq![byte].map_values(f);
    assert(one.drop_first() =~= Seq::empty());
    assert(one.drop_first().flatten() =~= Seq::empty());
    assert(one.flatten() =~= percent_encoded_byte(byte));
}

proof fn lemma_flatten_concat(a: Seq<Seq<char>>, b: Seq<Seq<char>>)
    ensures
        (a + b).flatten() == a.flatten() + b.flatten(),
    decreases a.len(),
{
    if a.len() == 0 {
        assert(a + b =~= b);
        assert(a.flatten() + b.flatten() =~= b.flatten());
    } else {
        lemma_flatten_concat(a.drop_first(), b);
        assert((a + b).drop_first() =~= a.drop_first() + b);
        assert((a + b).flatten() =~= a.flatten() + b.flatten());
    }
}

/// The address is this port of this host.
pub open spec fn is_addr_of(addr: SocketAddr, ip: IpAddr, port: u16) -> bool {
    match (addr, ip) {
        (SocketAddr::V4(v4), IpAddr::V4(host)) => v4.ip == host && v4.port == port,
        (SocketAddr::V6(v6), IpAddr::V6(host)) => v6.ip == host && v6.port == port && v6.flowinfo
            == 0 && v6.scope_id == 0,
        _ => false,
    }
}

/// What is kept before the call at `n`, or at the end.
spec fn kept_before(calls: Seq<&mut DictPeers>, end: DictPeers, n: int) -> Seq<SocketAddr> {
    if n < calls.len() {
        calls[n].addrs()
    } else {
        end.addrs()
    }
}

/// What is kept of peers taken one by one is each at its own position, up to ten thousand.
proof fn lemma_pushed(
    peers: Seq<(IpAddr, u16)>,
    calls: Seq<&mut DictPeers>,
    more: Seq<bool>,
    end: DictPeers,
    n: int,
)
    requires
        calls.len() == peers.len(),
        more.len() == peers.len(),
        forall|i: int|
            0 <= i < peers.len() ==> call_ensures(
                DictPeers::push,
                (calls[i], (#[trigger] peers[i]).0, peers[i].1),
                more[i],
            ) && *final(calls[i]) == (if i + 1 < peers.len() {
                *calls[i + 1]
            } else {
                end
            }),
        call_ensures(
            DictPeers::new,
            (),
            if peers.len() > 0 {
                *calls[0]
            } else {
                end
            },
        ),
        0 <= n <= peers.len(),
    ensures
        kept_before(calls, end, n).len() == (if n < 10_000 {
            n
        } else {
            10_000
        }),
        forall|i: int|
            0 <= i < kept_before(calls, end, n).len() ==> is_addr_of(
                #[trigger] kept_before(calls, end, n)[i],
                peers[i].0,
                peers[i].1,
            ),
    decreases n,
{
    if n > 0 {
        lemma_pushed(peers, calls, more, end, n - 1);
        let (ip, port) = peers[n - 1];
        let before = kept_before(calls, end, n - 1);
        let kept = kept_before(calls, end, n);
        assert(kept == with_dict_peer(before, ip, port));
        assert(is_addr_of(SocketAddr::new(ip, port), ip, port));
        assert forall|i: int| 0 <= i < kept.len() implies is_addr_of(
            #[trigger] kept[i],
            peers[i].0,
            peers[i].1,
        ) by {
            if i < before.len() {
                assert(kept[i] == before[i]);
            }
        }
    }
}

/// Peers that are taken one by one and made the peers of a response are listed each at its own
/// position, the first ten thousand of them, and behind them those of `peers6` and no others.
pub proof fn law_peers_taken_one_by_one_are_listed_in_order(
    peers: Seq<(IpAddr, u16)>,
    calls: Seq<&mut DictPeers>,
    more: Seq<bool>,
    end: DictPeers,
    response: TrackerResponse<'_>,
    peers6: Vec<SocketAddr>,
    addrs: Vec<SocketAddr>,
)
    requires
        calls.len() == peers.len(),
        more.len() == peers.len(),
        forall|i: int|
            0 <= i < peers.len() ==> call_ensures(
                DictPeers::push,
                (calls[i], (#[trigger] peers[i]).0, peers[i].1),
                more[i],
            ) && *final(calls[i]) == (if i + 1 < peers.len() {
                *calls[i + 1]
            } else {
                end
            }),
        call_ensures(
            DictPeers::new,
            (),
            if peers.len() > 0 {
                *calls[0]
            } else {
                end
            },
        ),
        call_ensures(
            DictPeers::into_peers::<'_, SocketAddrV4>,
            (end,),
            response.peers,
        ),
        call_ensures(Peers::<SocketAddrV6>::iter, (&response.peers6,), peers6),
        call_ensures(TrackerResponse::iter_peers, (&response,), addrs),
    ensures
        ({
            let n: int = if peers.len() < 10_000 {
                peers.len() as int
            } else {
                10_000
            };
            &&& addrs@.len() == n + peers6@.len()
            &&& forall|i: int|
                0 <= i < n ==> is_addr_of(#[trigger] addrs@[i], peers[i].0, peers[i].1)
            &&& addrs@.skip(n) == peers6@
        }),
{
    lemma_pushed(peers, calls, more, end, peers.len() as int);
    let kept = kept_before(calls, end, peers.len() as int);
    assert(response.peers.addrs() == kept);
    assert(addrs@ == kept + peers6@);
    assert forall|i: int| 0 <= i < kept.len() implies is_addr_of(
        #[trigger] addrs@[i],
        peers[i].0,
        peers[i].1,
    ) by {
        assert(addrs@[i] == kept[i]);
    }
    assert(addrs@.skip(kept.len() as int) =~= peers6@);
}

/// The same holds of peers that are taken one by one and made the IPv6 peers of a response:
/// they are listed behind those of `peers`.
pub proof fn law_peers6_taken_one_by_one_are_listed_in_order(
    peers: Seq<(IpAddr, u16)>,
    calls: Seq<&mut DictPeers>,
    more: Seq<bool>,
    end: DictPeers,
    response: TrackerResponse<'_>,
    first: Vec<SocketAddr>,
    addrs: Vec<SocketAddr>,
)
    requires
        calls.len() == peers.len(),
        more.len() == peers.len(),
        forall|i: int|
            0 <= i < peers.len() ==> call_ensures(
                DictPeers::push,
                (calls[i], (#[trigger] peers[i]).0, peers[i].1),
                more[i],
            ) && *final(calls[i]) == (if i + 1 < peers.len() {
                *calls[i + 1]
            } else {
                end
            }),
        call_ensures(
            DictPeers::new,
            (),
            if peers.len() > 0 {
                *calls[0]
            } else {
                end
            },
        ),
        call_ensures(
            DictPeers::into_peers::<'_, SocketAddrV6>,
            (end,),
            response.peers6,
        ),
        call_ensures(Peers::<SocketAddrV4>::iter, (&response.peers,), first),
        call_ensures(TrackerResponse::iter_peers, (&response,), addrs),
    ensures
        ({
            let n: int = if peers.len() < 10_000 {
                peers.len() as int
            } else {
                10_000
            };
            let start = first@.len() as int;
            &&& addrs@.len() == start + n
            &&& addrs@.take(start) == first@
            &&& forall|i: int|
                start <= i < start + n ==> is_addr_of(
                    #[trigger] addrs@[i],
                    peers[i - start].0,
                    peers[i - start].1,
                )
        }),
{
    lemma_pushed(peers, calls, more, end, peers.len() as int);
    let kept = kept_before(calls, end, peers.len() as int);
    let start = first@.len() as int;
    assert(response.peers6.addrs() == kept);
    assert(addrs@ == first@ + kept);
    assert(addrs@.take(start) =~= first@);
    assert forall|i: int| start <= i < start + kept.len() implies is_addr_of(
        #[trigger] addrs@[i],
        peers[i - start].0,
        peers[i - start].1,
    ) by {
        assert(addrs@[i] == kept[i - start]);
    }
}

/// Taking a peer says to go on as long as fewer than ten thousand were kept.
pub proof fn law_enough_peers_are_ten_thousand(
    peers: &mut DictPeers,
    ip: IpAddr,
    port: u16,
    more: bool,
)
    requires
        call_ensures(DictPeers::push, (peers, ip, port), more),
    ensures
        more <==> final(peers).addrs().len() < 10_000,
        old(peers).addrs().len() < 10_000 ==> final(peers).addrs().len() == old(
            peers,
        ).addrs().len() + 1,
        old(peers).addrs().len() >= 10_000 ==> final(peers).addrs() == old(peers).addrs(),
{
}

/// A response lists the peers of `peers` and then those of `peers6`.
pub proof fn law_response_lists_both_kinds_of_peers(
    response: TrackerResponse<'_>,
    peers: Vec<SocketAddr>,
    peers6: Vec<SocketAddr>,
    addrs: Vec<SocketAddr>,
)
    requires
        call_ensures(Peers::<SocketAddrV4>::iter, (&response.peers,), peers),
        call_ensures(Peers::<SocketAddrV6>::iter, (&response.peers6,), peers6),
        call_ensures(TrackerResponse::iter_peers, (&response,), addrs),
    ensures
        addrs@ == peers@ + peers6@,
{
}

/// Peers that are there one by one are listed as they are, and by default there are none.
pub proof fn law_dict_peers_are_listed_as_they_are<'a, AddrType: CompactSerialize + Copy>(
    kept: Vec<SocketAddr>,
    addrs: Vec<SocketAddr>,
    none: Peers<'a, AddrType>,
    nobody: Vec<SocketAddr>,
)
    requires
        call_ensures(Peers::<'a, AddrType>::iter, (&Peers::DictPeers(kept),), addrs),
        call_ensures(Peers::<'a, AddrType>::default, (), none),
        call_ensures(Peers::<'a, AddrType>::iter, (&none,), nobody),
    ensures
        addrs@ == kept@,
        nobody@.len() == 0,
{
}

/// Compact peers of an IPv4 list are listed by position: 6 bytes each, the address and then the
/// port, in order. A piece of a peer at the end is left out.
pub proof fn law_compact_v4_peers_are_listed_by_position(
    buf: &[u8],
    list: CompactListInBuffer<'_, SocketAddrV4>,
    addrs: Vec<SocketAddr>,
)
    requires
        call_ensures(CompactListInBuffer::<SocketAddrV4>::new_from_buf, (buf,), list),
        call_ensures(Peers::<SocketAddrV4>::iter, (&Peers::Compact(list),), addrs),
    ensures
        addrs@.len() == buf@.len() / 6,
        forall|i: int|
            0 <= i < addrs@.len() ==> {
                &&& #[trigger] addrs@[i] matches SocketAddr::V4(addr)
                &&& addr.ip.bits == be_value(buf@.subrange(6 * i, 6 * i + 4))
                &&& addr.port == be_value(buf@.subrange(6 * i + 4, 6 * i + 6))
            },
{
    assert(<SocketAddrV4 as CompactSerialize>::compact_len() == 6);
    assert forall|i: int| 0 <= i < addrs@.len() implies {
        &&& #[trigger] addrs@[i] matches SocketAddr::V4(addr)
        &&& addr.ip.bits == be_value(buf@.subrange(6 * i, 6 * i + 4))
        &&& addr.port == be_value(buf@.subrange(6 * i + 4, 6 * i + 6))
    } by {
        let bytes = block(buf@, 6, i);
        assert(bytes =~= buf@.subrange(6 * i, 6 * i + 6));
        assert(bytes.take(4) =~= buf@.subrange(6 * i, 6 * i + 4));
        assert(bytes.skip(4) =~= buf@.subrange(6 * i + 4, 6 * i + 6));
        lemma_pow256_values();
        lemma_be_value_bound(bytes.take(4));
        lemma_be_value_bound(bytes.skip(4));
        assert(list.addrs()[i] == SocketAddrV4::from_compact(bytes));
        assert(addrs@[i] == list.addrs()[i].socket_addr());
    }
}

/// Compact peers of an IPv6 list are listed by position: 18 bytes each, the address and then the
/// port, in order. A piece of a peer at the end is left out.
pub proof fn law_compact_v6_peers_are_listed_by_position(
    buf: &[u8],
    list: CompactListInBuffer<'_, SocketAddrV6>,
    addrs: Vec<SocketAddr>,
)
    requires
        call_ensures(CompactListInBuffer::<SocketAddrV6>::new_from_buf, (buf,), list),
        call_ensures(Peers::<SocketAddrV6>::iter, (&Peers::Compact(list),), addrs),
    ensures
        addrs@.len() == buf@.len() / 18,
        forall|i: int|
            0 <= i < addrs@.len() ==> {
                &&& #[trigger] addrs@[i] matches SocketAddr::V6(addr)
                &&& addr.ip.bits == be_value(buf@.subrange(18 * i, 18 * i + 16))
                &&& addr.port == be_value(buf@.subrange(18 * i + 16, 18 * i + 18))
                &&& addr.flowinfo == 0
                &&& addr.scope_id == 0
            },
{
    assert(<SocketAddrV6 as CompactSerialize>::compact_len() == 18);
    assert forall|i: int| 0 <= i < addrs@.len() implies {
        &&& #[trigger] addrs@[i] matches SocketAddr::V6(addr)
        &&& addr.ip.bits == be_value(buf@.subrange(18 * i, 18 * i + 16))
        &&& addr.port == be_value(buf@.subrange(18 * i + 16, 18 * i + 18))
        &&& addr.flowinfo == 0
        &&& addr.scope_id == 0
    } by {
        let bytes = block(buf@, 18, i);
        assert(bytes =~= buf@.subrange(18 * i, 18 * i + 18));
        assert(bytes.take(16) =~= buf@.subrange(18 * i, 18 * i + 16));
        assert(bytes.skip(16) =~= buf@.subrange(18 * i + 16, 18 * i + 18));
        lemma_pow256_values();
        lemma_be_value_bound(bytes.take(16));
        lemma_be_value_bound(bytes.skip(16));
        assert(list.addrs()[i] == SocketAddrV6::from_compact(bytes));
        assert(addrs@[i] == list.addrs()[i].socket_addr());
    }
}

} // verus!
