//! Numbers and addresses as text.

use vstd::arithmetic::div_mod::{
    lemma_div_decreases, lemma_div_denominator, lemma_fundamental_div_mod,
    lemma_fundamental_div_mod_converse, lemma_mod_bound, lemma_small_mod,
};
use vstd::arithmetic::power::pow;
use vstd::prelude::*;

use crate::addr::{IpAddr, Ipv4Addr, Ipv6Addr};
use crate::wire::{
    be_bytes, be_value, law_number_is_big_endian, law_powers_of_256, lemma_be_bytes_len,
    lemma_be_value_bound, lemma_pow256_values, pow256,
};

verus! {

/// `String::push` appends the character to the end of the string.
pub assume_specification[ String::push ](s: &mut String, ch: char)
    ensures
        final(s)@ == old(s)@.push(ch),
;

/// The digit for `d`: 0 to 9, then a to f.
pub open spec fn digit(d: nat) -> char {
    if d < 10 {
        (48 + d) as char
    } else {
        (87 + d) as char
    }
}

/// `n` written in `base`, the most significant digit first and without leading zeros.
pub open spec fn numeral(n: nat, base: nat) -> Seq<char>
    decreases n,
{
    if n < base || base < 2 {
        seq![digit(n)]
    } else {
        proof {
            lemma_div_decreases(n as int, base as int);
        }
        numeral(n / base, base).push(digit(n % base))
    }
}

/// The number that a digit stands for.
pub open spec fn digit_value(c: char) -> nat {
    if c as nat >= 97 {
        (c as nat - 87) as nat
    } else {
        (c as nat - 48) as nat
    }
}

/// The number that digits stand for in `base`.
pub open spec fn numeral_value(text: Seq<char>, base: nat) -> nat
    decreases text.len(),
{
    if text.len() == 0 {
        0
    } else {
        numeral_value(text.drop_last(), base) * base + digit_value(text.last())
    }
}

/// A number that is written out is read back as it was.
pub proof fn law_numeral_read_back(n: nat, base: nat)
    requires
        2 <= base <= 16,
    ensures
        numeral_value(numeral(n, base), base) == n,
    decreases n,
{
    if n < base {
        assert(numeral(n, base).drop_last() =~= Seq::empty());
        assert(numeral_value(Seq::empty(), base) * base == 0) by (nonlinear_arith)
            requires
                numeral_value(Seq::empty(), base) == 0,
        ;
    } else {
        lemma_fundamental_div_mod(n as int, base as int);
        lemma_div_decreases(n as int, base as int);
        lemma_mod_bound(n as int, base as int);
        law_numeral_read_back(n / base, base);
        assert(numeral(n, base).drop_last() =~= numeral(n / base, base));
        assert((n / base) * base == base * (n / base)) by (nonlinear_arith);
    }
}

/// A number that is written out has only digits below `base` in it.
pub proof fn law_numeral_is_digits(n: nat, base: nat)
    requires
        2 <= base <= 16,
    ensures
        numeral(n, base).len() > 0,
        forall|i: int|
            0 <= i < numeral(n, base).len() ==> exists|d: nat|
                d < base && #[trigger] numeral(n, base)[i] == #[trigger] digit(d),
    decreases n,
{
    if n >= base {
        lemma_div_decreases(n as int, base as int);
        lemma_mod_bound(n as int, base as int);
        law_numeral_is_digits(n / base, base);
        assert forall|i: int| 0 <= i < numeral(n, base).len() implies exists|d: nat|
            d < base && #[trigger] numeral(n, base)[i] == #[trigger] digit(d) by {
            if i < numeral(n, base).len() - 1 {
                assert(numeral(n, base)[i] == numeral(n / base, base)[i]);
            } else {
                assert(numeral(n, base)[i] == digit(n % base));
            }
        }
    } else {
        assert(numeral(n, base)[0] == digit(n));
    }
}

/// Writes `n` in `base` behind `s`.
fn push_numeral(s: &mut String, n: u64, base: u64)
    requires
        2 <= base <= 16,
    ensures
        final(s)@ == old(s)@ + numeral(n as nat, base as nat),
    decreases n,
{
    let ghost number = n as nat;
    let ghost b = base as nat;
    proof {
        lemma_mod_bound(n as int, base as int);
    }
    if n >= base {
        proof {
            lemma_div_decreases(n as int, base as int);
        }
        push_numeral(s, n / base, base);
    }
    let d: u8 = (n % base) as u8;
    let c: char = if d < 10 {
        (48 + d) as char
    } else {
        (87 + d) as char
    };
    s.push(c);
    proof {
        assert(c == digit(number % b));
        if number < b {
            lemma_small_mod(number, b);
            assert(numeral(number, b) =~= seq![digit(number)]);
        } else {
            assert((n / base) as nat == number / b);
        }
        assert(s@ =~= old(s)@ + numeral(number, b));
    }
}

/// Writes a number in decimal.
pub fn decimal(n: u64) -> (text: String)
    ensures
        text@ == numeral(n as nat, 10),
{
    let mut s: String = String::new();
    push_numeral(&mut s, n, 10);
    proof {
        assert(s@ =~= numeral(n as nat, 10));
    }
    s
}

/// An IPv4 address in dotted decimal.
pub open spec fn ipv4_text(ip: Ipv4Addr) -> Seq<char> {
    numeral(ip.bits as nat / 0x100_0000, 10) + "."@ + numeral(
        ip.bits as nat / 0x1_0000 % 0x100,
        10,
    ) + "."@ + numeral(ip.bits as nat / 0x100 % 0x100, 10) + "."@ + numeral(
        ip.bits as nat % 0x100,
        10,
    )
}

/// The eight groups of an IPv6 address.
pub open spec fn segments(ip: Ipv6Addr) -> Seq<nat> {
    seq![
        ip.bits as nat / 0x1_0000_0000_0000_0000_0000_0000_0000,
        ip.bits as nat / 0x1_0000_0000_0000_0000_0000_0000 % 0x1_0000,
        ip.bits as nat / 0x1_0000_0000_0000_0000_0000 % 0x1_0000,
        ip.bits as nat / 0x1_0000_0000_0000_0000 % 0x1_0000,
        ip.bits as nat / 0x1_0000_0000_0000 % 0x1_0000,
        ip.bits as nat / 0x1_0000_0000 % 0x1_0000,
        ip.bits as nat / 0x1_0000 % 0x1_0000,
        ip.bits as nat % 0x1_0000,
    ]
}

/// How many zero groups stand in a row from `i` on.
pub open spec fn zeros_at(groups: Seq<nat>, i: int) -> nat
    decreases groups.len() - i,
{
    if 0 <= i < groups.len() && groups[i] == 0 {
        1 + zeros_at(groups, i + 1)
    } else {
        0
    }
}

/// Where the longest row of zero groups among those from `i` on starts, and its length: the
/// first one of several.
pub open spec fn longest_zeros(groups: Seq<nat>, i: int) -> (int, nat)
    decreases groups.len() - i,
{
    if 0 <= i < groups.len() {
        let behind = longest_zeros(groups, i + 1);
        if zeros_at(groups, i) >= behind.1 {
            (i, zeros_at(groups, i))
        } else {
            behind
        }
    } else {
        (i, 0)
    }
}

/// The groups in hexadecimal, with colons between them.
pub open spec fn groups_text(groups: Seq<nat>) -> Seq<char>
    decreases groups.len(),
{
    if groups.len() == 0 {
        Seq::empty()
    } else if groups.len() == 1 {
        numeral(groups[0], 16)
    } else {
        groups_text(groups.drop_last()) + ":"@ + numeral(groups.last(), 16)
    }
}

/// The IPv4 address that an IPv6 address stands for.
pub open spec fn mapped_ipv4(ip: Ipv6Addr) -> Option<Ipv4Addr> {
    if ip.bits as nat / 0x1_0000_0000 == 0xffff {
        Some(Ipv4Addr { bits: (ip.bits as nat % 0x1_0000_0000) as u32 })
    } else {
        None
    }
}

/// An IPv6 address as text. One that stands for an IPv4 address ends in dotted decimal. In any
/// other, the first of the longest rows of two or more zero groups is left out.
pub open spec fn ipv6_text(ip: Ipv6Addr) -> Seq<char> {
    match mapped_ipv4(ip) {
        Some(ipv4) => "::ffff:"@ + ipv4_text(ipv4),
        None => {
            let groups = segments(ip);
            let (start, len) = longest_zeros(groups, 0);
            if len > 1 {
                groups_text(groups.take(start)) + "::"@ + groups_text(groups.skip(start + len))
            } else {
                groups_text(groups)
            }
        },
    }
}

/// An address as text.
pub open spec fn ip_text(ip: IpAddr) -> Seq<char> {
    match ip {
        IpAddr::V4(ip) => ipv4_text(ip),
        IpAddr::V6(ip) => ipv6_text(ip),
    }
}

/// The groups from `from` up to `to` are zero.
pub open spec fn all_zero(groups: Seq<nat>, from: int, to: int) -> bool {
    &&& 0 <= from <= to <= groups.len()
    &&& forall|j: int| from <= j < to ==> #[trigger] groups[j] == 0
}

/// A row of zero groups reaches from where it starts over its whole length, and no further.
proof fn lemma_zeros_at(groups: Seq<nat>, i: int)
    requires
        0 <= i <= groups.len(),
    ensures
        all_zero(groups, i, i + zeros_at(groups, i)),
        i + zeros_at(groups, i) < groups.len() ==> groups[i + zeros_at(groups, i)] != 0,
    decreases groups.len() - i,
{
    if i < groups.len() && groups[i] == 0 {
        lemma_zeros_at(groups, i + 1);
    }
}

/// No row of zero groups among those from `i` on is longer than the one that is picked, and
/// none that is as long starts before it.
pub proof fn law_longest_zeros(groups: Seq<nat>, i: int)
    requires
        0 <= i <= groups.len(),
    ensures
        ({
            let (start, len) = longest_zeros(groups, i);
            &&& i <= start
            &&& all_zero(groups, start, start + len)
            &&& forall|from: int, to: int|
                i <= from && #[trigger] all_zero(groups, from, to) ==> to - from < len || (to - from
                    == len && (len > 0 ==> start <= from))
        }),
    decreases groups.len() - i,
{
    let (start, len) = longest_zeros(groups, i);
    if i < groups.len() {
        law_longest_zeros(groups, i + 1);
        lemma_zeros_at(groups, i);
        let z = zeros_at(groups, i);
        assert forall|from: int, to: int| i <= from && #[trigger] all_zero(groups, from, to) implies
            to - from < len || (to - from == len && (len > 0 ==> start <= from)) by {
            if from == i && to - from > z {
                assert(groups[i + z] == 0);
            }
        }
    }
}

/// Writes an IPv4 address.
fn push_ipv4(s: &mut String, ip: Ipv4Addr)
    ensures
        final(s)@ == old(s)@ + ipv4_text(ip),
{
    let bits: u64 = ip.bits as u64;
    push_numeral(s, bits / 0x100_0000, 10);
    s.append(".");
    push_numeral(s, bits / 0x1_0000 % 0x100, 10);
    s.append(".");
    push_numeral(s, bits / 0x100 % 0x100, 10);
    s.append(".");
    push_numeral(s, bits % 0x100, 10);
    proof {
        assert(s@ =~= old(s)@ + ipv4_text(ip));
    }
}

/// What the numbers are.
spec fn numbers(v: Seq<u64>) -> Seq<nat> {
    v.map_values(|n: u64| n as nat)
}

/// The groups of an IPv6 address.
fn segments_of(ip: Ipv6Addr) -> (groups: Vec<u64>)
    ensures
        numbers(groups@) == segments(ip),
{
    let bits: u128 = ip.bits;
    let mut groups: Vec<u64> = Vec::new();
    groups.push((bits / 0x1_0000_0000_0000_0000_0000_0000_0000) as u64);
    groups.push((bits / 0x1_0000_0000_0000_0000_0000_0000 % 0x1_0000) as u64);
    groups.push((bits / 0x1_0000_0000_0000_0000_0000 % 0x1_0000) as u64);
    groups.push((bits / 0x1_0000_0000_0000_0000 % 0x1_0000) as u64);
    groups.push((bits / 0x1_0000_0000_0000 % 0x1_0000) as u64);
    groups.push((bits / 0x1_0000_0000 % 0x1_0000) as u64);
    groups.push((bits / 0x1_0000 % 0x1_0000) as u64);
    groups.push((bits % 0x1_0000) as u64);
    proof {
        assert(numbers(groups@) =~= segments(ip));
    }
    groups
}

/// Writes the groups from `from` up to `to`.
fn push_groups(s: &mut String, groups: &Vec<u64>, from: usize, to: usize)
    requires
        from <= to <= groups@.len(),
    ensures
        final(s)@ == old(s)@ + groups_text(numbers(groups@).subrange(from as int, to as int)),
{
    let ghost all = numbers(groups@);
    let mut i: usize = from;
    proof {
        assert(s@ =~= old(s)@ + groups_text(all.subrange(from as int, from as int)));
    }
    while i < to
        invariant
            from <= i <= to <= groups@.len(),
            all == numbers(groups@),
            s@ == old(s)@ + groups_text(all.subrange(from as int, i as int)),
        decreases to - i,
    {
        let ghost done = all.subrange(from as int, i as int);
        let ghost more = all.subrange(from as int, i + 1);
        if i > from {
            s.append(":");
        }
        push_numeral(s, groups[i], 16);
        proof {
            assert(more.drop_last() =~= done);
            assert(more.last() == groups@[i as int]);
            assert(s@ =~= old(s)@ + groups_text(more));
        }
        i = i + 1;
    }
}

/// Finds the longest row of zero groups: where it starts and its length.
fn longest_zeros_of(groups: &Vec<u64>) -> (r: (usize, usize))
    ensures
        longest_zeros(numbers(groups@), 0) == (r.0 as int, r.1 as nat),
{
    let ghost all = numbers(groups@);
    let count: usize = groups.len();
    let mut i: usize = count;
    let mut zeros: usize = 0;
    let mut start: usize = i;
    let mut len: usize = 0;
    while i > 0
        invariant
            i <= count == groups@.len(),
            all == numbers(groups@),
            zeros == zeros_at(all, i as int),
            zeros <= count - i,
            longest_zeros(all, i as int) == (start as int, len as nat),
        decreases i,
    {
        i = i - 1;
        zeros = if groups[i] == 0 {
            zeros + 1
        } else {
            0
        };
        if zeros >= len {
            start = i;
            len = zeros;
        }
    }
    (start, len)
}

/// Writes an IPv6 address.
fn push_ipv6(s: &mut String, ip: Ipv6Addr)
    ensures
        final(s)@ == old(s)@ + ipv6_text(ip),
{
    if ip.bits / 0x1_0000_0000 == 0xffff {
        s.append("::ffff:");
        push_ipv4(s, Ipv4Addr { bits: (ip.bits % 0x1_0000_0000) as u32 });
        proof {
            assert(s@ =~= old(s)@ + ipv6_text(ip));
        }
        return;
    }
    let groups = segments_of(ip);
    let ghost all = segments(ip);
    let (start, len) = longest_zeros_of(&groups);
    proof {
        law_longest_zeros(all, 0);
        assert(all.subrange(0, start as int) =~= all.take(start as int));
        assert(all.subrange(start + len, all.len() as int) =~= all.skip(start + len));
        assert(all.subrange(0, all.len() as int) =~= all);
    }
    if len > 1 {
        push_groups(s, &groups, 0, start);
        s.append("::");
        push_groups(s, &groups, start + len, groups.len());
    } else {
        push_groups(s, &groups, 0, groups.len());
    }
    proof {
        assert(s@ =~= old(s)@ + ipv6_text(ip));
    }
}

impl IpAddr {
    /// The address as text.
    pub fn to_text(&self) -> (text: String)
        ensures
            text@ == ip_text(*self),
    {
        let mut s: String = String::new();
        match self {
            IpAddr::V4(ip) => push_ipv4(&mut s, *ip),
            IpAddr::V6(ip) => push_ipv6(&mut s, *ip),
        }
        proof {
            assert(s@ =~= ip_text(*self));
        }
        s
    }
}

/// The character is a lower-case hexadecimal digit, a dot or a colon.
pub open spec fn is_address_char(c: char) -> bool {
    ||| '0' <= c <= '9'
    ||| 'a' <= c <= 'f'
    ||| c == '.'
    ||| c == ':'
}

/// All characters of the text are such as addresses are made of.
pub open spec fn is_address_text(text: Seq<char>) -> bool {
    forall|i: int| 0 <= i < text.len() ==> is_address_char(#[trigger] text[i])
}

proof fn lemma_numeral_chars(n: nat, base: nat)
    requires
        2 <= base <= 16,
    ensures
        is_address_text(numeral(n, base)),
{
    law_numeral_is_digits(n, base);
    assert forall|i: int| 0 <= i < numeral(n, base).len() implies is_address_char(
        #[trigger] numeral(n, base)[i],
    ) by {
        let d = choose|d: nat| d < base && numeral(n, base)[i] == #[trigger] digit(d);
        assert(is_address_char(digit(d)));
    }
}

proof fn lemma_groups_chars(groups: Seq<nat>)
    ensures
        is_address_text(groups_text(groups)),
    decreases groups.len(),
{
    reveal_strlit(":");
    if groups.len() == 1 {
        lemma_numeral_chars(groups[0], 16);
    } else if groups.len() > 1 {
        lemma_groups_chars(groups.drop_last());
        lemma_numeral_chars(groups.last(), 16);
    }
}

proof fn lemma_ipv4_chars(ip: Ipv4Addr)
    ensures
        is_address_text(ipv4_text(ip)),
{
    reveal_strlit(".");
    lemma_numeral_chars(ip.bits as nat / 0x100_0000, 10);
    lemma_numeral_chars(ip.bits as nat / 0x1_0000 % 0x100, 10);
    lemma_numeral_chars(ip.bits as nat / 0x100 % 0x100, 10);
    lemma_numeral_chars(ip.bits as nat % 0x100, 10);
}

/// An address as text is made of lower-case hexadecimal digits, dots and colons.
pub proof fn law_address_chars(ip: IpAddr)
    ensures
        is_address_text(ip_text(ip)),
{
    reveal_strlit("::ffff:");
    reveal_strlit("::");
    match ip {
        IpAddr::V4(ip) => lemma_ipv4_chars(ip),
        IpAddr::V6(ip) => match mapped_ipv4(ip) {
            Some(ipv4) => lemma_ipv4_chars(ipv4),
            None => {
                let groups = segments(ip);
                let (start, len) = longest_zeros(groups, 0);
                lemma_groups_chars(groups);
                lemma_groups_chars(groups.take(start));
                lemma_groups_chars(groups.skip(start + len));
            },
        },
    }
}

/// The character does not occur in the text.
pub open spec fn is_free_of(text: Seq<char>, c: char) -> bool {
    forall|i: int| 0 <= i < text.len() ==> #[trigger] text[i] != c
}

/// Where the first part is free of a character, and the second is empty or begins with it, the
/// whole fixes both parts.
pub proof fn lemma_cut_at_first(
    p: Seq<char>,
    x: Seq<char>,
    q: Seq<char>,
    y: Seq<char>,
    c: char,
)
    requires
        p + x == q + y,
        is_free_of(p, c),
        is_free_of(q, c),
        x.len() > 0 ==> x[0] == c,
        y.len() > 0 ==> y[0] == c,
    ensures
        p == q,
        x == y,
{
    let whole = p + x;
    assert(whole.len() == p.len() + x.len());
    assert((q + y).len() == q.len() + y.len());
    if p.len() < q.len() {
        assert(whole[p.len() as int] == x[0]);
        assert((q + y)[p.len() as int] == q[p.len() as int]);
    } else if q.len() < p.len() {
        assert((q + y)[q.len() as int] == y[0]);
        assert(whole[q.len() as int] == p[q.len() as int]);
    }
    assert(whole.take(p.len() as int) =~= p);
    assert((q + y).take(q.len() as int) =~= q);
    assert(whole.skip(p.len() as int) =~= x);
    assert((q + y).skip(q.len() as int) =~= y);
}

/// Where the last part is free of a character, and what stands before it is empty or ends in
/// it, the whole fixes both parts.
proof fn lemma_cut_at_last(p: Seq<char>, x: Seq<char>, q: Seq<char>, y: Seq<char>, c: char)
    requires
        p + x == q + y,
        is_free_of(x, c),
        is_free_of(y, c),
        p.len() > 0 ==> p.last() == c,
        q.len() > 0 ==> q.last() == c,
    ensures
        p == q,
        x == y,
{
    let whole = p + x;
    assert(whole.len() == p.len() + x.len());
    assert((q + y).len() == q.len() + y.len());
    if p.len() < q.len() {
        assert((q + y)[q.len() - 1] == q.last());
        assert(whole[q.len() - 1] == x[q.len() - 1 - p.len()]);
    } else if q.len() < p.len() {
        assert(whole[p.len() - 1] == p.last());
        assert((q + y)[p.len() - 1] == y[p.len() - 1 - q.len()]);
    }
    assert(whole.take(p.len() as int) =~= p);
    assert((q + y).take(q.len() as int) =~= q);
    assert(whole.skip(p.len() as int) =~= x);
    assert((q + y).skip(q.len() as int) =~= y);
}

/// A number that is written out holds no dot and no colon, and is not empty.
proof fn lemma_numeral_is_free(n: nat, base: nat)
    requires
        2 <= base <= 16,
    ensures
        numeral(n, base).len() > 0,
        is_free_of(numeral(n, base), '.'),
        is_free_of(numeral(n, base), ':'),
{
    law_numeral_is_digits(n, base);
    assert forall|i: int| 0 <= i < numeral(n, base).len() implies #[trigger] numeral(n, base)[i]
        != '.' && numeral(n, base)[i] != ':' by {
        let d = choose|d: nat| d < base && numeral(n, base)[i] == #[trigger] digit(d);
        assert(digit(d) != '.' && digit(d) != ':');
    }
}

/// Different numbers are written differently.
pub proof fn law_numeral_is_one_to_one(m: nat, n: nat, base: nat)
    requires
        2 <= base <= 16,
    ensures
        numeral(m, base) == numeral(n, base) <==> m == n,
{
    law_numeral_read_back(m, base);
    law_numeral_read_back(n, base);
}

/// Two numbers with a dot and something behind them are written alike only if they are the
/// same and the same stands behind them.
proof fn lemma_dotted_front(m: nat, x: Seq<char>, n: nat, y: Seq<char>)
    requires
        numeral(m, 10) + ("."@ + x) == numeral(n, 10) + ("."@ + y),
    ensures
        m == n,
        x == y,
{
    reveal_strlit(".");
    lemma_numeral_is_free(m, 10);
    lemma_numeral_is_free(n, 10);
    lemma_cut_at_first(numeral(m, 10), "."@ + x, numeral(n, 10), "."@ + y, '.');
    law_numeral_is_one_to_one(m, n, 10);
    assert(("."@ + x).skip(1) =~= x);
    assert(("."@ + y).skip(1) =~= y);
}

/// Four numbers with dots between them.
spec fn dotted(n: (nat, nat, nat, nat)) -> Seq<char> {
    numeral(n.0, 10) + ("."@ + (numeral(n.1, 10) + ("."@ + (numeral(n.2, 10) + ("."@ + numeral(
        n.3,
        10,
    ))))))
}

/// The numbers that an IPv4 address is written with.
spec fn octets(ip: Ipv4Addr) -> (nat, nat, nat, nat) {
    let bits = ip.bits as nat;
    (bits / 0x100_0000, bits / 0x1_0000 % 0x100, bits / 0x100 % 0x100, bits % 0x100)
}

proof fn lemma_ipv4_text_is_dotted(ip: Ipv4Addr)
    ensures
        ipv4_text(ip) == dotted(octets(ip)),
{
    let n = octets(ip);
    let n0 = numeral(n.0, 10);
    let n1 = numeral(n.1, 10);
    let n2 = numeral(n.2, 10);
    let n3 = numeral(n.3, 10);
    let dot = "."@;
    assert(n0 + dot + n1 + dot + n2 + dot + n3 =~= n0 + (dot + (n1 + (dot + (n2 + (dot + n3))))));
}

proof fn lemma_dotted_is_one_to_one(m: (nat, nat, nat, nat), n: (nat, nat, nat, nat))
    requires
        dotted(m) == dotted(n),
    ensures
        m == n,
{
    let x3 = numeral(m.3, 10);
    let y3 = numeral(n.3, 10);
    let x2 = numeral(m.2, 10) + ("."@ + x3);
    let y2 = numeral(n.2, 10) + ("."@ + y3);
    let x1 = numeral(m.1, 10) + ("."@ + x2);
    let y1 = numeral(n.1, 10) + ("."@ + y2);
    lemma_dotted_front(m.0, x1, n.0, y1);
    lemma_dotted_front(m.1, x2, n.1, y2);
    lemma_dotted_front(m.2, x3, n.2, y3);
    law_numeral_is_one_to_one(m.3, n.3, 10);
}

proof fn lemma_octets_are_one_to_one(a: Ipv4Addr, b: Ipv4Addr)
    requires
        octets(a) == octets(b),
    ensures
        a == b,
{
    let x = a.bits as nat;
    let y = b.bits as nat;
    assert(x == x / 0x100 * 0x100 + x % 0x100);
    assert(y == y / 0x100 * 0x100 + y % 0x100);
    assert(x / 0x100 == x / 0x1_0000 * 0x100 + x / 0x100 % 0x100);
    assert(y / 0x100 == y / 0x1_0000 * 0x100 + y / 0x100 % 0x100);
    assert(x / 0x1_0000 == x / 0x100_0000 * 0x100 + x / 0x1_0000 % 0x100);
    assert(y / 0x1_0000 == y / 0x100_0000 * 0x100 + y / 0x1_0000 % 0x100);
}

/// Different IPv4 addresses are written differently.
proof fn lemma_ipv4_text_is_one_to_one(a: Ipv4Addr, b: Ipv4Addr)
    requires
        ipv4_text(a) == ipv4_text(b),
    ensures
        a == b,
{
    lemma_ipv4_text_is_dotted(a);
    lemma_ipv4_text_is_dotted(b);
    lemma_dotted_is_one_to_one(octets(a), octets(b));
    lemma_octets_are_one_to_one(a, b);
}

/// Different lists of groups are written differently.
proof fn lemma_groups_text_is_one_to_one(a: Seq<nat>, b: Seq<nat>)
    requires
        groups_text(a) == groups_text(b),
    ensures
        a == b,
    decreases a.len() + b.len(),
{
    reveal_strlit(":");
    lemma_groups_text_shape(a);
    lemma_groups_text_shape(b);
    if a.len() > 0 && b.len() > 0 {
        lemma_numeral_is_free(a.last(), 16);
        lemma_numeral_is_free(b.last(), 16);
        let front_a = if a.len() == 1 {
            Seq::empty()
        } else {
            groups_text(a.drop_last()) + ":"@
        };
        let front_b = if b.len() == 1 {
            Seq::empty()
        } else {
            groups_text(b.drop_last()) + ":"@
        };
        assert(groups_text(a) =~= front_a + numeral(a.last(), 16));
        assert(groups_text(b) =~= front_b + numeral(b.last(), 16));
        lemma_cut_at_last(
            front_a,
            numeral(a.last(), 16),
            front_b,
            numeral(b.last(), 16),
            ':',
        );
        law_numeral_is_one_to_one(a.last(), b.last(), 16);
        if a.len() > 1 && b.len() > 1 {
            assert(front_a.drop_last() =~= groups_text(a.drop_last()));
            assert(front_b.drop_last() =~= groups_text(b.drop_last()));
            lemma_groups_text_is_one_to_one(a.drop_last(), b.drop_last());
        }
        assert(a =~= a.drop_last().push(a.last()));
        assert(b =~= b.drop_last().push(b.last()));
        assert(a.len() == 1 ==> a.drop_last() =~= Seq::empty());
        assert(b.len() == 1 ==> b.drop_last() =~= Seq::empty());
    } else {
        assert(a =~= b);
    }
}

/// Two colons stand next to each other in the text.
spec fn has_gap(text: Seq<char>) -> bool {
    exists|i: int| is_gap(text, i)
}

/// A colon stands at `i`, and one behind it.
spec fn is_gap(text: Seq<char>, i: int) -> bool {
    0 <= i && i + 1 < text.len() && text[i] == ':' && text[i + 1] == ':'
}

/// Groups as text hold no dot and no two colons in a row, and neither begin nor end with a
/// colon.
proof fn lemma_groups_text_shape(groups: Seq<nat>)
    ensures
        groups.len() > 0 <==> groups_text(groups).len() > 0,
        groups.len() > 0 ==> groups_text(groups)[0] != ':' && groups_text(groups).last() != ':',
        is_free_of(groups_text(groups), '.'),
        !has_gap(groups_text(groups)),
    decreases groups.len(),
{
    reveal_strlit(":");
    let text = groups_text(groups);
    if groups.len() == 1 {
        lemma_numeral_is_free(groups[0], 16);
    } else if groups.len() > 1 {
        let front = groups_text(groups.drop_last());
        let last = numeral(groups.last(), 16);
        lemma_groups_text_shape(groups.drop_last());
        lemma_numeral_is_free(groups.last(), 16);
        assert(text == front + ":"@ + last);
        assert forall|i: int| 0 <= i < text.len() implies #[trigger] text[i] != '.' by {
            if i < front.len() {
                assert(text[i] == front[i]);
            } else if i > front.len() {
                assert(text[i] == last[i - front.len() - 1]);
            }
        }
        assert forall|i: int| !is_gap(text, i) by {
            if is_gap(text, i) {
                if i + 1 < front.len() {
                    assert(is_gap(front, i));
                } else if i + 1 == front.len() {
                    assert(text[i] == front.last());
                } else if i == front.len() {
                    assert(text[i + 1] == last[0]);
                } else {
                    assert(text[i] == last[i - front.len() - 1]);
                }
            }
        }
    }
}

/// The groups of an IPv6 address make up the address.
proof fn lemma_segments_are_one_to_one(a: Ipv6Addr, b: Ipv6Addr)
    requires
        segments(a) == segments(b),
    ensures
        a == b,
{
    lemma_bits_of_segments(a);
    lemma_bits_of_segments(b);
}

/// The number that eight groups stand for.
spec fn joined(g: Seq<nat>) -> nat {
    ((((((g[0] * 0x1_0000 + g[1]) * 0x1_0000 + g[2]) * 0x1_0000 + g[3]) * 0x1_0000 + g[4])
        * 0x1_0000 + g[5]) * 0x1_0000 + g[6]) * 0x1_0000 + g[7]
}

/// A quotient taken apart into its last group and what stands before it.
proof fn lemma_last_group(x: nat, d: nat, wider: nat)
    requires
        d > 0,
        wider == d * 0x1_0000,
    ensures
        x / d == x / wider * 0x1_0000 + x / d % 0x1_0000,
{
    lemma_div_denominator(x as int, d as int, 0x1_0000);
    lemma_fundamental_div_mod((x / d) as int, 0x1_0000);
}

proof fn lemma_bits_of_segments(ip: Ipv6Addr)
    ensures
        ip.bits == joined(segments(ip)),
{
    let x = ip.bits as nat;
    lemma_last_group(x, 1, 0x1_0000);
    lemma_last_group(x, 0x1_0000, 0x1_0000_0000);
    lemma_last_group(x, 0x1_0000_0000, 0x1_0000_0000_0000);
    lemma_last_group(x, 0x1_0000_0000_0000, 0x1_0000_0000_0000_0000);
    lemma_last_group(x, 0x1_0000_0000_0000_0000, 0x1_0000_0000_0000_0000_0000);
    lemma_last_group(
        x,
        0x1_0000_0000_0000_0000_0000,
        0x1_0000_0000_0000_0000_0000_0000,
    );
    lemma_last_group(
        x,
        0x1_0000_0000_0000_0000_0000_0000,
        0x1_0000_0000_0000_0000_0000_0000_0000,
    );
}

/// An IPv6 address that stands for no IPv4 address, with a row of zero groups left out or not.
spec fn hex_text(groups: Seq<nat>) -> Seq<char> {
    let (start, len) = longest_zeros(groups, 0);
    if len > 1 {
        groups_text(groups.take(start)) + "::"@ + groups_text(groups.skip(start + len))
    } else {
        groups_text(groups)
    }
}

/// The groups of an address as text hold no dot, and two colons in a row exactly where zeros
/// are left out, first behind the groups before the zeros.
proof fn lemma_hex_text_shape(groups: Seq<nat>)
    ensures
        is_free_of(hex_text(groups), '.'),
        ({
            let (start, len) = longest_zeros(groups, 0);
            let before = groups_text(groups.take(start)).len() as int;
            &&& len > 1 ==> is_gap(hex_text(groups), before) && forall|i: int|
                i < before ==> !is_gap(hex_text(groups), i)
            &&& len <= 1 ==> !has_gap(hex_text(groups))
        }),
{
    reveal_strlit("::");
    let (start, len) = longest_zeros(groups, 0);
    let text = hex_text(groups);
    lemma_groups_text_shape(groups);
    if len > 1 {
        let front = groups_text(groups.take(start));
        let back = groups_text(groups.skip(start + len));
        lemma_groups_text_shape(groups.take(start));
        lemma_groups_text_shape(groups.skip(start + len));
        assert(text == front + "::"@ + back);
        assert(text[front.len() as int] == ':' && text[front.len() as int + 1] == ':');
        assert forall|i: int| 0 <= i < text.len() implies #[trigger] text[i] != '.' by {
            if i < front.len() {
                assert(text[i] == front[i]);
            } else if i >= front.len() + 2 {
                assert(text[i] == back[i - front.len() - 2]);
            }
        }
        assert forall|i: int| i < front.len() implies !is_gap(text, i) by {
            if is_gap(text, i) {
                assert(text[i] == front[i]);
                if i + 1 < front.len() {
                    assert(is_gap(front, i));
                } else {
                    assert(front[i] == front.last());
                    if groups.take(start).len() == 0 {
                        assert(front.len() == 0);
                    }
                }
            }
        }
    }
}

/// Different lists of eight groups are written differently.
proof fn lemma_hex_text_is_one_to_one(a: Seq<nat>, b: Seq<nat>)
    requires
        a.len() == b.len(),
        hex_text(a) == hex_text(b),
    ensures
        a == b,
{
    reveal_strlit("::");
    let text = hex_text(a);
    let (start_a, len_a) = longest_zeros(a, 0);
    let (start_b, len_b) = longest_zeros(b, 0);
    lemma_hex_text_shape(a);
    lemma_hex_text_shape(b);
    if len_a > 1 && len_b > 1 {
        let front_a = groups_text(a.take(start_a));
        let front_b = groups_text(b.take(start_b));
        let back_a = groups_text(a.skip(start_a + len_a));
        let back_b = groups_text(b.skip(start_b + len_b));
        assert(front_a.len() == front_b.len());
        assert(text.take(front_a.len() as int) =~= front_a);
        assert(text.take(front_b.len() as int) =~= front_b);
        assert(text.skip(front_a.len() as int + 2) =~= back_a);
        assert(text.skip(front_b.len() as int + 2) =~= back_b);
        lemma_groups_text_is_one_to_one(a.take(start_a), b.take(start_b));
        lemma_groups_text_is_one_to_one(a.skip(start_a + len_a), b.skip(start_b + len_b));
        law_longest_zeros(a, 0);
        law_longest_zeros(b, 0);
        assert(a.take(start_a).len() == start_a);
        assert(b.take(start_b).len() == start_b);
        assert(a.skip(start_a + len_a).len() == a.len() - start_a - len_a);
        assert(b.skip(start_b + len_b).len() == b.len() - start_b - len_b);
        assert forall|i: int| 0 <= i < a.len() implies a[i] == b[i] by {
            if i < start_a {
                assert(a.take(start_a)[i] == b.take(start_b)[i]);
            } else if i >= start_a + len_a {
                assert(a.skip(start_a + len_a)[i - start_a - len_a] == b.skip(start_b + len_b)[i
                    - start_b - len_b]);
            }
        }
        assert(a =~= b);
    } else if len_a <= 1 && len_b <= 1 {
        lemma_groups_text_is_one_to_one(a, b);
    } else if len_a > 1 {
        assert(is_gap(text, groups_text(a.take(start_a)).len() as int));
    } else {
        assert(is_gap(text, groups_text(b.take(start_b)).len() as int));
    }
}

/// An IPv4 address as text holds dots and no colon.
proof fn lemma_ipv4_text_shape(ip: Ipv4Addr)
    ensures
        is_free_of(ipv4_text(ip), ':'),
        !is_free_of(ipv4_text(ip), '.'),
{
    reveal_strlit(".");
    let n = octets(ip);
    lemma_numeral_is_free(n.0, 10);
    lemma_numeral_is_free(n.1, 10);
    lemma_numeral_is_free(n.2, 10);
    lemma_numeral_is_free(n.3, 10);
    lemma_ipv4_text_is_dotted(ip);
    lemma_free_of_both("."@, numeral(n.3, 10), ':');
    lemma_free_of_both(numeral(n.2, 10), "."@ + numeral(n.3, 10), ':');
    let x2 = numeral(n.2, 10) + ("."@ + numeral(n.3, 10));
    lemma_free_of_both("."@, x2, ':');
    lemma_free_of_both(numeral(n.1, 10), "."@ + x2, ':');
    let x1 = numeral(n.1, 10) + ("."@ + x2);
    lemma_free_of_both("."@, x1, ':');
    lemma_free_of_both(numeral(n.0, 10), "."@ + x1, ':');
    assert(dotted(n)[numeral(n.0, 10).len() as int] == '.');
}

proof fn lemma_free_of_both(a: Seq<char>, b: Seq<char>, c: char)
    requires
        is_free_of(a, c),
        is_free_of(b, c),
    ensures
        is_free_of(a + b, c),
{
    assert forall|i: int| 0 <= i < (a + b).len() implies #[trigger] (a + b)[i] != c by {
        if i < a.len() {
            assert((a + b)[i] == a[i]);
        } else {
            assert((a + b)[i] == b[i - a.len()]);
        }
    }
}

/// An IPv6 address as text holds a colon, and a dot exactly where it stands for an IPv4
/// address.
proof fn lemma_ipv6_text_shape(ip: Ipv6Addr)
    ensures
        !is_free_of(ipv6_text(ip), ':'),
        is_free_of(ipv6_text(ip), '.') <==> mapped_ipv4(ip) is None,
{
    reveal_strlit("::ffff:");
    reveal_strlit(":");
    let text = ipv6_text(ip);
    match mapped_ipv4(ip) {
        Some(ipv4) => {
            lemma_ipv4_text_shape(ipv4);
            let tail = ipv4_text(ipv4);
            let i = choose|i: int| 0 <= i < tail.len() && tail[i] == '.';
            assert(text[7 + i] == tail[i]);
            assert(text[0] == ':');
        },
        None => {
            let groups = segments(ip);
            let (start, len) = longest_zeros(groups, 0);
            lemma_hex_text_shape(groups);
            assert(text == hex_text(groups));
            if len > 1 {
                let i = groups_text(groups.take(start)).len() as int;
                assert(is_gap(text, i));
                assert(text[i] == ':');
            } else {
                let i = groups_text(groups.drop_last()).len() as int;
                assert(text == groups_text(groups.drop_last()) + ":"@ + numeral(
                    groups.last(),
                    16,
                ));
                assert(text[i] == ':');
            }
        },
    }
}

/// Different addresses are written differently.
pub proof fn law_address_text_is_one_to_one(a: IpAddr, b: IpAddr)
    ensures
        ip_text(a) == ip_text(b) <==> a == b,
{
    if ip_text(a) == ip_text(b) {
        match (a, b) {
            (IpAddr::V4(x), IpAddr::V4(y)) => lemma_ipv4_text_is_one_to_one(x, y),
            (IpAddr::V4(x), IpAddr::V6(y)) => {
                lemma_ipv4_text_shape(x);
                lemma_ipv6_text_shape(y);
            },
            (IpAddr::V6(x), IpAddr::V4(y)) => {
                lemma_ipv6_text_shape(x);
                lemma_ipv4_text_shape(y);
            },
            (IpAddr::V6(x), IpAddr::V6(y)) => lemma_ipv6_text_is_one_to_one(x, y),
        }
    }
}

proof fn lemma_ipv6_text_is_one_to_one(a: Ipv6Addr, b: Ipv6Addr)
    requires
        ipv6_text(a) == ipv6_text(b),
    ensures
        a == b,
{
    lemma_ipv6_text_shape(a);
    lemma_ipv6_text_shape(b);
    match (mapped_ipv4(a), mapped_ipv4(b)) {
        (Some(x), Some(y)) => {
            let front = "::ffff:"@.len() as int;
            assert(ipv6_text(a).skip(front) =~= ipv4_text(x));
            assert(ipv6_text(b).skip(front) =~= ipv4_text(y));
            lemma_ipv4_text_is_one_to_one(x, y);
        },
        (None, None) => {
            assert(ipv6_text(a) == hex_text(segments(a)));
            assert(ipv6_text(b) == hex_text(segments(b)));
            lemma_hex_text_is_one_to_one(segments(a), segments(b));
            lemma_segments_are_one_to_one(a, b);
        },
        _ => {},
    }
}

/// Digits count by their place: those in front by as many powers of the base as digits stand
/// behind them. A digit alone is its place among 0 to 9 and a to f.
pub proof fn law_digits_count_by_place(front: Seq<char>, behind: Seq<char>, base: nat, d: int)
    requires
        0 <= d < 16,
    ensures
        digit(d as nat) == "0123456789abcdef"@[d],
        numeral_value(Seq::empty(), base) == 0,
        numeral_value(seq!["0123456789abcdef"@[d]], base) == d,
        numeral_value(front + behind, base) as int == numeral_value(front, base) * pow(
            base as int,
            behind.len(),
        ) + numeral_value(behind, base),
    decreases behind.len(),
{
    reveal_strlit("0123456789abcdef");
    reveal(pow);
    let c = "0123456789abcdef"@[d];
    let alone = seq![c];
    assert(alone.drop_last() =~= Seq::empty());
    assert(numeral_value(Seq::empty(), base) * base == 0) by (nonlinear_arith)
        requires
            numeral_value(Seq::empty(), base) == 0,
    ;
    assert(digit(d as nat) == c && digit_value(c) == d);
    if behind.len() == 0 {
        assert(front + behind =~= front);
        assert(numeral_value(front, base) * 1 == numeral_value(front, base));
    } else {
        let rest = behind.drop_last();
        law_digits_count_by_place(front, rest, base, d);
        assert((front + behind).drop_last() =~= front + rest);
        let x = numeral_value(front, base) as int;
        let y = numeral_value(rest, base) as int;
        let p = pow(base as int, rest.len());
        let b = base as int;
        assert((x * p + y) * b == x * (b * p) + y * b) by (nonlinear_arith);
    }
}

/// A number is written without needless zeros in front.
pub proof fn law_numeral_has_no_leading_zero(n: nat, base: nat)
    requires
        2 <= base <= 16,
    ensures
        numeral(n, base)[0] == '0' <==> n == 0,
        n == 0 ==> numeral(n, base).len() == 1,
    decreases n,
{
    if n >= base {
        lemma_div_decreases(n as int, base as int);
        law_numeral_is_digits(n / base, base);
        law_numeral_has_no_leading_zero(n / base, base);
        assert(numeral(n, base)[0] == numeral(n / base, base)[0]);
        assert(n / base > 0) by (nonlinear_arith)
            requires
                n >= base,
                base >= 2,
        ;
    }
}

/// A number in decimal is made of decimal digits, begins with a zero only where it is zero, and
/// reads as the number.
pub proof fn law_decimal_reads_as_the_number(n: u64, text: String)
    requires
        call_ensures(decimal, (n,), text),
    ensures
        text@.len() > 0,
        forall|i: int| 0 <= i < text@.len() ==> '0' <= #[trigger] text@[i] <= '9',
        text@[0] == '0' ==> n == 0 && text@.len() == 1,
        numeral_value(text@, 10) == n,
{
    law_numeral_is_digits(n as nat, 10);
    law_numeral_has_no_leading_zero(n as nat, 10);
    law_numeral_read_back(n as nat, 10);
    assert forall|i: int| 0 <= i < text@.len() implies '0' <= #[trigger] text@[i] <= '9' by {
        let d = choose|d: nat| d < 10 && numeral(n as nat, 10)[i] == #[trigger] digit(d);
        assert('0' <= digit(d) <= '9');
    }
}

/// An IPv4 address is written as its four bytes, in order, in decimal and with dots between
/// them.
pub proof fn law_ipv4_is_written_as_its_bytes(ip: Ipv4Addr, text: String)
    requires
        call_ensures(IpAddr::to_text, (&IpAddr::V4(ip),), text),
    ensures
        ({
            let bytes = be_bytes(ip.bits as nat, 4);
            text@ == numeral(bytes[0] as nat, 10) + "."@ + numeral(bytes[1] as nat, 10) + "."@
                + numeral(bytes[2] as nat, 10) + "."@ + numeral(bytes[3] as nat, 10)
        }),
{
    lemma_ipv4_bytes(ip);
}

proof fn lemma_ipv4_bytes(ip: Ipv4Addr)
    ensures
        ({
            let bytes = be_bytes(ip.bits as nat, 4);
            ipv4_text(ip) == numeral(bytes[0] as nat, 10) + "."@ + numeral(bytes[1] as nat, 10)
                + "."@ + numeral(bytes[2] as nat, 10) + "."@ + numeral(bytes[3] as nat, 10)
        }),
{
    let x = ip.bits as nat;
    reveal_with_fuel(be_bytes, 5);
    let bytes = be_bytes(x, 4);
    lemma_be_bytes_len(x, 4);
    lemma_be_bytes_len(x / 256, 3);
    lemma_be_bytes_len(x / 256 / 256, 2);
    lemma_be_bytes_len(x / 256 / 256 / 256, 1);
    lemma_div_denominator(x as int, 256, 256);
    lemma_div_denominator(x as int, 0x1_0000, 256);
    assert(bytes[3] == x % 256);
    assert(bytes[2] == x / 256 % 256);
    assert(bytes[1] == x / 256 / 256 % 256);
    assert(bytes[0] == x / 256 / 256 / 256 % 256);
    assert(x / 0x100_0000 < 0x100);
}

/// The groups of an IPv6 address are its bytes, two by two.
pub proof fn law_groups_are_pairs_of_bytes(ip: Ipv6Addr, bytes: Seq<u8>)
    requires
        bytes.len() == 16,
        be_value(bytes) == ip.bits,
    ensures
        segments(ip).len() == 8,
        forall|i: int|
            0 <= i < 8 ==> #[trigger] segments(ip)[i] == be_value(bytes.subrange(2 * i, 2 * i + 2)),
{
    let x = ip.bits as nat;
    lemma_group_of_bytes(bytes, 7);
    lemma_group_of_bytes(bytes, 6);
    lemma_group_of_bytes(bytes, 5);
    lemma_group_of_bytes(bytes, 4);
    lemma_group_of_bytes(bytes, 3);
    lemma_group_of_bytes(bytes, 2);
    lemma_group_of_bytes(bytes, 1);
    lemma_group_of_bytes(bytes, 0);
    reveal_with_fuel(pow256, 17);
    lemma_be_value_bound(bytes);
    assert(x / 0x1_0000_0000_0000_0000_0000_0000_0000 < 0x1_0000);
    assert(pow256(14) == 0x1_0000_0000_0000_0000_0000_0000_0000);
    assert(pow256(12) == 0x1_0000_0000_0000_0000_0000_0000);
    assert(pow256(10) == 0x1_0000_0000_0000_0000_0000);
    assert(pow256(6) == 0x1_0000_0000_0000);
    let g = segments(ip);
    assert(g[0] == be_value(bytes.subrange(0, 2)));
    assert(g[1] == be_value(bytes.subrange(2, 4)));
    assert(g[2] == be_value(bytes.subrange(4, 6)));
    assert(g[3] == be_value(bytes.subrange(6, 8)));
    assert(g[4] == be_value(bytes.subrange(8, 10)));
    assert(g[5] == be_value(bytes.subrange(10, 12)));
    assert(g[6] == be_value(bytes.subrange(12, 14)));
    assert(pow256(0) == 1 && x / 1 == x);
    assert(g[7] == be_value(bytes.subrange(14, 16)));
}

/// Two bytes are found again in the number that they are part of.
proof fn lemma_group_of_bytes(bytes: Seq<u8>, i: int)
    requires
        bytes.len() == 16,
        0 <= i < 8,
    ensures
        be_value(bytes) / pow256((14 - 2 * i) as nat) % 0x1_0000 == be_value(
            bytes.subrange(2 * i, 2 * i + 2),
        ),
{
    let behind = bytes.skip(2 * i + 2);
    let pair = bytes.subrange(2 * i, 2 * i + 2);
    let front = bytes.take(2 * i);
    let p = pow256((14 - 2 * i) as nat) as int;
    law_powers_of_256((14 - 2 * i) as nat);
    law_powers_of_256(2);
    lemma_pow256_values();
    law_number_is_big_endian(bytes.take(2 * i + 2), behind, 0);
    law_number_is_big_endian(front, pair, 0);
    assert(bytes =~= bytes.take(2 * i + 2) + behind);
    assert(bytes.take(2 * i + 2) =~= front + pair);
    lemma_be_value_bound(behind);
    lemma_be_value_bound(pair);
    lemma_fundamental_div_mod_converse(
        be_value(bytes) as int,
        p,
        be_value(bytes.take(2 * i + 2)) as int,
        be_value(behind) as int,
    );
    lemma_fundamental_div_mod_converse(
        be_value(bytes.take(2 * i + 2)) as int,
        0x1_0000,
        be_value(front) as int,
        be_value(pair) as int,
    );
}

/// Groups as text are the hexadecimal numbers of the groups, with a colon between any two.
pub proof fn law_groups_are_joined_by_colons(a: Seq<nat>, b: Seq<nat>, g: nat)
    requires
        a.len() > 0,
        b.len() > 0,
    ensures
        groups_text(Seq::empty()).len() == 0,
        groups_text(seq![g]) == numeral(g, 16),
        groups_text(a + b) == groups_text(a) + ":"@ + groups_text(b),
    decreases b.len(),
{
    let whole = a + b;
    let front = b.drop_last();
    assert(whole.last() == b.last());
    assert(whole.drop_last() =~= a + front);
    if front.len() == 0 {
        assert(a + front =~= a);
        assert(groups_text(b) == numeral(b[0], 16));
    } else {
        law_groups_are_joined_by_colons(a, front, g);
    }
    assert(groups_text(whole) =~= groups_text(a) + ":"@ + groups_text(b));
}

/// An IPv6 address whose first ten bytes are zero and whose next two are ff is written as those
/// two and the IPv4 address of the other four. Any other is written as its groups; where two or
/// more zero groups stand in a row, the longest such row, and the first of several, gives way
/// to two colons.
pub proof fn law_ipv6_is_written_as_its_groups(ip: Ipv6Addr, text: String)
    requires
        call_ensures(IpAddr::to_text, (&IpAddr::V6(ip),), text),
    ensures
        ({
            let groups = segments(ip);
            let mapped = all_zero(groups, 0, 5) && groups[5] == 0xffff;
            &&& mapped ==> exists|ipv4: Ipv4Addr|
                ipv4.bits == ip.bits % 0x1_0000_0000 && text@ == "::ffff:"@ + #[trigger] ipv4_text(
                    ipv4,
                )
            &&& !mapped && (forall|i: int|
                0 <= i < 7 ==> #[trigger] groups[i] != 0 || groups[i + 1] != 0) ==> text@
                == groups_text(groups)
            &&& !mapped && (exists|i: int|
                0 <= i < 7 && #[trigger] groups[i] == 0 && groups[i + 1] == 0) ==> exists|
                start: int,
                end: int,
            |
                #[trigger] is_longest_row(groups, start, end) && text@ == groups_text(
                    groups.take(start),
                ) + "::"@ + groups_text(groups.skip(end))
        }),
{
    let groups = segments(ip);
    let (start, len) = longest_zeros(groups, 0);
    law_longest_zeros(groups, 0);
    lemma_mapped_groups(ip);
    match mapped_ipv4(ip) {
        Some(ipv4) => {
            assert(text@ == "::ffff:"@ + ipv4_text(ipv4));
        },
        None => {
            if len > 1 {
                assert(groups[start] == 0 && groups[start + 1] == 0);
                assert(is_longest_row(groups, start, start + len));
            } else {
                assert forall|i: int| 0 <= i < 7 implies #[trigger] groups[i] != 0 || groups[i + 1]
                    != 0 by {
                    if groups[i] == 0 && groups[i + 1] == 0 {
                        assert(all_zero(groups, i, i + 2));
                    }
                }
            }
        },
    }
}

/// The groups from `start` up to `end` are a row of two or more zeros. No row is longer, and
/// none that is as long begins before it.
pub open spec fn is_longest_row(groups: Seq<nat>, start: int, end: int) -> bool {
    &&& start + 2 <= end
    &&& all_zero(groups, start, end)
    &&& forall|from: int, to: int| #[trigger]
        all_zero(groups, from, to) ==> to - from < end - start || (to - from == end - start
            && start <= from)
}

/// An address stands for an IPv4 address where its first five groups are zero and the sixth is
/// all ones.
proof fn lemma_mapped_groups(ip: Ipv6Addr)
    ensures
        mapped_ipv4(ip) is Some <==> all_zero(segments(ip), 0, 5) && segments(ip)[5] == 0xffff,
{
    let g = segments(ip);
    let x = ip.bits as nat;
    lemma_last_group(x, 0x1_0000_0000, 0x1_0000_0000_0000);
    lemma_last_group(x, 0x1_0000_0000_0000, 0x1_0000_0000_0000_0000);
    lemma_last_group(x, 0x1_0000_0000_0000_0000, 0x1_0000_0000_0000_0000_0000);
    lemma_last_group(
        x,
        0x1_0000_0000_0000_0000_0000,
        0x1_0000_0000_0000_0000_0000_0000,
    );
    lemma_last_group(
        x,
        0x1_0000_0000_0000_0000_0000_0000,
        0x1_0000_0000_0000_0000_0000_0000_0000,
    );
    if all_zero(g, 0, 5) {
        assert(g[0] == 0 && g[1] == 0 && g[2] == 0 && g[3] == 0 && g[4] == 0);
    }
    if x / 0x1_0000_0000 == 0xffff {
        assert(g[0] == 0 && g[1] == 0 && g[2] == 0 && g[3] == 0 && g[4] == 0);
    }
}

} // verus!
