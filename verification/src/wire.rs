//! Big-endian numbers on the wire.

use vstd::arithmetic::div_mod::lemma_mod_breakdown;
use vstd::arithmetic::power::pow;
use vstd::prelude::*;

verus! {

/// The number that `s` denotes in base 256, most significant byte first.
pub open spec fn be_value(s: Seq<u8>) -> nat
    decreases s.len(),
{
    if s.len() == 0 {
        0
    } else {
        be_value(s.drop_last()) * 256 + s.last() as nat
    }
}

/// The last `width` base 256 digits of `value`, most significant first.
pub open spec fn be_bytes(value: nat, width: nat) -> Seq<u8>
    decreases width,
{
    if width == 0 {
        Seq::empty()
    } else {
        be_bytes(value / 256, (width - 1) as nat).push((value % 256) as u8)
    }
}

/// 256 to the power of `n`.
pub open spec fn pow256(n: nat) -> nat
    decreases n,
{
    if n == 0 {
        1
    } else {
        256 * pow256((n - 1) as nat)
    }
}

/// The integer whose two's complement representation in `s.len()` bytes is `s`.
pub open spec fn be_signed_value(s: Seq<u8>) -> int {
    if 2 * be_value(s) < pow256(s.len()) {
        be_value(s) as int
    } else {
        be_value(s) - pow256(s.len())
    }
}

pub proof fn lemma_pow256_values()
    ensures
        pow256(0) == 1,
        pow256(2) == 0x1_0000,
        pow256(4) == 0x1_0000_0000,
        pow256(8) == 0x1_0000_0000_0000_0000,
        pow256(16) == 0x1_0000_0000_0000_0000_0000_0000_0000_0000,
{
    reveal_with_fuel(pow256, 17);
}

proof fn lemma_pow256_monotonic(a: nat, b: nat)
    requires
        a <= b,
    ensures
        pow256(a) <= pow256(b),
    decreases b,
{
    if a < b {
        lemma_pow256_monotonic(a, (b - 1) as nat);
    }
}

/// A number of `n` bytes is below 256 to the power of `n`.
pub proof fn lemma_be_value_bound(s: Seq<u8>)
    ensures
        be_value(s) < pow256(s.len()),
    decreases s.len(),
{
    if s.len() > 0 {
        lemma_be_value_bound(s.drop_last());
    }
}

pub proof fn lemma_be_bytes_len(value: nat, width: nat)
    ensures
        be_bytes(value, width).len() == width,
    decreases width,
{
    if width > 0 {
        lemma_be_bytes_len(value / 256, (width - 1) as nat);
    }
}

/// Reading the digits of a number gives the number back, where it fits in the width.
pub proof fn law_number_write_then_read(value: nat, width: nat)
    requires
        value < pow256(width),
    ensures
        be_bytes(value, width).len() == width,
        be_value(be_bytes(value, width)) == value,
    decreases width,
{
    lemma_be_bytes_len(value, width);
    if width > 0 {
        law_number_write_then_read(value / 256, (width - 1) as nat);
        let rest = be_bytes(value / 256, (width - 1) as nat);
        assert(be_bytes(value, width).drop_last() =~= rest);
    }
}

/// Writing the number that some bytes denote, in as many bytes, gives the bytes back.
pub proof fn law_number_read_then_write(s: Seq<u8>)
    ensures
        be_bytes(be_value(s), s.len()) == s,
    decreases s.len(),
{
    if s.len() > 0 {
        law_number_read_then_write(s.drop_last());
        assert(s =~= s.drop_last().push(s.last()));
    }
}

/// The number that at most sixteen bytes denote.
fn be_number(buf: &[u8]) -> (value: u128)
    requires
        buf@.len() <= 16,
    ensures
        value == be_value(buf@),
{
    let mut value: u128 = 0;
    let mut i: usize = 0;
    while i < buf.len()
        invariant
            i <= buf@.len() <= 16,
            value == be_value(buf@.take(i as int)),
        decreases buf@.len() - i,
    {
        proof {
            assert(buf@.take(i + 1).drop_last() =~= buf@.take(i as int));
            lemma_be_value_bound(buf@.take(i + 1));
            lemma_pow256_monotonic((i + 1) as nat, 16);
            lemma_pow256_values();
        }
        value = value * 256 + buf[i] as u128;
        i = i + 1;
    }
    proof {
        assert(buf@.take(i as int) =~= buf@);
    }
    value
}

/// The last `width` base 256 digits of `value`.
pub fn be_digits(value: u128, width: usize) -> (digits: Vec<u8>)
    ensures
        digits@ == be_bytes(value as nat, width as nat),
{
    let mut digits: Vec<u8> = vec![0u8; width];
    let mut rest: u128 = value;
    let mut i: usize = width;
    proof {
        assert(digits@.skip(width as int) =~= Seq::empty());
    }
    while i > 0
        invariant
            i <= width,
            digits@.len() == width,
            be_bytes(value as nat, width as nat) =~= be_bytes(rest as nat, i as nat)
                + digits@.skip(i as int),
        decreases i,
    {
        let ghost before = digits@;
        i = i - 1;
        digits[i] = (rest % 256) as u8;
        proof {
            assert(digits@.skip(i as int) =~= seq![digits@[i as int]] + before.skip(i + 1));
        }
        rest = rest / 256;
    }
    digits
}

/// The first `first_len` elements and the others, or nothing where there are fewer.
pub fn split_slice(s: &[u8], first_len: usize) -> (r: Option<(&[u8], &[u8])>)
    ensures
        r is Some <==> first_len <= s@.len(),
        r matches Some((first, rest)) ==> first@ == s@.take(first_len as int) && rest@ == s@.skip(
            first_len as int,
        ),
{
    if s.len() < first_len {
        return None;
    }
    Some(s.split_at(first_len))
}

/// The slice as an array of its length.
pub fn s_to_arr<const T: usize>(buf: &[u8]) -> (arr: [u8; T])
    requires
        buf@.len() == T,
    ensures
        arr@ == buf@,
{
    let mut arr = [0u8; T];
    let mut i: usize = 0;
    while i < T
        invariant
            i <= T,
            buf@.len() == T,
            arr@.take(i as int) =~= buf@.take(i as int),
        decreases T - i,
    {
        let ghost before = arr@;
        arr[i] = buf[i];
        i = i + 1;
        proof {
            assert(arr@.take(i as int) =~= before.take(i - 1).push(buf@[i - 1]));
            assert(buf@.take(i as int) =~= buf@.take(i - 1).push(buf@[i - 1]));
        }
    }
    proof {
        assert(arr@ =~= arr@.take(T as int));
        assert(buf@ =~= buf@.take(T as int));
    }
    arr
}

/// Fewer bytes were there than a number takes.
#[derive(Clone, Copy, Debug, PartialEq, Eq, Structural)]
pub struct ShortInput {
    /// How many bytes the number takes.
    pub expected: usize,
}

/// A number that stands big-endian at the front of a buffer.
pub trait ParseNum: Sized {
    /// How many bytes the number takes.
    spec fn width() -> nat;

    /// The number as an integer.
    spec fn number(self) -> int;

    /// The integer that `width()` bytes denote.
    spec fn denoted(bytes: Seq<u8>) -> int;

    /// Reads the number and hands back the bytes behind it.
    fn parse_num(buf: &[u8]) -> (r: Result<(Self, &[u8]), ShortInput>)
        ensures
            r is Ok <==> Self::width() <= buf@.len(),
            r matches Ok((num, rest)) ==> {
                &&& num.number() == Self::denoted(buf@.take(Self::width() as int))
                &&& rest@ == buf@.skip(Self::width() as int)
            },
            r matches Err(e) ==> e.expected == Self::width(),
    ;
}

impl ParseNum for u16 {
    open spec fn width() -> nat {
        2
    }

    open spec fn number(self) -> int {
        self as int
    }

    open spec fn denoted(bytes: Seq<u8>) -> int {
        be_value(bytes) as int
    }

    fn parse_num(buf: &[u8]) -> (r: Result<(Self, &[u8]), ShortInput>) {
        proof {
            assert(Self::width() == 2);
        }
        match split_slice(buf, 2) {
            None => Err(ShortInput { expected: 2 }),
            Some((bytes, rest)) => {
                let arr: [u8; 2] = s_to_arr(bytes);
                proof {
                    lemma_be_value_bound(arr@);
                    lemma_pow256_values();
                }
                let num: u16 = be_number(arr.as_slice()) as u16;
                proof {
                    assert(num.number() == Self::denoted(bytes@));
                }
                Ok((num, rest))
            },
        }
    }
}

impl ParseNum for u32 {
    open spec fn width() -> nat {
        4
    }

    open spec fn number(self) -> int {
        self as int
    }

    open spec fn denoted(bytes: Seq<u8>) -> int {
        be_value(bytes) as int
    }

    fn parse_num(buf: &[u8]) -> (r: Result<(Self, &[u8]), ShortInput>) {
        proof {
            assert(Self::width() == 4);
        }
        match split_slice(buf, 4) {
            None => Err(ShortInput { expected: 4 }),
            Some((bytes, rest)) => {
                let arr: [u8; 4] = s_to_arr(bytes);
                proof {
                    lemma_be_value_bound(arr@);
                    lemma_pow256_values();
                }
                let num: u32 = be_number(arr.as_slice()) as u32;
                proof {
                    assert(num.number() == Self::denoted(bytes@));
                }
                Ok((num, rest))
            },
        }
    }
}

impl ParseNum for u64 {
    open spec fn width() -> nat {
        8
    }

    open spec fn number(self) -> int {
        self as int
    }

    open spec fn denoted(bytes: Seq<u8>) -> int {
        be_value(bytes) as int
    }

    fn parse_num(buf: &[u8]) -> (r: Result<(Self, &[u8]), ShortInput>) {
        proof {
            assert(Self::width() == 8);
        }
        match split_slice(buf, 8) {
            None => Err(ShortInput { expected: 8 }),
            Some((bytes, rest)) => {
                let arr: [u8; 8] = s_to_arr(bytes);
                proof {
                    lemma_be_value_bound(arr@);
                    lemma_pow256_values();
                }
                let num: u64 = be_number(arr.as_slice()) as u64;
                proof {
                    assert(num.number() == Self::denoted(bytes@));
                }
                Ok((num, rest))
            },
        }
    }
}

impl ParseNum for u128 {
    open spec fn width() -> nat {
        16
    }

    open spec fn number(self) -> int {
        self as int
    }

    open spec fn denoted(bytes: Seq<u8>) -> int {
        be_value(bytes) as int
    }

    fn parse_num(buf: &[u8]) -> (r: Result<(Self, &[u8]), ShortInput>) {
        proof {
            assert(Self::width() == 16);
        }
        match split_slice(buf, 16) {
            None => Err(ShortInput { expected: 16 }),
            Some((bytes, rest)) => {
                let arr: [u8; 16] = s_to_arr(bytes);
                proof {
                    lemma_be_value_bound(arr@);
                    lemma_pow256_values();
                }
                let num: u128 = be_number(arr.as_slice());
                proof {
                    assert(num.number() == Self::denoted(bytes@));
                }
                Ok((num, rest))
            },
        }
    }
}

impl ParseNum for i16 {
    open spec fn width() -> nat {
        2
    }

    open spec fn number(self) -> int {
        self as int
    }

    open spec fn denoted(bytes: Seq<u8>) -> int {
        be_signed_value(bytes)
    }

    fn parse_num(buf: &[u8]) -> (r: Result<(Self, &[u8]), ShortInput>) {
        proof {
            assert(Self::width() == 2);
        }
        match split_slice(buf, 2) {
            None => Err(ShortInput { expected: 2 }),
            Some((bytes, rest)) => {
                let arr: [u8; 2] = s_to_arr(bytes);
                proof {
                    lemma_be_value_bound(arr@);
                    lemma_pow256_values();
                }
                let unsigned: u128 = be_number(arr.as_slice());
                let num: i16 = if unsigned < 0x8000 {
                    unsigned as i16
                } else {
                    (unsigned as i32 - 0x1_0000) as i16
                };
                proof {
                    assert(num.number() == Self::denoted(bytes@));
                }
                Ok((num, rest))
            },
        }
    }
}

impl ParseNum for i32 {
    open spec fn width() -> nat {
        4
    }

    open spec fn number(self) -> int {
        self as int
    }

    open spec fn denoted(bytes: Seq<u8>) -> int {
        be_signed_value(bytes)
    }

    fn parse_num(buf: &[u8]) -> (r: Result<(Self, &[u8]), ShortInput>) {
        proof {
            assert(Self::width() == 4);
        }
        match split_slice(buf, 4) {
            None => Err(ShortInput { expected: 4 }),
            Some((bytes, rest)) => {
                let arr: [u8; 4] = s_to_arr(bytes);
                proof {
                    lemma_be_value_bound(arr@);
                    lemma_pow256_values();
                }
                let unsigned: u128 = be_number(arr.as_slice());
                let num: i32 = if unsigned < 0x8000_0000 {
                    unsigned as i32
                } else {
                    (unsigned as i64 - 0x1_0000_0000) as i32
                };
                proof {
                    assert(num.number() == Self::denoted(bytes@));
                }
                Ok((num, rest))
            },
        }
    }
}

impl ParseNum for i64 {
    open spec fn width() -> nat {
        8
    }

    open spec fn number(self) -> int {
        self as int
    }

    open spec fn denoted(bytes: Seq<u8>) -> int {
        be_signed_value(bytes)
    }

    fn parse_num(buf: &[u8]) -> (r: Result<(Self, &[u8]), ShortInput>) {
        proof {
            assert(Self::width() == 8);
        }
        match split_slice(buf, 8) {
            None => Err(ShortInput { expected: 8 }),
            Some((bytes, rest)) => {
                let arr: [u8; 8] = s_to_arr(bytes);
                proof {
                    lemma_be_value_bound(arr@);
                    lemma_pow256_values();
                }
                let unsigned: u128 = be_number(arr.as_slice());
                let num: i64 = if unsigned < 0x8000_0000_0000_0000 {
                    unsigned as i64
                } else {
                    (unsigned as i128 - 0x1_0000_0000_0000_0000) as i64
                };
                proof {
                    assert(num.number() == Self::denoted(bytes@));
                }
                Ok((num, rest))
            },
        }
    }
}

/// The powers are those of 256.
pub proof fn law_powers_of_256(n: nat)
    ensures
        pow256(n) == pow(256, n),
    decreases n,
{
    reveal(pow);
    if n > 0 {
        law_powers_of_256((n - 1) as nat);
    }
}

/// Numbers are big-endian: the bytes in front count by as many powers of 256 as bytes stand
/// behind them, and a byte alone is its own number.
pub proof fn law_number_is_big_endian(front: Seq<u8>, behind: Seq<u8>, b: u8)
    ensures
        be_value(Seq::empty()) == 0,
        be_value(seq![b]) == b,
        be_value(front + behind) == be_value(front) * pow(256, behind.len()) + be_value(behind),
    decreases behind.len(),
{
    assert(seq![b].drop_last() =~= Seq::empty());
    reveal(pow);
    if behind.len() == 0 {
        assert(front + behind =~= front);
    } else {
        let rest = behind.drop_last();
        law_number_is_big_endian(front, rest, b);
        assert((front + behind).drop_last() =~= front + rest);
        assert(be_value(front) * (256 * pow(256, rest.len())) == be_value(front) * pow(
            256,
            rest.len(),
        ) * 256) by (nonlinear_arith);
    }
}

/// The digits of a number, however many are asked for, denote what is left of the number when
/// the digits before them are taken off.
pub proof fn law_digits_denote_the_number(value: u128, width: usize, digits: Vec<u8>)
    requires
        call_ensures(be_digits, (value, width), digits),
    ensures
        digits@.len() == width,
        be_value(digits@) as int == value as int % pow(256, width as nat),
{
    lemma_last_digits(value as nat, width as nat);
    law_powers_of_256(width as nat);
}

proof fn lemma_last_digits(value: nat, width: nat)
    ensures
        be_bytes(value, width).len() == width,
        pow256(width) > 0,
        be_value(be_bytes(value, width)) == value % pow256(width),
    decreases width,
{
    if width > 0 {
        let rest = be_bytes(value / 256, (width - 1) as nat);
        lemma_last_digits(value / 256, (width - 1) as nat);
        assert(be_bytes(value, width).drop_last() =~= rest);
        lemma_mod_breakdown(value as int, 256, pow256((width - 1) as nat) as int);
    }
}

/// Reads as `u16`: the first 2 bytes, most significant first, and the others behind them.
pub proof fn law_u16_is_read(buf: &[u8], r: Result<(u16, &[u8]), ShortInput>)
    requires
        call_ensures(<u16 as ParseNum>::parse_num, (buf,), r),
    ensures
        buf@.len() >= 2 ==> (r matches Ok((num, rest)) && num == be_value(buf@.take(2)) && rest@
            == buf@.skip(2)),
        buf@.len() < 2 ==> (r matches Err(e) && e.expected == 2),
{
    assert(<u16 as ParseNum>::width() == 2);
    if buf@.len() >= 2 {
        let num = r->Ok_0.0;
        assert(num.number() == num as int);
        assert(<u16 as ParseNum>::denoted(buf@.take(2)) == be_value(buf@.take(2)) as int);
    }
}

/// Reads as `u32`: the first 4 bytes, most significant first, and the others behind them.
pub proof fn law_u32_is_read(buf: &[u8], r: Result<(u32, &[u8]), ShortInput>)
    requires
        call_ensures(<u32 as ParseNum>::parse_num, (buf,), r),
    ensures
        buf@.len() >= 4 ==> (r matches Ok((num, rest)) && num == be_value(buf@.take(4)) && rest@
            == buf@.skip(4)),
        buf@.len() < 4 ==> (r matches Err(e) && e.expected == 4),
{
    assert(<u32 as ParseNum>::width() == 4);
    if buf@.len() >= 4 {
        let num = r->Ok_0.0;
        assert(num.number() == num as int);
        assert(<u32 as ParseNum>::denoted(buf@.take(4)) == be_value(buf@.take(4)) as int);
    }
}

/// Reads as `u64`: the first 8 bytes, most significant first, and the others behind them.
pub proof fn law_u64_is_read(buf: &[u8], r: Result<(u64, &[u8]), ShortInput>)
    requires
        call_ensures(<u64 as ParseNum>::parse_num, (buf,), r),
    ensures
        buf@.len() >= 8 ==> (r matches Ok((num, rest)) && num == be_value(buf@.take(8)) && rest@
            == buf@.skip(8)),
        buf@.len() < 8 ==> (r matches Err(e) && e.expected == 8),
{
    assert(<u64 as ParseNum>::width() == 8);
    if buf@.len() >= 8 {
        let num = r->Ok_0.0;
        assert(num.number() == num as int);
        assert(<u64 as ParseNum>::denoted(buf@.take(8)) == be_value(buf@.take(8)) as int);
    }
}

/// Reads as `u128`: the first 16 bytes, most significant first, and the others behind them.
pub proof fn law_u128_is_read(buf: &[u8], r: Result<(u128, &[u8]), ShortInput>)
    requires
        call_ensures(<u128 as ParseNum>::parse_num, (buf,), r),
    ensures
        buf@.len() >= 16 ==> (r matches Ok((num, rest)) && num == be_value(buf@.take(16)) && rest@
            == buf@.skip(16)),
        buf@.len() < 16 ==> (r matches Err(e) && e.expected == 16),
{
    assert(<u128 as ParseNum>::width() == 16);
    if buf@.len() >= 16 {
        let num = r->Ok_0.0;
        assert(num.number() == num as int);
        assert(<u128 as ParseNum>::denoted(buf@.take(16)) == be_value(buf@.take(16)) as int);
    }
}

/// Reads as `i16`: the first 2 bytes, most significant first, in two's complement, and the
/// others behind them.
pub proof fn law_i16_is_read(buf: &[u8], r: Result<(i16, &[u8]), ShortInput>)
    requires
        call_ensures(<i16 as ParseNum>::parse_num, (buf,), r),
    ensures
        buf@.len() >= 2 ==> (r matches Ok((num, rest)) && rest@ == buf@.skip(2) && num == (if
            be_value(buf@.take(2)) < 0x8000 {
            be_value(buf@.take(2)) as int
        } else {
            be_value(buf@.take(2)) - 0x1_0000
        })),
        buf@.len() < 2 ==> (r matches Err(e) && e.expected == 2),
{
    lemma_pow256_values();
    assert(<i16 as ParseNum>::width() == 2);
    if buf@.len() >= 2 {
        let num = r->Ok_0.0;
        assert(num.number() == num as int);
        assert(<i16 as ParseNum>::denoted(buf@.take(2)) == be_signed_value(buf@.take(2)));
    }
}

/// Reads as `i32`: the first 4 bytes, most significant first, in two's complement, and the
/// others behind them.
pub proof fn law_i32_is_read(buf: &[u8], r: Result<(i32, &[u8]), ShortInput>)
    requires
        call_ensures(<i32 as ParseNum>::parse_num, (buf,), r),
    ensures
        buf@.len() >= 4 ==> (r matches Ok((num, rest)) && rest@ == buf@.skip(4) && num == (if
            be_value(buf@.take(4)) < 0x8000_0000 {
            be_value(buf@.take(4)) as int
        } else {
            be_value(buf@.take(4)) - 0x1_0000_0000
        })),
        buf@.len() < 4 ==> (r matches Err(e) && e.expected == 4),
{
    lemma_pow256_values();
    assert(<i32 as ParseNum>::width() == 4);
    if buf@.len() >= 4 {
        let num = r->Ok_0.0;
        assert(num.number() == num as int);
        assert(<i32 as ParseNum>::denoted(buf@.take(4)) == be_signed_value(buf@.take(4)));
    }
}

/// Reads as `i64`: the first 8 bytes, most significant first, in two's complement, and the
/// others behind them.
pub proof fn law_i64_is_read(buf: &[u8], r: Result<(i64, &[u8]), ShortInput>)
    requires
        call_ensures(<i64 as ParseNum>::parse_num, (buf,), r),
    ensures
        buf@.len() >= 8 ==> (r matches Ok((num, rest)) && rest@ == buf@.skip(8) && num == (if
            be_value(buf@.take(8)) < 0x8000_0000_0000_0000 {
            be_value(buf@.take(8)) as int
        } else {
            be_value(buf@.take(8)) - 0x1_0000_0000_0000_0000
        })),
        buf@.len() < 8 ==> (r matches Err(e) && e.expected == 8),
{
    lemma_pow256_values();
    assert(<i64 as ParseNum>::width() == 8);
    if buf@.len() >= 8 {
        let num = r->Ok_0.0;
        assert(num.number() == num as int);
        assert(<i64 as ParseNum>::denoted(buf@.take(8)) == be_signed_value(buf@.take(8)));
    }
}

/// A slice that is split is the two parts back to back, the first as long as was asked. One
/// that is shorter than that is not split.
pub proof fn law_split_parts_make_up_the_slice(
    s: &[u8],
    first_len: usize,
    r: Option<(&[u8], &[u8])>,
)
    requires
        call_ensures(split_slice, (s, first_len), r),
    ensures
        s@.len() < first_len ==> r is None,
        s@.len() >= first_len ==> (r matches Some((first, rest)) && first@.len() == first_len
            && first@ + rest@ == s@),
{
    if s@.len() >= first_len {
        let (first, rest) = r->Some_0;
        assert(first@ + rest@ =~= s@);
    }
}

/// A slice as an array holds the same bytes at the same places.
pub proof fn law_array_holds_the_bytes_of_the_slice<const T: usize>(buf: &[u8], arr: [u8; T])
    requires
        buf@.len() == T,
        call_ensures(s_to_arr::<T>, (buf,), arr),
    ensures
        forall|i: int| 0 <= i < T ==> #[trigger] arr@[i] == buf@[i],
{
}

} // verus!
