//! Peer addresses in compact form: the octets of the address, then the port, big-endian.

use std::marker::PhantomData;

use vstd::arithmetic::div_mod::lemma_fundamental_div_mod_converse;
use vstd::prelude::*;

use crate::addr::{Ipv4Addr, Ipv6Addr, SocketAddr, SocketAddrV4, SocketAddrV6};
use crate::wire::{
    be_bytes, be_value, law_number_read_then_write, law_number_write_then_read,
    lemma_be_value_bound, lemma_pow256_values, ParseNum,
};

verus! {

/// How many bytes an IPv4 peer takes.
pub const COMPACT_V4_LEN: usize = 6;

/// How many bytes an IPv6 peer takes.
pub const COMPACT_V6_LEN: usize = 18;

/// An address that has a compact form of a fixed length.
pub trait CompactSerialize: Sized {
    /// The length of the compact form.
    spec fn compact_len() -> nat;

    /// The address whose compact form is `bytes`.
    spec fn from_compact(bytes: Seq<u8>) -> Self;

    /// The compact form of the address.
    spec fn to_compact(self) -> Seq<u8>;

    /// The compact form says all that there is to the address.
    spec fn is_plain(self) -> bool;

    /// The address among those of both families.
    spec fn socket_addr(self) -> SocketAddr;

    /// A plain address is read back from its compact form, and each compact form is that of
    /// the plain address that is read from it.
    proof fn law_compact_form(self, bytes: Seq<u8>)
        ensures
            self.is_plain() ==> {
                &&& self.to_compact().len() == Self::compact_len()
                &&& Self::from_compact(self.to_compact()) == self
            },
            bytes.len() == Self::compact_len() ==> {
                &&& Self::from_compact(bytes).is_plain()
                &&& Self::from_compact(bytes).to_compact() == bytes
            },
    ;

    fn fixed_len() -> (len: usize)
        ensures
            len == Self::compact_len(),
            len > 0,
    ;

    /// Reads an address that takes the whole slice.
    fn from_slice(buf: &[u8]) -> (r: Option<Self>)
        ensures
            r == (if buf@.len() == Self::compact_len() {
                Some(Self::from_compact(buf@))
            } else {
                None
            }),
    ;

    fn into_socket_addr(self) -> (addr: SocketAddr)
        ensures
            addr == self.socket_addr(),
    ;
}

impl CompactSerialize for SocketAddrV4 {
    open spec fn compact_len() -> nat {
        COMPACT_V4_LEN as nat
    }

    open spec fn from_compact(bytes: Seq<u8>) -> Self {
        SocketAddrV4 {
            ip: Ipv4Addr { bits: be_value(bytes.take(4)) as u32 },
            port: be_value(bytes.skip(4)) as u16,
        }
    }

    open spec fn to_compact(self) -> Seq<u8> {
        be_bytes(self.ip.bits as nat, 4) + be_bytes(self.port as nat, 2)
    }

    open spec fn is_plain(self) -> bool {
        true
    }

    open spec fn socket_addr(self) -> SocketAddr {
        SocketAddr::V4(self)
    }

    proof fn law_compact_form(self, bytes: Seq<u8>) {
        lemma_pow256_values();
        law_number_write_then_read(self.ip.bits as nat, 4);
        law_number_write_then_read(self.port as nat, 2);
        assert(self.to_compact().take(4) =~= be_bytes(self.ip.bits as nat, 4));
        assert(self.to_compact().skip(4) =~= be_bytes(self.port as nat, 2));
        if bytes.len() == Self::compact_len() {
            lemma_be_value_bound(bytes.take(4));
            lemma_be_value_bound(bytes.skip(4));
            law_number_read_then_write(bytes.take(4));
            law_number_read_then_write(bytes.skip(4));
            assert(bytes =~= bytes.take(4) + bytes.skip(4));
        }
    }

    fn fixed_len() -> (len: usize) {
        COMPACT_V4_LEN
    }

    fn from_slice(buf: &[u8]) -> (r: Option<Self>) {
        if buf.len() != COMPACT_V4_LEN {
            return None;
        }
        let (bits, rest) = match u32::parse_num(buf) {
            Ok(parsed) => parsed,
            Err(_) => return None,
        };
        let port: u16 = match u16::parse_num(rest) {
            Ok((port, _)) => port,
            Err(_) => return None,
        };
        proof {
            assert(rest@.take(2) =~= buf@.skip(4));
        }
        Some(SocketAddrV4 { ip: Ipv4Addr { bits }, port })
    }

    fn into_socket_addr(self) -> (addr: SocketAddr) {
        SocketAddr::V4(self)
    }
}

impl CompactSerialize for SocketAddrV6 {
    open spec fn compact_len() -> nat {
        COMPACT_V6_LEN as nat
    }

    open spec fn from_compact(bytes: Seq<u8>) -> Self {
        SocketAddrV6 {
            ip: Ipv6Addr { bits: be_value(bytes.take(16)) as u128 },
            port: be_value(bytes.skip(16)) as u16,
            flowinfo: 0,
            scope_id: 0,
        }
    }

    open spec fn to_compact(self) -> Seq<u8> {
        be_bytes(self.ip.bits as nat, 16) + be_bytes(self.port as nat, 2)
    }

    open spec fn is_plain(self) -> bool {
        self.flowinfo == 0 && self.scope_id == 0
    }

    open spec fn socket_addr(self) -> SocketAddr {
        SocketAddr::V6(self)
    }

    proof fn law_compact_form(self, bytes: Seq<u8>) {
        lemma_pow256_values();
        law_number_write_then_read(self.ip.bits as nat, 16);
        law_number_write_then_read(self.port as nat, 2);
        assert(self.to_compact().take(16) =~= be_bytes(self.ip.bits as nat, 16));
        assert(self.to_compact().skip(16) =~= be_bytes(self.port as nat, 2));
        if bytes.len() == Self::compact_len() {
            lemma_be_value_bound(bytes.take(16));
            lemma_be_value_bound(bytes.skip(16));
            law_number_read_then_write(bytes.take(16));
            law_number_read_then_write(bytes.skip(16));
            assert(bytes =~= bytes.take(16) + bytes.skip(16));
        }
    }

    fn fixed_len() -> (len: usize) {
        COMPACT_V6_LEN
    }

    fn from_slice(buf: &[u8]) -> (r: Option<Self>) {
        if buf.len() != COMPACT_V6_LEN {
            return None;
        }
        let (bits, rest) = match u128::parse_num(buf) {
            Ok(parsed) => parsed,
            Err(_) => return None,
        };
        let port: u16 = match u16::parse_num(rest) {
            Ok((port, _)) => port,
            Err(_) => return None,
        };
        proof {
            assert(rest@.take(2) =~= buf@.skip(16));
        }
        Some(SocketAddrV6 { ip: Ipv6Addr { bits }, port, flowinfo: 0, scope_id: 0 })
    }

    fn into_socket_addr(self) -> (addr: SocketAddr) {
        SocketAddr::V6(self)
    }
}

/// The `i`-th block of `len` bytes.
pub open spec fn block(bytes: Seq<u8>, len: nat, i: int) -> Seq<u8> {
    bytes.subrange(i * len, i * len + len)
}

/// A list of compact addresses, back to back. Bytes behind the last whole address are no
/// part of the list.
pub struct CompactListInBuffer<'a, T> {
    buf: &'a [u8],
    marker: PhantomData<T>,
}

impl<'a, T: CompactSerialize> CompactListInBuffer<'a, T> {
    /// The bytes that hold the list.
    pub closed spec fn bytes(self) -> Seq<u8> {
        self.buf@
    }

    /// The addresses in the list.
    pub open spec fn addrs(self) -> Seq<T> {
        Seq::new(
            self.bytes().len() / T::compact_len(),
            |i: int| T::from_compact(block(self.bytes(), T::compact_len(), i)),
        )
    }

    pub fn new_from_buf(buf: &'a [u8]) -> (list: Self)
        ensures
            list.bytes() == buf@,
    {
        CompactListInBuffer { buf, marker: PhantomData }
    }

    /// The addresses in the list, in order.
    pub fn iter(&self) -> (addrs: Vec<T>)
        ensures
            addrs@ == self.addrs(),
    {
        let len: usize = T::fixed_len();
        let mut addrs: Vec<T> = Vec::new();
        let mut rest: &[u8] = self.buf;
        let ghost n = T::compact_len() as int;
        proof {
            assert(0 * n == 0) by (nonlinear_arith);
        }
        while rest.len() >= len
            invariant
                len == T::compact_len() == n,
                n > 0,
                addrs@.len() * n + rest@.len() == self.bytes().len(),
                rest@ == self.bytes().skip(addrs@.len() * n),
                forall|i: int|
                    0 <= i < addrs@.len() ==> addrs@[i] == T::from_compact(
                        #[trigger] block(self.bytes(), T::compact_len(), i),
                    ),
            decreases rest@.len(),
        {
            let (first, tail) = rest.split_at(len);
            match T::from_slice(first) {
                Some(addr) => {
                    let ghost count = addrs@.len() as int;
                    addrs.push(addr);
                    proof {
                        assert((count + 1) * n == count * n + n) by (nonlinear_arith);
                        assert(first@ =~= block(self.bytes(), T::compact_len(), count));
                        assert(tail@ =~= self.bytes().skip((count + 1) * n));
                    }
                },
                None => {
                    proof {
                        assert(false);
                    }
                },
            }
            rest = tail;
        }
        proof {
            let total = self.bytes().len() as int;
            lemma_fundamental_div_mod_converse(total, n, addrs@.len() as int, rest@.len() as int);
            assert(addrs@ =~= self.addrs());
        }
        addrs
    }
}

/// Of blocks of one length that stand back to back, with less than a block behind them, each
/// is found again.
pub proof fn lemma_blocks(blocks: Seq<Seq<u8>>, len: nat, behind: Seq<u8>)
    requires
        len > 0,
        behind.len() < len,
        forall|i: int| 0 <= i < blocks.len() ==> (#[trigger] blocks[i]).len() == len,
    ensures
        (blocks.flatten() + behind).len() == blocks.len() * len + behind.len(),
        (blocks.flatten() + behind).len() / len == blocks.len(),
        (blocks.flatten() + behind).len() % len == behind.len(),
        forall|i: int|
            0 <= i < blocks.len() ==> #[trigger] block(blocks.flatten() + behind, len, i)
                == blocks[i],
    decreases blocks.len(),
{
    let all = blocks.flatten() + behind;
    let n = len as int;
    if blocks.len() > 0 {
        let rest = blocks.drop_first();
        let tail = rest.flatten() + behind;
        lemma_blocks(rest, len, behind);
        assert(all =~= blocks[0] + tail);
        assert(blocks.len() * n == rest.len() * n + n) by (nonlinear_arith)
            requires
                blocks.len() == rest.len() + 1,
        ;
        assert forall|i: int| 0 <= i < blocks.len() implies #[trigger] block(all, len, i)
            == blocks[i] by {
            if i == 0 {
                assert(0 * n == 0) by (nonlinear_arith);
                assert(block(all, len, 0) =~= blocks[0]);
            } else {
                assert(i * n == (i - 1) * n + n) by (nonlinear_arith);
                assert((i - 1) * n + n <= rest.len() * n) by (nonlinear_arith)
                    requires
                        i <= rest.len(),
                        n > 0,
                ;
                assert((i - 1) * n >= 0) by (nonlinear_arith)
                    requires
                        i >= 1,
                        n > 0,
                ;
                assert(block(all, len, i) =~= block(tail, len, i - 1));
                assert(rest[i - 1] == blocks[i]);
            }
        }
    } else {
        assert(0 * n == 0) by (nonlinear_arith);
        assert(all =~= behind);
    }
    lemma_fundamental_div_mod_converse(
        all.len() as int,
        n,
        blocks.len() as int,
        behind.len() as int,
    );
}

/// The compact forms of the addresses.
pub open spec fn compact_forms<T: CompactSerialize>(addrs: Seq<T>) -> Seq<Seq<u8>> {
    addrs.map_values(|addr: T| addr.to_compact())
}

/// Plain addresses written in compact form back to back are read back, in order, whatever
/// piece of an address stands behind them.
pub proof fn law_compact_list_write_then_read<T: CompactSerialize>(
    addrs: Seq<T>,
    behind: Seq<u8>,
    list: CompactListInBuffer<'_, T>,
)
    requires
        forall|i: int| 0 <= i < addrs.len() ==> (#[trigger] addrs[i]).is_plain(),
        behind.len() < T::compact_len(),
        list.bytes() == compact_forms(addrs).flatten() + behind,
    ensures
        list.addrs() == addrs,
{
    let forms = compact_forms(addrs);
    assert forall|i: int| 0 <= i < forms.len() implies (#[trigger] forms[i]).len()
        == T::compact_len() by {
        addrs[i].law_compact_form(Seq::empty());
    }
    lemma_blocks(forms, T::compact_len(), behind);
    assert forall|i: int| 0 <= i < addrs.len() implies #[trigger] list.addrs()[i] == addrs[i] by {
        assert(block(list.bytes(), T::compact_len(), i) == forms[i]);
        addrs[i].law_compact_form(Seq::empty());
    }
    assert(list.addrs() =~= addrs);
}

/// An IPv4 address in compact form is read by position: 4 bytes of the address, then two of
/// the port, and nothing else.
pub proof fn law_compact_v4_is_read_by_position(
    bytes: &[u8],
    r: Option<SocketAddrV4>,
    len: usize,
    addr: SocketAddrV4,
    among: SocketAddr,
)
    requires
        call_ensures(<SocketAddrV4 as CompactSerialize>::from_slice, (bytes,), r),
        call_ensures(<SocketAddrV4 as CompactSerialize>::fixed_len, (), len),
        call_ensures(<SocketAddrV4 as CompactSerialize>::into_socket_addr, (addr,), among),
    ensures
        len == 6,
        bytes@.len() != 6 ==> r is None,
        bytes@.len() == 6 ==> (r matches Some(read) && read.ip.bits == be_value(
            bytes@.subrange(0, 4),
        ) && read.port == be_value(bytes@.subrange(4, 6))),
        among == SocketAddr::V4(addr),
        addr.is_plain() == true,
{
    assert(<SocketAddrV4 as CompactSerialize>::compact_len() == 6);
    assert(addr.socket_addr() == SocketAddr::V4(addr));
    if bytes@.len() == 6 {
        lemma_pow256_values();
        assert(bytes@.take(4) =~= bytes@.subrange(0, 4));
        assert(bytes@.skip(4) =~= bytes@.subrange(4, 6));
        lemma_be_value_bound(bytes@.subrange(0, 4));
        lemma_be_value_bound(bytes@.subrange(4, 6));
    }
}

/// A list of IPv4 addresses in compact form is read by position, 6 bytes each, in order. A
/// piece of an address at the end is left out.
pub proof fn law_compact_v4_list_is_read_by_position(
    buf: &[u8],
    list: CompactListInBuffer<'_, SocketAddrV4>,
    addrs: Vec<SocketAddrV4>,
)
    requires
        call_ensures(CompactListInBuffer::<SocketAddrV4>::new_from_buf, (buf,), list),
        call_ensures(CompactListInBuffer::<SocketAddrV4>::iter, (&list,), addrs),
    ensures
        addrs@.len() == buf@.len() / 6,
        forall|i: int|
            0 <= i < addrs@.len() ==> {
                &&& (#[trigger] addrs@[i]).ip.bits == be_value(buf@.subrange(6 * i, 6 * i + 4))
                &&& addrs@[i].port == be_value(buf@.subrange(6 * i + 4, 6 * i + 6))
            },
{
    assert(<SocketAddrV4 as CompactSerialize>::compact_len() == 6);
    assert forall|i: int| 0 <= i < addrs@.len() implies {
        &&& (#[trigger] addrs@[i]).ip.bits == be_value(buf@.subrange(6 * i, 6 * i + 4))
        &&& addrs@[i].port == be_value(buf@.subrange(6 * i + 4, 6 * i + 6))
    } by {
        let bytes = block(buf@, 6, i);
        assert(bytes =~= buf@.subrange(6 * i, 6 * i + 6));
        assert(bytes.take(4) =~= buf@.subrange(6 * i, 6 * i + 4));
        assert(bytes.skip(4) =~= buf@.subrange(6 * i + 4, 6 * i + 6));
        lemma_pow256_values();
        lemma_be_value_bound(bytes.take(4));
        lemma_be_value_bound(bytes.skip(4));
        assert(addrs@[i] == SocketAddrV4::from_compact(bytes));
    }
}

/// An IPv6 address in compact form is read by position: 16 bytes of the address, then two of
/// the port, and nothing else.
pub proof fn law_compact_v6_is_read_by_position(
    bytes: &[u8],
    r: Option<SocketAddrV6>,
    len: usize,
    addr: SocketAddrV6,
    among: SocketAddr,
)
    requires
        call_ensures(<SocketAddrV6 as CompactSerialize>::from_slice, (bytes,), r),
        call_ensures(<SocketAddrV6 as CompactSerialize>::fixed_len, (), len),
        call_ensures(<SocketAddrV6 as CompactSerialize>::into_socket_addr, (addr,), among),
    ensures
        len == 18,
        bytes@.len() != 18 ==> r is None,
        bytes@.len() == 18 ==> (r matches Some(read) && read.ip.bits == be_value(
            bytes@.subrange(0, 16),
        ) && read.port == be_value(bytes@.subrange(16, 18)) && read.flowinfo == 0 && read.scope_id
            == 0),
        among == SocketAddr::V6(addr),
        addr.is_plain() == (addr.flowinfo == 0 && addr.scope_id == 0),
{
    assert(<SocketAddrV6 as CompactSerialize>::compact_len() == 18);
    assert(addr.socket_addr() == SocketAddr::V6(addr));
    if bytes@.len() == 18 {
        lemma_pow256_values();
        assert(bytes@.take(16) =~= bytes@.subrange(0, 16));
        assert(bytes@.skip(16) =~= bytes@.subrange(16, 18));
        lemma_be_value_bound(bytes@.subrange(0, 16));
        lemma_be_value_bound(bytes@.subrange(16, 18));
    }
}

/// A list of IPv6 addresses in compact form is read by position, 18 bytes each, in order. A
/// piece of an address at the end is left out.
pub proof fn law_compact_v6_list_is_read_by_position(
    buf: &[u8],
    list: CompactListInBuffer<'_, SocketAddrV6>,
    addrs: Vec<SocketAddrV6>,
)
    requires
        call_ensures(CompactListInBuffer::<SocketAddrV6>::new_from_buf, (buf,), list),
        call_ensures(CompactListInBuffer::<SocketAddrV6>::iter, (&list,), addrs),
    ensures
        addrs@.len() == buf@.len() / 18,
        forall|i: int|
            0 <= i < addrs@.len() ==> {
                &&& (#[trigger] addrs@[i]).ip.bits == be_value(buf@.subrange(18 * i, 18 * i + 16))
                &&& addrs@[i].port == be_value(buf@.subrange(18 * i + 16, 18 * i + 18))
                &&& addrs@[i].flowinfo == 0
                &&& addrs@[i].scope_id == 0
            },
{
    assert(<SocketAddrV6 as CompactSerialize>::compact_len() == 18);
    assert forall|i: int| 0 <= i < addrs@.len() implies {
        &&& (#[trigger] addrs@[i]).ip.bits == be_value(buf@.subrange(18 * i, 18 * i + 16))
        &&& addrs@[i].port == be_value(buf@.subrange(18 * i + 16, 18 * i + 18))
        &&& addrs@[i].flowinfo == 0
        &&& addrs@[i].scope_id == 0
    } by {
        let bytes = block(buf@, 18, i);
        assert(bytes =~= buf@.subrange(18 * i, 18 * i + 18));
        assert(bytes.take(16) =~= buf@.subrange(18 * i, 18 * i + 16));
        assert(bytes.skip(16) =~= buf@.subrange(18 * i + 16, 18 * i + 18));
        lemma_pow256_values();
        lemma_be_value_bound(bytes.take(16));
        lemma_be_value_bound(bytes.skip(16));
        assert(addrs@[i] == SocketAddrV6::from_compact(bytes));
    }
}

} // verus!
