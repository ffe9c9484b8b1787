//! Twenty-byte identifiers: info hashes and peer ids.

use vstd::prelude::*;

verus! {

/// An info hash or a peer id.
#[derive(Clone, Copy, Debug)]
pub struct Id20(pub [u8; 20]);

impl Id20 {
    pub fn new(bytes: [u8; 20]) -> (id: Self)
        ensures
            id.0 == bytes,
    {
        Id20(bytes)
    }
}

/// An id is the bytes that it is made of.
pub proof fn law_id_is_its_bytes(bytes: [u8; 20], id: Id20)
    requires
        call_ensures(Id20::new, (bytes,), id),
    ensures
        forall|i: int| 0 <= i < 20 ==> #[trigger] id.0@[i] == bytes@[i],
{
}

} // verus!
