//! Link-layer addresses: six bytes, with one reserved value that reaches every
//! listener in range.
use vstd::prelude::*;

verus! {

/// Number of bytes in a link-layer address.
pub const ADDRESS_LEN: usize = 6;

/// The reserved destination byte repeated in every position of the broadcast address.
pub const BROADCAST_BYTE: u8 = 0xff;

/// True when every byte of `a` is the broadcast byte.
pub open spec fn is_broadcast(a: [u8; 6]) -> bool {
    forall|i: int| 0 <= i < 6 ==> #[trigger] a[i] == BROADCAST_BYTE
}

/// The reserved address meaning "all listeners in range".
pub fn broadcast_address() -> (r: [u8; 6])
    ensures
        is_broadcast(r),
{
    let b = BROADCAST_BYTE;
    let r: [u8; 6] = [b, b, b, b, b, b];
    assert(r@ =~= seq![b, b, b, b, b, b]);
    r
}

/// Byte-wise comparison of two addresses.
pub fn same_address(a: &[u8; 6], b: &[u8; 6]) -> (r: bool)
    ensures
        r == (*a == *b),
{
    let mut i: usize = 0;
    while i < ADDRESS_LEN
        invariant
            i <= ADDRESS_LEN,
            forall|j: int| 0 <= j < i ==> a[j] == b[j],
        decreases ADDRESS_LEN - i,
    {
        if a[i] != b[i] {
            return false;
        }
        i = i + 1;
    }
    proof {
        broadcast use vstd::array::group_array_axioms;
        assert(*a =~= *b);
    }
    true
}

/// Whether `a` is the broadcast address.
pub fn is_broadcast_address(a: &[u8; 6]) -> (r: bool)
    ensures
        r == is_broadcast(*a),
{
    let mut i: usize = 0;
    while i < ADDRESS_LEN
        invariant
            i <= ADDRESS_LEN,
            forall|j: int| 0 <= j < i ==> a[j] == BROADCAST_BYTE,
        decreases ADDRESS_LEN - i,
    {
        if a[i] != BROADCAST_BYTE {
            return false;
        }
        i = i + 1;
    }
    true
}

} // verus!
