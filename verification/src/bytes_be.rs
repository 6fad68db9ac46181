//! Big-endian byte encodings of the unsigned integer widths the wire format
//! uses, derived from the little-endian encodings that vstd verifies.

use vstd::prelude::*;
use vstd::bytes::{
    lemma_auto_spec_u128_to_from_le_bytes, lemma_auto_spec_u32_to_from_le_bytes,
    lemma_auto_spec_u64_to_from_le_bytes, spec_u128_to_le_bytes, spec_u32_to_le_bytes,
    spec_u128_from_le_bytes, spec_u32_from_le_bytes, spec_u64_from_le_bytes, spec_u64_to_le_bytes, u128_from_le_bytes, u128_to_le_bytes,
    u32_from_le_bytes, u32_to_le_bytes, u64_from_le_bytes, u64_to_le_bytes,
};

verus! {

pub open spec fn spec_u32_to_be_bytes(x: u32) -> Seq<u8> {
    spec_u32_to_le_bytes(x).reverse()
}

pub open spec fn spec_u64_to_be_bytes(x: u64) -> Seq<u8> {
    spec_u64_to_le_bytes(x).reverse()
}

pub open spec fn spec_u128_to_be_bytes(x: u128) -> Seq<u8> {
    spec_u128_to_le_bytes(x).reverse()
}

/// Copy a byte slice in reverse order.
fn reversed(v: &[u8]) -> (r: Vec<u8>)
    ensures
        r@ == v@.reverse(),
{
    let n = v.len();
    let mut r: Vec<u8> = Vec::new();
    let mut i: usize = 0;
    while i < n
        invariant
            n == v@.len(),
            i <= n,
            r@.len() == i,
            forall|k: int| 0 <= k < i ==> r@[k] == v@[n - 1 - k],
        decreases n - i,
    {
        r.push(v[n - 1 - i]);
        i += 1;
    }
    assert(r@ =~= v@.reverse());
    r
}

pub fn u32_to_be_bytes(x: u32) -> (s: Vec<u8>)
    ensures
        s@ == spec_u32_to_be_bytes(x),
        s@.len() == 4,
{
    proof {
        lemma_auto_spec_u32_to_from_le_bytes();
    }
    let le = u32_to_le_bytes(x);
    reversed(le.as_slice())
}

pub fn u64_to_be_bytes(x: u64) -> (s: Vec<u8>)
    ensures
        s@ == spec_u64_to_be_bytes(x),
        s@.len() == 8,
{
    proof {
        lemma_auto_spec_u64_to_from_le_bytes();
    }
    let le = u64_to_le_bytes(x);
    reversed(le.as_slice())
}

pub fn u128_to_be_bytes(x: u128) -> (s: Vec<u8>)
    ensures
        s@ == spec_u128_to_be_bytes(x),
        s@.len() == 16,
{
    proof {
        lemma_auto_spec_u128_to_from_le_bytes();
    }
    let le = u128_to_le_bytes(x);
    reversed(le.as_slice())
}

pub fn u32_from_be_bytes(s: &[u8]) -> (x: u32)
    requires
        s@.len() == 4,
    ensures
        spec_u32_to_be_bytes(x) == s@,
{
    let le = reversed(s);
    let x = u32_from_le_bytes(le.as_slice());
    proof {
        lemma_auto_spec_u32_to_from_le_bytes();
        assert(spec_u32_to_le_bytes(x) == le@);
        assert(spec_u32_to_be_bytes(x) =~= s@);
    }
    x
}

pub fn u64_from_be_bytes(s: &[u8]) -> (x: u64)
    requires
        s@.len() == 8,
    ensures
        spec_u64_to_be_bytes(x) == s@,
{
    let le = reversed(s);
    let x = u64_from_le_bytes(le.as_slice());
    proof {
        lemma_auto_spec_u64_to_from_le_bytes();
        assert(spec_u64_to_le_bytes(x) == le@);
        assert(spec_u64_to_be_bytes(x) =~= s@);
    }
    x
}

pub fn u128_from_be_bytes(s: &[u8]) -> (x: u128)
    requires
        s@.len() == 16,
    ensures
        spec_u128_to_be_bytes(x) == s@,
{
    let le = reversed(s);
    let x = u128_from_le_bytes(le.as_slice());
    proof {
        lemma_auto_spec_u128_to_from_le_bytes();
        assert(spec_u128_to_le_bytes(x) == le@);
        assert(spec_u128_to_be_bytes(x) =~= s@);
    }
    x
}

/// The big-endian encodings have fixed length and are injective.
pub proof fn lemma_be_bytes_properties()
    ensures
        forall|x: u32| (#[trigger] spec_u32_to_be_bytes(x)).len() == 4,
        forall|x: u64| (#[trigger] spec_u64_to_be_bytes(x)).len() == 8,
        forall|x: u128| (#[trigger] spec_u128_to_be_bytes(x)).len() == 16,
        forall|x: u32, y: u32|
            spec_u32_to_be_bytes(x) == spec_u32_to_be_bytes(y) ==> x == y,
        forall|x: u64, y: u64|
            spec_u64_to_be_bytes(x) == spec_u64_to_be_bytes(y) ==> x == y,
        forall|x: u128, y: u128|
            spec_u128_to_be_bytes(x) == spec_u128_to_be_bytes(y) ==> x == y,
{
    lemma_auto_spec_u32_to_from_le_bytes();
    lemma_auto_spec_u64_to_from_le_bytes();
    lemma_auto_spec_u128_to_from_le_bytes();
    assert forall|x: u32, y: u32|
        spec_u32_to_be_bytes(x) == spec_u32_to_be_bytes(y) implies x == y by {
        assert(spec_u32_to_le_bytes(x).reverse().reverse() =~= spec_u32_to_le_bytes(x));
        assert(spec_u32_to_le_bytes(y).reverse().reverse() =~= spec_u32_to_le_bytes(y));
        assert(spec_u32_to_le_bytes(x) == spec_u32_to_le_bytes(y));
    }
    assert forall|x: u64, y: u64|
        spec_u64_to_be_bytes(x) == spec_u64_to_be_bytes(y) implies x == y by {
        assert(spec_u64_to_le_bytes(x).reverse().reverse() =~= spec_u64_to_le_bytes(x));
        assert(spec_u64_to_le_bytes(y).reverse().reverse() =~= spec_u64_to_le_bytes(y));
        assert(spec_u64_to_le_bytes(x) == spec_u64_to_le_bytes(y));
    }
    assert forall|x: u128, y: u128|
        spec_u128_to_be_bytes(x) == spec_u128_to_be_bytes(y) implies x == y by {
        assert(spec_u128_to_le_bytes(x).reverse().reverse() =~= spec_u128_to_le_bytes(x));
        assert(spec_u128_to_le_bytes(y).reverse().reverse() =~= spec_u128_to_le_bytes(y));
        assert(spec_u128_to_le_bytes(x) == spec_u128_to_le_bytes(y));
    }
}


/// The value an eight-byte big-endian sequence denotes.
pub open spec fn spec_u64_from_be_bytes(s: Seq<u8>) -> u64 {
    spec_u64_from_le_bytes(s.reverse())
}

/// From-bytes inverts to-bytes in both directions.
pub proof fn lemma_u64_be_from_to()
    ensures
        forall|x: u64| spec_u64_from_be_bytes(#[trigger] spec_u64_to_be_bytes(x)) == x,
        forall|s: Seq<u8>|
            s.len() == 8 ==> spec_u64_to_be_bytes(#[trigger] spec_u64_from_be_bytes(s)) == s,
{
    lemma_auto_spec_u64_to_from_le_bytes();
    assert forall|x: u64| spec_u64_from_be_bytes(#[trigger] spec_u64_to_be_bytes(x)) == x by {
        assert(spec_u64_to_le_bytes(x).reverse().reverse() =~= spec_u64_to_le_bytes(x));
    }
    assert forall|s: Seq<u8>| s.len() == 8 implies spec_u64_to_be_bytes(
        #[trigger] spec_u64_from_be_bytes(s),
    ) == s by {
        assert(spec_u64_to_le_bytes(spec_u64_from_le_bytes(s.reverse())) == s.reverse());
        assert(s.reverse().reverse() =~= s);
    }
}


/// The value a four-byte big-endian sequence denotes.
pub open spec fn spec_u32_from_be_bytes(s: Seq<u8>) -> u32 {
    vstd::bytes::spec_u32_from_le_bytes(s.reverse())
}

/// The value a sixteen-byte big-endian sequence denotes.
pub open spec fn spec_u128_from_be_bytes(s: Seq<u8>) -> u128 {
    vstd::bytes::spec_u128_from_le_bytes(s.reverse())
}

/// From-bytes inverts to-bytes for the other widths too.
pub proof fn lemma_u32_u128_be_from_to()
    ensures
        forall|x: u32| spec_u32_from_be_bytes(#[trigger] spec_u32_to_be_bytes(x)) == x,
        forall|x: u128| spec_u128_from_be_bytes(#[trigger] spec_u128_to_be_bytes(x)) == x,
{
    lemma_auto_spec_u32_to_from_le_bytes();
    lemma_auto_spec_u128_to_from_le_bytes();
    assert forall|x: u32| spec_u32_from_be_bytes(#[trigger] spec_u32_to_be_bytes(x)) == x by {
        assert(spec_u32_to_le_bytes(x).reverse().reverse() =~= spec_u32_to_le_bytes(x));
    }
    assert forall|x: u128| spec_u128_from_be_bytes(#[trigger] spec_u128_to_be_bytes(x)) == x by {
        assert(spec_u128_to_le_bytes(x).reverse().reverse() =~= spec_u128_to_le_bytes(x));
    }
}

} // verus!
