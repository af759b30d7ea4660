//! Bit-vector and byte-vector helpers.
//!
//! Availability bitfields and vote bitmaps are plain `Vec<bool>` values with
//! O(1) get/set and a population count; head data and validation code are
//! plain `Vec<u8>` values.  This module holds the few verified operations
//! the engine needs on them.

use vstd::prelude::*;

verus! {

/// How many bits of `s` are set.
pub open spec fn count_ones(s: Seq<bool>) -> nat
    decreases s.len(),
{
    if s.len() == 0 {
        0
    } else {
        count_ones(s.drop_last()) + if s.last() {
            1nat
        } else {
            0nat
        }
    }
}

/// Every set bit of `b` is set in `occ` as well.
pub open spec fn bits_covered(b: Seq<bool>, occ: Seq<bool>) -> bool {
    forall|j: int| 0 <= j < b.len() && b[j] ==> j < occ.len() && occ[j]
}

/// Population count of a bit vector.
pub fn popcount(v: &Vec<bool>) -> (n: usize)
    ensures
        n == count_ones(v@),
{
    let len: usize = v.len();
    let mut n: usize = 0;
    let mut i: usize = 0;
    while i < len
        invariant
            len == v@.len(),
            i <= len,
            n <= i,
            n == count_ones(v@.subrange(0, i as int)),
        decreases len - i,
    {
        proof {
            assert(v@.subrange(0, i + 1).drop_last() =~= v@.subrange(0, i as int));
            assert(v@.subrange(0, i + 1).last() == v@[i as int]);
        }
        if v[i] {
            n += 1;
        }
        i += 1;
    }
    proof {
        assert(v@.subrange(0, len as int) =~= v@);
    }
    n
}

/// Whether every set bit of `b` is also set in `occ`.
pub fn covered_by(b: &Vec<bool>, occ: &Vec<bool>) -> (r: bool)
    ensures
        r == bits_covered(b@, occ@),
{
    let len: usize = b.len();
    let occ_len: usize = occ.len();
    let mut i: usize = 0;
    while i < len
        invariant
            len == b@.len(),
            occ_len == occ@.len(),
            i <= len,
            forall|j: int| 0 <= j < i && b@[j] ==> j < occ@.len() && occ@[j],
        decreases len - i,
    {
        if b[i] && (i >= occ_len || !occ[i]) {
            return false;
        }
        i += 1;
    }
    true
}

/// Whether two bit vectors hold the same bits.
pub fn bits_equal(a: &Vec<bool>, b: &Vec<bool>) -> (r: bool)
    ensures
        r == (a@ == b@),
{
    if a.len() != b.len() {
        return false;
    }
    let len: usize = a.len();
    let mut i: usize = 0;
    while i < len
        invariant
            len == a@.len(),
            len == b@.len(),
            i <= len,
            forall|j: int| 0 <= j < i ==> a@[j] == b@[j],
        decreases len - i,
    {
        if a[i] != b[i] {
            return false;
        }
        i += 1;
    }
    proof {
        assert(a@ =~= b@);
    }
    true
}

/// Whether two byte vectors hold the same bytes.
pub fn bytes_equal(a: &Vec<u8>, b: &Vec<u8>) -> (r: bool)
    ensures
        r == (a@ == b@),
{
    if a.len() != b.len() {
        return false;
    }
    let len: usize = a.len();
    let mut i: usize = 0;
    while i < len
        invariant
            len == a@.len(),
            len == b@.len(),
            i <= len,
            forall|j: int| 0 <= j < i ==> a@[j] == b@[j],
        decreases len - i,
    {
        if a[i] != b[i] {
            return false;
        }
        i += 1;
    }
    proof {
        assert(a@ =~= b@);
    }
    true
}

/// A fresh bit vector with the same bits.
pub fn clone_bits(v: &Vec<bool>) -> (r: Vec<bool>)
    ensures
        r@ == v@,
{
    let len: usize = v.len();
    let mut r: Vec<bool> = Vec::new();
    let mut i: usize = 0;
    while i < len
        invariant
            len == v@.len(),
            i <= len,
            r@ =~= v@.subrange(0, i as int),
        decreases len - i,
    {
        r.push(v[i]);
        i += 1;
    }
    proof {
        assert(r@ =~= v@);
    }
    r
}

/// A fresh byte vector with the same bytes.
pub fn clone_bytes(v: &Vec<u8>) -> (r: Vec<u8>)
    ensures
        r@ == v@,
{
    let len: usize = v.len();
    let mut r: Vec<u8> = Vec::new();
    let mut i: usize = 0;
    while i < len
        invariant
            len == v@.len(),
            i <= len,
            r@ =~= v@.subrange(0, i as int),
        decreases len - i,
    {
        r.push(v[i]);
        i += 1;
    }
    proof {
        assert(r@ =~= v@);
    }
    r
}

/// A bit vector of `n` zero bits.
pub fn zero_bits(n: usize) -> (r: Vec<bool>)
    ensures
        r@.len() == n,
        forall|j: int| 0 <= j < n ==> !r@[j],
{
    let mut r: Vec<bool> = Vec::new();
    let mut i: usize = 0;
    while i < n
        invariant
            i <= n,
            r@.len() == i,
            forall|j: int| 0 <= j < i ==> !r@[j],
        decreases n - i,
    {
        r.push(false);
        i += 1;
    }
    r
}

} // verus!
