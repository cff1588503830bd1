//! Little-endian integer encoding helpers shared by the page, heap-file
//! and registry codecs.

use vstd::prelude::*;

verus! {

/// Value of a 16-bit little-endian integer stored as two bytes.
pub open spec fn le16(lo: u8, hi: u8) -> int {
    lo as int + 256 * (hi as int)
}

/// Low byte of a 16-bit value.
pub open spec fn lo16(x: u16) -> u8 {
    (x % 256) as u8
}

/// High byte of a 16-bit value.
pub open spec fn hi16(x: u16) -> u8 {
    (x / 256) as u8
}

pub proof fn lemma_le16_parts(x: u16)
    ensures
        le16(lo16(x), hi16(x)) == x as int,
        lo16(x) < 256,
        hi16(x) < 256,
{
}

pub proof fn lemma_le16_bytes(lo: u8, hi: u8)
    ensures
        0 <= le16(lo, hi) < 65536,
        lo16(le16(lo, hi) as u16) == lo,
        hi16(le16(lo, hi) as u16) == hi,
{
}

/// Reads the 16-bit little-endian integer at byte position `i`.
pub fn read_u16_at(b: &Vec<u8>, i: usize) -> (r: u16)
    requires
        i + 1 < b@.len(),
    ensures
        r as int == le16(b@[i as int], b@[i as int + 1]),
{
    let n = b.len();
    let lo = b[i];
    let hi = b[i + 1];
    lo as u16 + 256 * (hi as u16)
}

/// Writes `x` as a 16-bit little-endian integer at byte position `i`.
pub fn put_u16_at(b: &mut Vec<u8>, i: usize, x: u16)
    requires
        i + 1 < old(b)@.len(),
    ensures
        final(b)@ =~= old(b)@.update(i as int, lo16(x)).update(i as int + 1, hi16(x)),
{
    let n = b.len();
    let lo = (x % 256) as u8;
    let hi = (x / 256) as u8;
    b.set(i, lo);
    b.set(i + 1, hi);
}

/// Appends `x` as a 16-bit little-endian integer.
pub fn push_u16(b: &mut Vec<u8>, x: u16)
    ensures
        final(b)@ =~= old(b)@ + seq![lo16(x), hi16(x)],
{
    let lo = (x % 256) as u8;
    let hi = (x / 256) as u8;
    b.push(lo);
    b.push(hi);
}

/// Returns a fresh vector of `n` zero bytes.
pub fn zero_bytes(n: usize) -> (r: Vec<u8>)
    ensures
        r@ =~= Seq::new(n as nat, |i: int| 0u8),
{
    let mut r: Vec<u8> = Vec::new();
    let mut k: usize = 0;
    while k < n
        invariant
            k <= n,
            r@ =~= Seq::new(k as nat, |i: int| 0u8),
        decreases n - k,
    {
        r.push(0u8);
        k = k + 1;
    }
    r
}

/// Returns a copy of `v`.
pub fn copy_bytes(v: &Vec<u8>) -> (r: Vec<u8>)
    ensures
        r@ =~= v@,
{
    let mut r: Vec<u8> = Vec::new();
    let mut k: usize = 0;
    while k < v.len()
        invariant
            k <= v@.len(),
            r@ =~= v@.subrange(0, k as int),
        decreases v@.len() - k,
    {
        r.push(v[k]);
        k = k + 1;
    }
    r
}

} // verus!
