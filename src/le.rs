//! Little-endian integers at positions of a byte buffer.

use vstd::bytes::*;
use vstd::prelude::*;
use vstd::slice::slice_subrange;

verus! {

/// Whether `n` bytes starting at `p` lie inside `b`.
pub open spec fn in_bounds(b: Seq<u8>, p: int, n: int) -> bool {
    0 <= p && 0 <= n && p + n <= b.len()
}

/// The unsigned 16-bit integer stored at `p`.
pub open spec fn u16_at(b: Seq<u8>, p: int) -> u16 {
    spec_u16_from_le_bytes(b.subrange(p, p + 2))
}

/// The unsigned 32-bit integer stored at `p`.
pub open spec fn u32_at(b: Seq<u8>, p: int) -> u32 {
    spec_u32_from_le_bytes(b.subrange(p, p + 4))
}

/// The unsigned 64-bit integer stored at `p`.
pub open spec fn u64_at(b: Seq<u8>, p: int) -> u64 {
    spec_u64_from_le_bytes(b.subrange(p, p + 8))
}

/// Reads the unsigned 16-bit integer at `p`, if it lies inside `b`.
pub fn read_u16(b: &[u8], p: usize) -> (r: Option<u16>)
    ensures
        r == (if in_bounds(b@, p as int, 2) {
            Some(u16_at(b@, p as int))
        } else {
            None
        }),
{
    if p <= b.len() && b.len() - p >= 2 {
        Some(u16_from_le_bytes(slice_subrange(b, p, p + 2)))
    } else {
        None
    }
}

/// Reads the unsigned 32-bit integer at `p`, if it lies inside `b`.
pub fn read_u32(b: &[u8], p: usize) -> (r: Option<u32>)
    ensures
        r == (if in_bounds(b@, p as int, 4) {
            Some(u32_at(b@, p as int))
        } else {
            None
        }),
{
    if p <= b.len() && b.len() - p >= 4 {
        Some(u32_from_le_bytes(slice_subrange(b, p, p + 4)))
    } else {
        None
    }
}

/// Reads the unsigned 64-bit integer at `p`, if it lies inside `b`.
pub fn read_u64(b: &[u8], p: usize) -> (r: Option<u64>)
    ensures
        r == (if in_bounds(b@, p as int, 8) {
            Some(u64_at(b@, p as int))
        } else {
            None
        }),
{
    if p <= b.len() && b.len() - p >= 8 {
        Some(u64_from_le_bytes(slice_subrange(b, p, p + 8)))
    } else {
        None
    }
}

/// Little-endian bytes of a 16-bit value.
pub open spec fn le16(x: u16) -> Seq<u8> {
    spec_u16_to_le_bytes(x)
}

/// Little-endian bytes of a 32-bit value.
pub open spec fn le32(x: u32) -> Seq<u8> {
    spec_u32_to_le_bytes(x)
}

/// Little-endian bytes of a 64-bit value.
pub open spec fn le64(x: u64) -> Seq<u8> {
    spec_u64_to_le_bytes(x)
}

/// Appends the little-endian bytes of a 16-bit value.
pub fn push_u16(buf: &mut Vec<u8>, x: u16)
    ensures
        final(buf)@ == old(buf)@ + le16(x),
{
    let mut bytes = u16_to_le_bytes(x);
    buf.append(&mut bytes);
}

/// Appends the little-endian bytes of a 32-bit value.
pub fn push_u32(buf: &mut Vec<u8>, x: u32)
    ensures
        final(buf)@ == old(buf)@ + le32(x),
{
    let mut bytes = u32_to_le_bytes(x);
    buf.append(&mut bytes);
}

/// Appends the little-endian bytes of a 64-bit value.
pub fn push_u64(buf: &mut Vec<u8>, x: u64)
    ensures
        final(buf)@ == old(buf)@ + le64(x),
{
    let mut bytes = u64_to_le_bytes(x);
    buf.append(&mut bytes);
}

/// Appends `n` zero bytes.
pub fn push_zeros(buf: &mut Vec<u8>, n: usize)
    ensures
        final(buf)@ == old(buf)@ + Seq::new(n as nat, |i: int| 0u8),
{
    let mut i: usize = 0;
    while i < n
        invariant
            i <= n,
            buf@ == old(buf)@ + Seq::new(i as nat, |k: int| 0u8),
        decreases n - i,
    {
        buf.push(0u8);
        proof {
            assert(buf@ =~= old(buf)@ + Seq::new((i + 1) as nat, |k: int| 0u8));
        }
        i += 1;
    }
}

/// Lengths of the little-endian encodings, and that reading them back gives
/// the values.
pub proof fn lemma_le_lengths()
    ensures
        forall|x: u16| #[trigger] le16(x).len() == 2 && spec_u16_from_le_bytes(le16(x)) == x,
        forall|x: u32| #[trigger] le32(x).len() == 4 && spec_u32_from_le_bytes(le32(x)) == x,
        forall|x: u64| #[trigger] le64(x).len() == 8 && spec_u64_from_le_bytes(le64(x)) == x,
{
    lemma_auto_spec_u16_to_from_le_bytes();
    lemma_auto_spec_u32_to_from_le_bytes();
    lemma_auto_spec_u64_to_from_le_bytes();
}

/// Whether two byte strings are equal.
pub fn same_bytes(a: &[u8], b: &[u8]) -> (r: bool)
    ensures
        r == (a@ == b@),
{
    if a.len() != b.len() {
        return false;
    }
    let mut i: usize = 0;
    while i < a.len()
        invariant
            a@.len() == b@.len(),
            i <= a@.len(),
            forall|k: int| 0 <= k < i ==> a@[k] == b@[k],
        decreases a.len() - i,
    {
        if a[i] != b[i] {
            return false;
        }
        i += 1;
    }
    assert(a@ =~= b@);
    true
}

} // verus!
