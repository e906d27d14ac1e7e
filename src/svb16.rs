//! The VBZ signal codec.
//!
//! Samples are 16-bit signed integers. Encoding takes wrapping deltas, maps
//! them through zig-zag onto unsigned values, lays those out with a 16-bit
//! variant of stream-vbyte (one control bit per value: one data byte or two)
//! and hands the result to zstd. Decoding undoes the four stages.

use vstd::prelude::*;

verus! {

/// Number of control bytes that describe `n` values: one bit per value.
pub open spec fn ctrl_len(n: int) -> int {
    (n + 7) / 8
}

/// Zig-zag map of a signed delta onto an unsigned value.
pub open spec fn zigzag_encode_spec(d: i16) -> u16 {
    ((d << 1u16) ^ (d >> 15u16)) as u16
}

/// Inverse of the zig-zag map.
pub open spec fn zigzag_decode_spec(u: u16) -> i16 {
    (if u & 1u16 == 0 {
        u >> 1u16
    } else {
        !(u >> 1u16)
    }) as i16
}

proof fn lemma_zigzag_round_trip(d: i16)
    ensures
        zigzag_decode_spec(zigzag_encode_spec(d)) == d,
{
    assert((if ((((d << 1u16) ^ (d >> 15u16)) as u16) & 1u16 == 0) {
        (((d << 1u16) ^ (d >> 15u16)) as u16) >> 1u16
    } else {
        !((((d << 1u16) ^ (d >> 15u16)) as u16) >> 1u16)
    }) as i16 == d) by (bit_vector);
}

/// Zig-zag encoding of one delta.
pub fn zigzag_encode(d: i16) -> (r: u16)
    ensures
        r == zigzag_encode_spec(d),
{
    ((d << 1u16) ^ (d >> 15u16)) as u16
}

/// Zig-zag decoding of one value.
pub fn zigzag_decode(u: u16) -> (r: i16)
    ensures
        r == zigzag_decode_spec(u),
{
    if u & 1 == 0 {
        (u >> 1u16) as i16
    } else {
        (!(u >> 1u16)) as i16
    }
}

/// Number of control bytes used for `count` values: `ceil(count / 8)`.
pub fn num_ctrl_bytes(count: usize) -> (r: usize)
    ensures
        r as int == ctrl_len(count as int),
{
    let low = count & 7usize;
    assert(count & 7usize <= 7usize) by (bit_vector);
    assert(count & 7usize == count % 8) by (bit_vector);
    assert(count >> 3usize == count / 8) by (bit_vector);
    let high = count >> 3usize;
    let extra = (low + 7usize) >> 3usize;
    assert(low <= 7usize ==> ((low + 7usize) as usize) >> 3usize == (if low == 0 {
        0usize
    } else {
        1usize
    })) by (bit_vector);
    high + extra
}

/// Whether a value takes two data bytes rather than one.
pub open spec fn is_wide(v: u16) -> bool {
    v > 255
}

/// The data bytes of one value: its low byte, then its high byte if wide.
pub open spec fn value_bytes(v: u16) -> Seq<u8> {
    if is_wide(v) {
        seq![(v & 0xffu16) as u8, (v >> 8u16) as u8]
    } else {
        seq![v as u8]
    }
}

/// The data bytes of all values, in order.
pub open spec fn data_bytes(u: Seq<u16>) -> Seq<u8>
    decreases u.len(),
{
    if u.len() == 0 {
        Seq::empty()
    } else {
        data_bytes(u.drop_last()) + value_bytes(u.last())
    }
}

/// Control byte `j` with its first `k` bits filled in: bit `m` (least
/// significant first) is set iff value `8 * j + m` exists and is wide.
pub open spec fn ctrl_bits(u: Seq<u16>, j: int, k: int) -> u8
    decreases k,
{
    if k <= 0 {
        0u8
    } else {
        let prev = ctrl_bits(u, j, k - 1);
        let i = 8 * j + k - 1;
        if i < u.len() && is_wide(u[i]) {
            prev | (1u8 << ((k - 1) as u8))
        } else {
            prev
        }
    }
}

/// All control bytes of a sequence of values.
pub open spec fn ctrl_bytes(u: Seq<u16>) -> Seq<u8> {
    Seq::new(ctrl_len(u.len() as int) as nat, |j: int| ctrl_bits(u, j, 8))
}

/// Stream-vbyte-16 layout: the control block, then the data block.
pub open spec fn svb_encode_spec(u: Seq<u16>) -> Seq<u8> {
    ctrl_bytes(u) + data_bytes(u)
}

/// Control bit of value `i` in a control block.
pub open spec fn ctrl_bit(ctrl: Seq<u8>, i: int) -> bool {
    (ctrl[i / 8] >> ((i % 8) as u8)) & 1u8 == 1u8
}

/// Number of data bytes that value `i` takes according to its control bit.
pub open spec fn bit_width(ctrl: Seq<u8>, i: int) -> int {
    if ctrl_bit(ctrl, i) {
        2
    } else {
        1
    }
}

/// Offset in the data block of value `i`.
pub open spec fn data_offset(ctrl: Seq<u8>, i: int) -> int
    decreases i,
{
    if i <= 0 {
        0
    } else {
        data_offset(ctrl, i - 1) + bit_width(ctrl, i - 1)
    }
}

/// Value `i` read from the data block.
pub open spec fn read_value(ctrl: Seq<u8>, data: Seq<u8>, i: int) -> u16 {
    let p = data_offset(ctrl, i);
    if ctrl_bit(ctrl, i) {
        (data[p] as u16) | ((data[p + 1] as u16) << 8u16)
    } else {
        data[p] as u16
    }
}

/// Stream-vbyte-16 decoding of `n` values. `None` when the buffer is shorter
/// than the control block plus the data bytes that the control bits announce.
/// Bytes past those are ignored, and so are control bits past value `n`.
pub open spec fn svb_decode_spec(b: Seq<u8>, n: int) -> Option<Seq<u16>> {
    let c = ctrl_len(n);
    if b.len() < c {
        None
    } else {
        let ctrl = b.subrange(0, c);
        let data = b.subrange(c, b.len() as int);
        if data.len() < data_offset(ctrl, n) {
            None
        } else {
            Some(Seq::new(n as nat, |i: int| read_value(ctrl, data, i)))
        }
    }
}

proof fn lemma_data_offset_monotone(ctrl: Seq<u8>, i: int, j: int)
    requires
        0 <= i <= j,
    ensures
        data_offset(ctrl, i) <= data_offset(ctrl, j),
    decreases j - i,
{
    if i < j {
        lemma_data_offset_monotone(ctrl, i, j - 1);
    }
}

/// Writes the control block.
fn encode_ctrl(u: &[u16]) -> (r: Vec<u8>)
    ensures
        r@ == ctrl_bytes(u@),
{
    let n = u.len();
    let c = num_ctrl_bytes(n);
    let mut out: Vec<u8> = Vec::new();
    let mut j: usize = 0;
    while j < c
        invariant
            n == u@.len(),
            c as int == ctrl_len(n as int),
            j <= c,
            out@ == Seq::new(j as nat, |jj: int| ctrl_bits(u@, jj, 8)),
        decreases c - j,
    {
        assert(8 * j < n);
        let base = 8 * j;
        let mut byte: u8 = 0;
        let mut k: usize = 0;
        while k < 8
            invariant
                n == u@.len(),
                base == 8 * j,
                base < n,
                k <= 8,
                byte == ctrl_bits(u@, j as int, k as int),
            decreases 8 - k,
        {
            if k < n - base && u[base + k] > 255 {
                byte = byte | (1u8 << (k as u8));
            }
            k += 1;
        }
        out.push(byte);
        proof {
            assert(out@ =~= Seq::new((j + 1) as nat, |jj: int| ctrl_bits(u@, jj, 8)));
        }
        j += 1;
    }
    out
}

proof fn lemma_data_bytes_step(u: Seq<u16>, i: int)
    requires
        0 <= i < u.len(),
    ensures
        data_bytes(u.subrange(0, i + 1)) == data_bytes(u.subrange(0, i)) + value_bytes(u[i]),
{
    assert(u.subrange(0, i + 1).drop_last() =~= u.subrange(0, i));
}

/// Writes the data block.
fn encode_data(u: &[u16]) -> (r: Vec<u8>)
    ensures
        r@ == data_bytes(u@),
{
    let mut out: Vec<u8> = Vec::new();
    let mut i: usize = 0;
    while i < u.len()
        invariant
            i <= u@.len(),
            out@ == data_bytes(u@.subrange(0, i as int)),
        decreases u.len() - i,
    {
        let v = u[i];
        proof {
            lemma_data_bytes_step(u@, i as int);
        }
        if v > 255 {
            out.push((v & 0xff) as u8);
            out.push((v >> 8u16) as u8);
        } else {
            out.push(v as u8);
        }
        proof {
            assert(out@ =~= data_bytes(u@.subrange(0, i + 1)));
        }
        i += 1;
    }
    proof {
        assert(u@.subrange(0, u@.len() as int) =~= u@);
    }
    out
}

/// Stream-vbyte-16 encoding: the control block, then the data block.
pub fn svb_encode(u: &[u16]) -> (r: Vec<u8>)
    ensures
        r@ == svb_encode_spec(u@),
{
    let mut ctrl = encode_ctrl(u);
    let mut data = encode_data(u);
    ctrl.append(&mut data);
    ctrl
}

/// Stream-vbyte-16 decoding of `n` values.
pub fn svb_decode(b: &[u8], n: usize) -> (r: Option<Vec<u16>>)
    ensures
        match r {
            Some(v) => svb_decode_spec(b@, n as int) == Some(v@),
            None => svb_decode_spec(b@, n as int) is None,
        },
{
    let c = num_ctrl_bytes(n);
    if b.len() < c {
        return None;
    }
    let ghost ctrl = b@.subrange(0, c as int);
    let ghost data = b@.subrange(c as int, b@.len() as int);
    let mut out: Vec<u16> = Vec::new();
    let mut pos: usize = c;
    let mut i: usize = 0;
    while i < n
        invariant
            c as int == ctrl_len(n as int),
            c <= b@.len(),
            ctrl == b@.subrange(0, c as int),
            data == b@.subrange(c as int, b@.len() as int),
            i <= n,
            pos as int == c + data_offset(ctrl, i as int),
            pos <= b@.len(),
            out@ == Seq::new(i as nat, |k: int| read_value(ctrl, data, k)),
        decreases n - i,
    {
        assert(i / 8 < c);
        let byte = b[i / 8];
        assert(byte == ctrl[i as int / 8]);
        let bit = (byte >> ((i % 8) as u8)) & 1u8;
        assert((bit == 1) == ctrl_bit(ctrl, i as int));
        let ghost p = data_offset(ctrl, i as int);
        proof {
            lemma_data_offset_monotone(ctrl, 0, i as int);
        }
        let v: u16;
        if bit == 1 {
            if b.len() - pos < 2 {
                proof {
                    lemma_data_offset_monotone(ctrl, i as int + 1, n as int);
                }
                return None;
            }
            v = (b[pos] as u16) | ((b[pos + 1] as u16) << 8u16);
            assert(data[p] == b@[pos as int] && data[p + 1] == b@[pos + 1]);
            assert(v == read_value(ctrl, data, i as int));
            pos += 2;
        } else {
            if b.len() - pos < 1 {
                proof {
                    lemma_data_offset_monotone(ctrl, i as int + 1, n as int);
                }
                return None;
            }
            v = b[pos] as u16;
            assert(data[p] == b@[pos as int]);
            assert(v == read_value(ctrl, data, i as int));
            pos += 1;
        }
        out.push(v);
        proof {
            assert(out@ =~= Seq::new((i + 1) as nat, |k: int| read_value(ctrl, data, k)));
        }
        i += 1;
    }
    Some(out)
}

proof fn lemma_ctrl_bits(u: Seq<u16>, j: int, k: int, m: int)
    requires
        0 <= k <= 8,
        0 <= m < 8,
    ensures
        ((ctrl_bits(u, j, k) >> (m as u8)) & 1u8 == 1u8) <==> (m < k && 8 * j + m < u.len()
            && is_wide(u[8 * j + m])),
    decreases k,
{
    let mb = m as u8;
    if k == 0 {
        assert((0u8 >> mb) & 1u8 == 0u8) by (bit_vector);
    } else {
        lemma_ctrl_bits(u, j, k - 1, m);
        let prev = ctrl_bits(u, j, k - 1);
        let kb = (k - 1) as u8;
        if 8 * j + k - 1 < u.len() && is_wide(u[8 * j + k - 1]) {
            assert(ctrl_bits(u, j, k) == prev | (1u8 << kb));
            if m == k - 1 {
                assert(kb < 8u8 ==> ((prev | (1u8 << kb)) >> kb) & 1u8 == 1u8) by (bit_vector);
            } else {
                assert(kb < 8u8 && mb < 8u8 && mb != kb ==> ((prev | (1u8 << kb)) >> mb) & 1u8 == (
                prev >> mb) & 1u8) by (bit_vector);
            }
        }
    }
}

proof fn lemma_ctrl_bit_encoded(u: Seq<u16>, i: int)
    requires
        0 <= i < u.len(),
    ensures
        ctrl_bit(ctrl_bytes(u), i) == is_wide(u[i]),
{
    lemma_ctrl_bits(u, i / 8, 8, i % 8);
}

proof fn lemma_offsets_encoded(u: Seq<u16>, i: int)
    requires
        0 <= i <= u.len(),
    ensures
        data_offset(ctrl_bytes(u), i) == data_bytes(u.subrange(0, i)).len(),
    decreases i,
{
    if i == 0 {
        assert(u.subrange(0, 0) =~= Seq::<u16>::empty());
    } else {
        lemma_offsets_encoded(u, i - 1);
        lemma_data_bytes_step(u, i - 1);
        lemma_ctrl_bit_encoded(u, i - 1);
    }
}

proof fn lemma_data_bytes_prefix(u: Seq<u16>, i: int)
    requires
        0 <= i <= u.len(),
    ensures
        data_bytes(u.subrange(0, i)).len() <= data_bytes(u).len(),
        data_bytes(u.subrange(0, i)) == data_bytes(u).subrange(
            0,
            data_bytes(u.subrange(0, i)).len() as int,
        ),
    decreases u.len() - i,
{
    if i == u.len() {
        assert(u.subrange(0, i) =~= u);
        assert(data_bytes(u).subrange(0, data_bytes(u).len() as int) =~= data_bytes(u));
    } else {
        lemma_data_bytes_prefix(u, i + 1);
        lemma_data_bytes_step(u, i);
        let a = data_bytes(u.subrange(0, i));
        let b = data_bytes(u.subrange(0, i + 1));
        assert(a =~= b.subrange(0, a.len() as int));
        assert(a =~= data_bytes(u).subrange(0, a.len() as int));
    }
}

proof fn lemma_read_value_encoded(u: Seq<u16>, i: int)
    requires
        0 <= i < u.len(),
    ensures
        read_value(
            ctrl_bytes(u),
            data_bytes(u),
            i,
        ) == u[i],
        data_offset(ctrl_bytes(u), i) + bit_width(ctrl_bytes(u), i) <= data_bytes(u).len(),
{
    let ctrl = ctrl_bytes(u);
    let data = data_bytes(u);
    let v = u[i];
    lemma_offsets_encoded(u, i);
    lemma_offsets_encoded(u, i + 1);
    lemma_ctrl_bit_encoded(u, i);
    lemma_data_bytes_step(u, i);
    lemma_data_bytes_prefix(u, i + 1);
    let a = data_bytes(u.subrange(0, i));
    let b = data_bytes(u.subrange(0, i + 1));
    let p = a.len() as int;
    assert(b == a + value_bytes(v));
    assert(data[p] == b[p]);
    if is_wide(v) {
        assert(data[p + 1] == b[p + 1]);
        assert(((((v & 0xffu16) as u8) as u16) | ((((v >> 8u16) as u8) as u16) << 8u16)) == v)
            by (bit_vector);
    } else {
        assert(v <= 255u16 ==> ((v as u8) as u16) == v) by (bit_vector);
    }
}

/// Decoding the stream-vbyte-16 layout of `u` gives back `u`.
pub proof fn lemma_svb_round_trip(u: Seq<u16>)
    ensures
        svb_decode_spec(svb_encode_spec(u), u.len() as int) == Some(u),
{
    let b = svb_encode_spec(u);
    let ctrl = ctrl_bytes(u);
    let data = data_bytes(u);
    let c = ctrl_len(u.len() as int);
    assert(b.subrange(0, c) =~= ctrl);
    assert(b.subrange(c, b.len() as int) =~= data);
    lemma_offsets_encoded(u, u.len() as int);
    assert(u.subrange(0, u.len() as int) =~= u);
    assert forall|i: int| 0 <= i < u.len() implies read_value(ctrl, data, i) == u[i] by {
        lemma_read_value_encoded(u, i);
    }
    assert(Seq::new(u.len(), |i: int| read_value(ctrl, data, i)) =~= u);
}

/// Compression level handed to zstd when encoding.
pub const ZSTD_LEVEL: i32 = 1;

/// Ways in which encoding or decoding a signal fails.
#[derive(Debug, Clone, Copy, PartialEq, Eq, Structural)]
pub enum CodecError {
    /// The outer decompressor refused the blob.
    Decompress,
    /// The inner buffer is shorter than the control block plus the data bytes
    /// that it announces.
    Truncated,
}

/// What zstd's decoder yields for a frame; `None` where it refuses it.
pub uninterp spec fn zstd_decoded(frame: Seq<u8>) -> Option<Seq<u8>>;

/// The frame that zstd's block compressor makes of `data` at `level`.
pub uninterp spec fn zstd_frame(data: Seq<u8>, level: int) -> Seq<u8>;

/// Relies on zstd::bulk::compress: one zstd frame holding `data`, which
/// zstd's decoder turns back into `data`. It compresses into a buffer of
/// `compress_bound(data.len())` bytes, so at a valid level it does not fail.
#[verifier::external_body]
fn zstd_compress(data: &[u8], level: i32) -> (r: Option<Vec<u8>>)
    requires
        1 <= level <= 22,
    ensures
        r is Some,
        r matches Some(f) ==> f@ == zstd_frame(data@, level as int) && zstd_decoded(f@) == Some(
            data@,
        ),
{
    zstd::bulk::compress(data, level).ok()
}

/// Relies on zstd::decode_all: the content of the zstd frames in `frame`, or
/// an error where the input is not in the zstd frame format.
#[verifier::external_body]
fn zstd_decompress(frame: &[u8]) -> (r: Option<Vec<u8>>)
    ensures
        match r {
            Some(v) => zstd_decoded(frame@) == Some(v@),
            None => zstd_decoded(frame@) is None,
        },
{
    zstd::decode_all(frame).ok()
}

/// Sample before position `i`, zero before the first.
pub open spec fn previous(x: Seq<i16>, i: int) -> i16 {
    if i <= 0 {
        0i16
    } else {
        x[i - 1]
    }
}

/// Zig-zagged wrapping deltas of the samples.
pub open spec fn zz_deltas(x: Seq<i16>) -> Seq<u16> {
    Seq::new(x.len(), |i: int| zigzag_encode_spec(x[i].wrapping_sub(previous(x, i))))
}

/// Wrapping running sum of the zig-zag-decoded values up to `i`.
pub open spec fn running_sum(u: Seq<u16>, i: int) -> i16
    recommends
        i < u.len(),
    decreases i + 1,
{
    if i < 0 {
        0i16
    } else {
        running_sum(u, i - 1).wrapping_add(zigzag_decode_spec(u[i]))
    }
}

/// Samples recovered from zig-zagged deltas.
pub open spec fn undelta(u: Seq<u16>) -> Seq<i16> {
    Seq::new(u.len(), |i: int| running_sum(u, i))
}

/// The buffer that is handed to the outer compressor: stream-vbyte-16 of the
/// zig-zagged deltas.
pub open spec fn vbz_inner(x: Seq<i16>) -> Seq<u8> {
    svb_encode_spec(zz_deltas(x))
}

/// Decoding of `n` samples from the decompressed buffer.
pub open spec fn vbz_decode_inner_spec(inner: Seq<u8>, n: int) -> Result<Seq<i16>, CodecError> {
    match svb_decode_spec(inner, n) {
        Some(u) => Ok(undelta(u)),
        None => Err(CodecError::Truncated),
    }
}

/// Decoding of `n` samples from a compressed blob.
pub open spec fn vbz_decode_spec(frame: Seq<u8>, n: int) -> Result<Seq<i16>, CodecError> {
    match zstd_decoded(frame) {
        Some(inner) => vbz_decode_inner_spec(inner, n),
        None => Err(CodecError::Decompress),
    }
}

/// Zig-zagged wrapping deltas of the samples.
pub fn zigzag_deltas(x: &[i16]) -> (r: Vec<u16>)
    ensures
        r@ == zz_deltas(x@),
{
    let mut out: Vec<u16> = Vec::new();
    let mut prev: i16 = 0;
    let mut i: usize = 0;
    while i < x.len()
        invariant
            i <= x@.len(),
            prev == previous(x@, i as int),
            out@ == zz_deltas(x@).subrange(0, i as int),
        decreases x.len() - i,
    {
        let d = x[i].wrapping_sub(prev);
        out.push(zigzag_encode(d));
        prev = x[i];
        proof {
            assert(out@ =~= zz_deltas(x@).subrange(0, i + 1));
        }
        i += 1;
    }
    proof {
        assert(zz_deltas(x@).subrange(0, x@.len() as int) =~= zz_deltas(x@));
    }
    out
}

/// Samples recovered from zig-zagged deltas by a wrapping running sum.
pub fn undo_deltas(u: &[u16]) -> (r: Vec<i16>)
    ensures
        r@ == undelta(u@),
{
    let mut out: Vec<i16> = Vec::new();
    let mut acc: i16 = 0;
    let mut i: usize = 0;
    while i < u.len()
        invariant
            i <= u@.len(),
            acc == running_sum(u@, i - 1),
            out@ == undelta(u@).subrange(0, i as int),
        decreases u.len() - i,
    {
        acc = acc.wrapping_add(zigzag_decode(u[i]));
        out.push(acc);
        proof {
            assert(out@ =~= undelta(u@).subrange(0, i + 1));
        }
        i += 1;
    }
    proof {
        assert(undelta(u@).subrange(0, u@.len() as int) =~= undelta(u@));
    }
    out
}

/// Splits a decompressed buffer into its control block and its data block.
pub fn split_data(compressed: &[u8], count: usize) -> (r: (&[u8], &[u8]))
    requires
        compressed@.len() >= ctrl_len(count as int),
    ensures
        r.0@ == compressed@.subrange(0, ctrl_len(count as int)),
        r.1@ == compressed@.subrange(ctrl_len(count as int), compressed@.len() as int),
{
    let mid = num_ctrl_bytes(count);
    compressed.split_at(mid)
}

/// Largest size of the inner buffer for `count` samples.
pub fn max_encoded_length(count: usize) -> (r: usize)
    requires
        count <= usize::MAX / 3,
    ensures
        r == ctrl_len(count as int) + 2 * count,
{
    num_ctrl_bytes(count) + 2 * count
}

/// Decodes `count` samples from a decompressed buffer.
pub fn decode_inner(inner: &[u8], count: usize) -> (r: Result<Vec<i16>, CodecError>)
    ensures
        match r {
            Ok(v) => vbz_decode_inner_spec(inner@, count as int) == Ok::<Seq<i16>, CodecError>(v@),
            Err(e) => vbz_decode_inner_spec(inner@, count as int) == Err::<Seq<i16>, CodecError>(e),
        },
{
    match svb_decode(inner, count) {
        Some(u) => Ok(undo_deltas(&u)),
        None => Err(CodecError::Truncated),
    }
}

/// VBZ decoding of `count` samples: zstd, stream-vbyte-16, zig-zag, deltas.
///
/// Each row of a signal table is a codec unit of its own: blobs of several
/// rows are decoded one by one, not joined.
pub fn decode(compressed: &[u8], count: usize) -> (r: Result<Vec<i16>, CodecError>)
    ensures
        match r {
            Ok(v) => vbz_decode_spec(compressed@, count as int) == Ok::<Seq<i16>, CodecError>(v@),
            Err(e) => vbz_decode_spec(compressed@, count as int) == Err::<Seq<i16>, CodecError>(e),
        },
{
    match zstd_decompress(compressed) {
        Some(inner) => decode_inner(&inner, count),
        None => Err(CodecError::Decompress),
    }
}

/// The inner buffer of VBZ encoding: deltas, zig-zag, stream-vbyte-16.
pub fn encode_inner(uncompressed: &[i16]) -> (r: Vec<u8>)
    ensures
        r@ == vbz_inner(uncompressed@),
{
    let u = zigzag_deltas(uncompressed);
    svb_encode(&u)
}

/// VBZ encoding: deltas, zig-zag, stream-vbyte-16, then zstd at level 1.
/// It succeeds on every input.
pub fn encode(uncompressed: &[i16]) -> (r: Result<Vec<u8>, CodecError>)
    ensures
        r matches Ok(f) && f@ == zstd_frame(vbz_inner(uncompressed@), ZSTD_LEVEL as int)
            && zstd_decoded(f@) == Some(vbz_inner(uncompressed@)),
{
    let inner = encode_inner(uncompressed);
    let f = zstd_compress(&inner, ZSTD_LEVEL);
    Ok(f.unwrap())
}

proof fn lemma_running_sum_of_deltas(x: Seq<i16>, i: int)
    requires
        -1 <= i < x.len(),
    ensures
        running_sum(zz_deltas(x), i) == (if i < 0 {
            0i16
        } else {
            x[i]
        }),
    decreases i + 1,
{
    if i >= 0 {
        lemma_running_sum_of_deltas(x, i - 1);
        lemma_zigzag_round_trip(x[i].wrapping_sub(previous(x, i)));
    }
}

/// Decoding the inner buffer of `x` with `x.len()` samples gives `x` back.
pub proof fn lemma_vbz_inner_round_trip(x: Seq<i16>)
    ensures
        vbz_decode_inner_spec(vbz_inner(x), x.len() as int) == Ok::<Seq<i16>, CodecError>(x),
{
    let u = zz_deltas(x);
    lemma_svb_round_trip(u);
    assert forall|i: int| 0 <= i < x.len() implies undelta(u)[i] == x[i] by {
        lemma_running_sum_of_deltas(x, i);
    }
    assert(undelta(u) =~= x);
}

/// Decoding a blob that `encode(x)` returned, with `x.len()` samples, gives
/// `x` back.
pub proof fn lemma_vbz_round_trip(x: Seq<i16>, frame: Seq<u8>)
    ensures
        zstd_decoded(frame) == Some(vbz_inner(x)) ==> vbz_decode_spec(frame, x.len() as int) == Ok::<
            Seq<i16>,
            CodecError,
        >(x),
{
    lemma_vbz_inner_round_trip(x);
}

} // verus!
