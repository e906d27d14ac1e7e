//! Read identifiers and signal records.

use crate::svb16::{decode, vbz_decode_spec, CodecError};
use vstd::prelude::*;

verus! {

/// Lower-case hexadecimal digit of a value below 16.
pub open spec fn hex_digit(d: int) -> char {
    if d < 10 {
        (48 + d) as char
    } else {
        (87 + d) as char
    }
}

/// The two hexadecimal digits of a byte, high digit first.
pub open spec fn hex_pair(b: u8) -> Seq<char> {
    seq![hex_digit(b as int / 16), hex_digit(b as int % 16)]
}

/// Hexadecimal digits of a byte string.
pub open spec fn hex_text(s: Seq<u8>) -> Seq<char>
    decreases s.len(),
{
    if s.len() == 0 {
        Seq::empty()
    } else {
        hex_text(s.drop_last()) + hex_pair(s.last())
    }
}

/// Hyphenated lower-case text of a 16-byte identifier: groups of 4, 2, 2, 2
/// and 6 bytes.
pub open spec fn uuid_text_spec(b: Seq<u8>) -> Seq<char> {
    hex_text(b.subrange(0, 4)) + seq!['-'] + hex_text(b.subrange(4, 6)) + seq!['-'] + hex_text(
        b.subrange(6, 8),
    ) + seq!['-'] + hex_text(b.subrange(8, 10)) + seq!['-'] + hex_text(b.subrange(10, 16))
}

/// The 16 bytes that uuid's parser reads from a text, or `None` where it
/// refuses the text.
pub uninterp spec fn uuid_parsed(s: Seq<char>) -> Option<Seq<u8>>;

/// Relies on uuid::Uuid::new_v4: a random identifier.
#[verifier::external_body]
pub(crate) fn random_uuid() -> (r: [u8; 16]) {
    uuid::Uuid::new_v4().into_bytes()
}

/// Relies on uuid::Uuid's `Display`: the hyphenated lower-case text.
#[verifier::external_body]
pub(crate) fn uuid_text(b: [u8; 16]) -> (r: String)
    ensures
        r@ == uuid_text_spec(b@),
{
    uuid::Uuid::from_bytes(b).to_string()
}

/// Relies on uuid::Uuid::parse_str: the bytes of a textual identifier.
#[verifier::external_body]
fn uuid_parse(s: &str) -> (r: Option<[u8; 16]>)
    ensures
        match r {
            Some(b) => uuid_parsed(s@) == Some(b@),
            None => uuid_parsed(s@) is None,
        },
{
    uuid::Uuid::parse_str(s).ok().map(|u| u.into_bytes())
}

/// Identifier of a read: 16 bytes.
#[derive(Debug, Clone, PartialEq, Eq)]
pub struct ReadId {
    pub bytes: Vec<u8>,
}

impl ReadId {
    pub fn new(bytes: Vec<u8>) -> (r: ReadId)
        ensures
            r.bytes@ == bytes@,
    {
        ReadId { bytes }
    }

    pub fn from_slice(bytes: &[u8]) -> (r: ReadId)
        ensures
            r.bytes@ == bytes@,
    {
        ReadId::new(vstd::slice::slice_to_vec(bytes))
    }

    /// The identifier written as text, if the text is one.
    pub fn from_uuid(uuid: &str) -> (r: Option<ReadId>)
        ensures
            match r {
                Some(id) => uuid_parsed(uuid@) == Some(id.bytes@),
                None => uuid_parsed(uuid@) is None,
            },
    {
        match uuid_parse(uuid) {
            Some(b) => {
                let v = vstd::slice::slice_to_vec(b.as_slice());
                Some(ReadId::new(v))
            },
            None => None,
        }
    }

    pub fn raw(&self) -> (r: &[u8])
        ensures
            r@ == self.bytes@,
    {
        self.bytes.as_slice()
    }

    /// The hyphenated text of the identifier; `None` unless it has 16 bytes.
    pub fn uuid(&self) -> (r: Option<String>)
        ensures
            match r {
                Some(s) => self.bytes@.len() == 16 && s@ == uuid_text_spec(self.bytes@),
                None => self.bytes@.len() != 16,
            },
    {
        if self.bytes.len() != 16 {
            return None;
        }
        let mut b = [0u8; 16];
        let mut i: usize = 0;
        while i < 16
            invariant
                self.bytes@.len() == 16,
                i <= 16,
                forall|k: int| 0 <= k < i ==> b@[k] == self.bytes@[k],
            decreases 16 - i,
        {
            b.set(i, self.bytes[i]);
            i += 1;
        }
        assert(b@ =~= self.bytes@);
        Some(uuid_text(b))
    }
}

/// The decoded samples of one read.
#[derive(Debug, Clone, PartialEq, Eq)]
pub struct SignalData {
    pub raw_signal: Vec<i16>,
}

impl SignalData {
    pub fn from_raw_signal(raw_signal: Vec<i16>) -> (r: SignalData)
        ensures
            r.raw_signal@ == raw_signal@,
    {
        SignalData { raw_signal }
    }
}

/// One row of a signal table with its signal decoded.
#[derive(Debug, Clone, PartialEq, Eq)]
pub struct Record {
    pub read_id: ReadId,
    pub samples: u32,
    pub signal: SignalData,
}

impl Record {
    pub fn new(read_id: ReadId, samples: u32, signal: SignalData) -> (r: Record)
        ensures
            r.read_id.bytes@ == read_id.bytes@,
            r.samples == samples,
            r.signal.raw_signal@ == signal.raw_signal@,
    {
        Record { read_id, samples, signal }
    }

    /// Decodes a signal-table row: the blob holds `samples` samples.
    pub fn from_row(read_id: &[u8], samples: u32, blob: &[u8]) -> (r: Result<Record, CodecError>)
        ensures
            match r {
                Ok(rec) => {
                    &&& rec.read_id.bytes@ == read_id@
                    &&& rec.samples == samples
                    &&& vbz_decode_spec(blob@, samples as int) == Ok::<Seq<i16>, CodecError>(
                        rec.signal.raw_signal@,
                    )
                },
                Err(e) => vbz_decode_spec(blob@, samples as int) == Err::<Seq<i16>, CodecError>(e),
            },
    {
        match decode(blob, samples as usize) {
            Ok(v) => Ok(Record::new(ReadId::from_slice(read_id), samples, SignalData::from_raw_signal(v))),
            Err(e) => Err(e),
        }
    }
}

/// Decodes the signal column of a batch, one row at a time: row `i` holds
/// `samples[i]` samples. Fails with the error of the first row that does
/// not decode.
pub fn decompress_rows(blobs: &[Vec<u8>], samples: &[u32]) -> (r: Result<Vec<Vec<i16>>, CodecError>)
    requires
        blobs@.len() == samples@.len(),
    ensures
        match r {
            Ok(rows) => {
                &&& rows@.len() == blobs@.len()
                &&& forall|i: int|
                    0 <= i < rows@.len() ==> vbz_decode_spec(
                        (#[trigger] blobs@[i])@,
                        samples@[i] as int,
                    ) == Ok::<Seq<i16>, CodecError>(rows@[i]@)
            },
            Err(e) => exists|i: int|
                0 <= i < blobs@.len() && vbz_decode_spec((#[trigger] blobs@[i])@, samples@[i] as int)
                    == Err::<Seq<i16>, CodecError>(e) && forall|j: int|
                    0 <= j < i ==> (#[trigger] vbz_decode_spec(blobs@[j]@, samples@[j] as int)) is Ok,
        },
{
    let mut rows: Vec<Vec<i16>> = Vec::new();
    let mut i: usize = 0;
    while i < blobs.len()
        invariant
            blobs@.len() == samples@.len(),
            i <= blobs@.len(),
            rows@.len() == i,
            forall|k: int|
                0 <= k < i ==> vbz_decode_spec((#[trigger] blobs@[k])@, samples@[k] as int) == Ok::<
                    Seq<i16>,
                    CodecError,
                >(rows@[k]@),
        decreases blobs.len() - i,
    {
        match decode(blobs[i].as_slice(), samples[i] as usize) {
            Ok(v) => rows.push(v),
            Err(e) => {
                assert forall|j: int| 0 <= j < i implies (#[trigger] vbz_decode_spec(
                    blobs@[j]@,
                    samples@[j] as int,
                )) is Ok by {
                    assert(vbz_decode_spec(blobs@[j]@, samples@[j] as int) == Ok::<
                        Seq<i16>,
                        CodecError,
                    >(rows@[j]@));
                }
                return Err(e);
            },
        }
        i += 1;
    }
    Ok(rows)
}

/// The signal of a read: the decoded rows that `indices` name, joined in
/// the order of the indices.
pub open spec fn joined_rows(rows: Seq<Seq<i16>>, indices: Seq<u64>) -> Seq<i16>
    decreases indices.len(),
{
    if indices.len() == 0 {
        Seq::empty()
    } else {
        joined_rows(rows, indices.drop_last()) + rows[indices.last() as int]
    }
}

/// The decoded rows as sequences.
pub open spec fn row_views(rows: Seq<Vec<i16>>) -> Seq<Seq<i16>> {
    rows.map_values(|r: Vec<i16>| r@)
}

/// Joins the decoded signal rows of one read. The rows are decoded one by
/// one beforehand; `indices` are the read's row indices into the signal
/// table. `None` when an index names no row.
pub fn combine_signal_rows(rows: &[Vec<i16>], indices: &[u64]) -> (r: Option<Vec<i16>>)
    ensures
        match r {
            Some(v) => {
                &&& forall|k: int| 0 <= k < indices@.len() ==> (#[trigger] indices@[k]) < rows@.len()
                &&& v@ == joined_rows(row_views(rows@), indices@)
            },
            None => exists|k: int| 0 <= k < indices@.len() && (#[trigger] indices@[k]) >= rows@.len(),
        },
{
    let mut out: Vec<i16> = Vec::new();
    let mut k: usize = 0;
    while k < indices.len()
        invariant
            k <= indices@.len(),
            forall|j: int| 0 <= j < k ==> (#[trigger] indices@[j]) < rows@.len(),
            out@ == joined_rows(row_views(rows@), indices@.subrange(0, k as int)),
        decreases indices.len() - k,
    {
        let idx = indices[k];
        if idx >= rows.len() as u64 {
            return None;
        }
        let row = &rows[idx as usize];
        let ghost before = out@;
        let mut i: usize = 0;
        while i < row.len()
            invariant
                i <= row@.len(),
                out@ == before + row@.subrange(0, i as int),
            decreases row.len() - i,
        {
            out.push(row[i]);
            proof {
                assert(out@ =~= before + row@.subrange(0, i + 1));
            }
            i += 1;
        }
        proof {
            assert(row@.subrange(0, row@.len() as int) =~= row@);
            assert(indices@.subrange(0, k + 1).drop_last() =~= indices@.subrange(0, k as int));
            assert(row_views(rows@)[idx as int] == row@);
        }
        k += 1;
    }
    proof {
        assert(indices@.subrange(0, indices@.len() as int) =~= indices@);
    }
    Some(out)
}

} // verus!
