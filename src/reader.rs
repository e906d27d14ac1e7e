//! The file envelope: signatures at both ends, the trailing footer length
//! and the footer it points to, and the byte ranges of the embedded tables.

use crate::footer::{
    parse_footer_spec, find_table_spec, ContentType, FooterError, FooterView, ParsedFooter,
    ReadTable, RunInfoTable, SignalTable, TableInfo,
};
use crate::le::{read_u64, same_bytes, u64_at};
use vstd::prelude::*;
use vstd::slice::{slice_subrange, slice_to_vec};

verus! {

/// Length of the file signature.
pub const SIG_LEN: usize = 8;

/// Length of a section marker.
pub const SM_LEN: usize = 16;

/// Length of the footer magic.
pub const FM_LEN: usize = 8;

/// Length of the footer length field.
pub const FLEN_LEN: usize = 8;

/// Distance of the footer length field from the end of the file.
pub const FOOTER_LEN_FROM_END: usize = 32;

/// The file signature at both ends of a POD5 file.
pub open spec fn file_signature() -> Seq<u8> {
    seq![0x8bu8, 0x50u8, 0x4fu8, 0x44u8, 0x0du8, 0x0au8, 0x1au8, 0x0au8]
}

/// The footer magic `FOOTER\0\0`.
pub open spec fn footer_magic() -> Seq<u8> {
    seq![0x46u8, 0x4fu8, 0x4fu8, 0x54u8, 0x45u8, 0x52u8, 0x00u8, 0x00u8]
}

/// The file signature.
pub fn file_signature_bytes() -> (r: Vec<u8>)
    ensures
        r@ == file_signature(),
{
    let r = vec![0x8bu8, 0x50u8, 0x4fu8, 0x44u8, 0x0du8, 0x0au8, 0x1au8, 0x0au8];
    assert(r@ =~= file_signature());
    r
}

/// The footer magic.
pub fn footer_magic_bytes() -> (r: Vec<u8>)
    ensures
        r@ == footer_magic(),
{
    let r = vec![0x46u8, 0x4fu8, 0x4fu8, 0x54u8, 0x45u8, 0x52u8, 0x00u8, 0x00u8];
    assert(r@ =~= footer_magic());
    r
}

/// Which end of a file carries a bad signature.
#[derive(Debug, Clone, Copy, PartialEq, Eq, Structural)]
pub enum SignatureSite {
    Start,
    End,
}

impl SignatureSite {
    /// The name of the site: `start` or `end`.
    pub fn name(&self) -> (r: &'static str)
        ensures
            r@ == (match self {
                SignatureSite::Start => "start"@,
                SignatureSite::End => "end"@,
            }),
    {
        match self {
            SignatureSite::Start => "start",
            SignatureSite::End => "end",
        }
    }
}

/// Ways in which reading a POD5 file fails.
#[derive(Debug, Clone, Copy, PartialEq, Eq, Structural)]
pub enum Pod5Error {
    /// The leading or trailing 8 bytes are not the file signature.
    SignatureFailure(SignatureSite),
    /// The trailing footer length does not point inside the file.
    FooterLengthOutOfRange,
    /// The footer could not be read, or lacks a table.
    Footer(FooterError),
    /// A table's byte range does not lie inside the file.
    TableOutOfRange,
}

/// Whether `buf` is exactly the file signature.
pub fn valid_signature(buf: &[u8]) -> (r: bool)
    ensures
        r == (buf@ == file_signature()),
{
    let sig = file_signature_bytes();
    if buf.len() != 8 {
        return false;
    }
    let mut i: usize = 0;
    while i < 8
        invariant
            buf@.len() == 8,
            sig@ == file_signature(),
            i <= 8,
            forall|k: int| 0 <= k < i ==> buf@[k] == file_signature()[k],
        decreases 8 - i,
    {
        if buf[i] != sig[i] {
            return false;
        }
        i += 1;
    }
    assert(buf@ =~= file_signature());
    true
}

/// Whether a file starts with the file signature.
pub fn check_signature(file: &[u8]) -> (r: bool)
    ensures
        r == (file@.len() >= 8 && file@.subrange(0, 8) == file_signature()),
{
    if file.len() < 8 {
        return false;
    }
    valid_signature(slice_subrange(file, 0, 8))
}

/// The footer bytes of a file, located from its end: check both signatures,
/// read the little-endian footer length 32 bytes before the end, and take
/// that many bytes before it.
pub open spec fn locate_footer_spec(file: Seq<u8>) -> Result<Seq<u8>, Pod5Error> {
    let len = file.len() as int;
    if len < 8 || file.subrange(0, 8) != file_signature() {
        Err(Pod5Error::SignatureFailure(SignatureSite::Start))
    } else if file.subrange(len - 8, len) != file_signature() {
        Err(Pod5Error::SignatureFailure(SignatureSite::End))
    } else if len < 32 {
        Err(Pod5Error::FooterLengthOutOfRange)
    } else {
        let flen = u64_at(file, len - 32) as i64 as int;
        if flen < 0 || flen > len - 32 {
            Err(Pod5Error::FooterLengthOutOfRange)
        } else {
            Ok(file.subrange(len - 32 - flen, len - 32))
        }
    }
}

/// Reads the footer bytes of a file.
pub fn read_footer(file: &[u8]) -> (r: Result<Vec<u8>, Pod5Error>)
    ensures
        match r {
            Ok(f) => locate_footer_spec(file@) == Ok::<Seq<u8>, Pod5Error>(f@),
            Err(e) => locate_footer_spec(file@) == Err::<Seq<u8>, Pod5Error>(e),
        },
{
    let len = file.len();
    if !check_signature(file) {
        return Err(Pod5Error::SignatureFailure(SignatureSite::Start));
    }
    if !valid_signature(slice_subrange(file, len - 8, len)) {
        return Err(Pod5Error::SignatureFailure(SignatureSite::End));
    }
    if len < FOOTER_LEN_FROM_END {
        return Err(Pod5Error::FooterLengthOutOfRange);
    }
    let at = len - FOOTER_LEN_FROM_END;
    let flen = match read_u64(file, at) {
        Some(x) => #[verifier::truncate] (x as i64),
        None => return Err(Pod5Error::FooterLengthOutOfRange),
    };
    if flen < 0 || flen as u64 > at as u64 {
        return Err(Pod5Error::FooterLengthOutOfRange);
    }
    let start = at - flen as usize;
    Ok(slice_to_vec(slice_subrange(file, start, at)))
}

/// What opening a file gives: its footer bytes, once they parse.
pub open spec fn open_spec(file: Seq<u8>) -> Result<Seq<u8>, Pod5Error> {
    match locate_footer_spec(file) {
        Err(e) => Err(e),
        Ok(f) => match parse_footer_spec(f) {
            Err(e) => Err(Pod5Error::Footer(e)),
            Ok(_) => Ok(f),
        },
    }
}

/// Whether a table's byte range lies inside a file of `len` bytes.
pub open spec fn region_in_file(info: TableInfo, len: int) -> bool {
    0 <= info.offset && 0 <= info.length && info.offset + info.length <= len
}

/// Whether the section marker after the leading signature recurs before the
/// trailing signature and after every listed table region.
pub open spec fn markers_consistent(file: Seq<u8>, tables: Seq<TableInfo>) -> bool {
    let len = file.len() as int;
    &&& len >= 48
    &&& file.subrange(len - 24, len - 8) == file.subrange(8, 24)
    &&& forall|i: int|
        0 <= i < tables.len() ==> {
            let end = (#[trigger] tables[i]).offset + tables[i].length;
            &&& 0 <= tables[i].offset
            &&& 0 <= tables[i].length
            &&& end + 16 <= len
            &&& file.subrange(end, end + 16) == file.subrange(8, 24)
        }
}

/// A POD5 file held in memory, with its footer located and checked.
pub struct Reader {
    pub file: Vec<u8>,
    pub footer: ParsedFooter,
}

impl Reader {
    /// Opens a file: checks the signatures, locates the footer and parses it.
    pub fn from_reader(file: Vec<u8>) -> (r: Result<Reader, Pod5Error>)
        ensures
            match r {
                Ok(rd) => rd.file@ == file@ && open_spec(file@) == Ok::<Seq<u8>, Pod5Error>(
                    rd.footer.data@,
                ),
                Err(e) => open_spec(file@) == Err::<Seq<u8>, Pod5Error>(e),
            },
    {
        let data = match read_footer(file.as_slice()) {
            Ok(d) => d,
            Err(e) => return Err(e),
        };
        let footer = ParsedFooter::new(data);
        match footer.footer() {
            Ok(_) => Ok(Reader { file, footer }),
            Err(e) => Err(Pod5Error::Footer(e)),
        }
    }

    /// The bytes of the table that `info` describes.
    pub fn table_bytes(&self, info: &TableInfo) -> (r: Result<Vec<u8>, Pod5Error>)
        ensures
            match r {
                Ok(b) => region_in_file(*info, self.file@.len() as int) && b@ == self.file@.subrange(
                    info.offset as int,
                    info.offset + info.length,
                ),
                Err(e) => !region_in_file(*info, self.file@.len() as int) && e
                    == Pod5Error::TableOutOfRange,
            },
    {
        let len = self.file.len();
        if info.offset < 0 || info.length < 0 || info.offset as u64 > len as u64 || info.length as u64
            > (len - info.offset as usize) as u64 {
            return Err(Pod5Error::TableOutOfRange);
        }
        let start = info.offset as usize;
        let end = start + info.length as usize;
        Ok(slice_to_vec(slice_subrange(self.file.as_slice(), start, end)))
    }

    /// The reads table's descriptor.
    pub fn read_table(&self) -> (r: Result<ReadTable, Pod5Error>)
        ensures
            match r {
                Ok(t) => find_table_spec(self.footer.data@, ContentType::ReadsTable, FooterError::ReadTableMissing)
                    == Ok::<TableInfo, FooterError>(t.0),
                Err(e) => exists|fe: FooterError| e == Pod5Error::Footer(fe) && find_table_spec(
                    self.footer.data@,
                    ContentType::ReadsTable,
                    FooterError::ReadTableMissing,
                ) == Err::<TableInfo, FooterError>(fe),
            },
    {
        match self.footer.read_table() {
            Ok(t) => Ok(t),
            Err(e) => Err(Pod5Error::Footer(e)),
        }
    }

    /// The signal table's descriptor.
    pub fn signal_table(&self) -> (r: Result<SignalTable, Pod5Error>)
        ensures
            match r {
                Ok(t) => find_table_spec(self.footer.data@, ContentType::SignalTable, FooterError::SignalTableMissing)
                    == Ok::<TableInfo, FooterError>(t.0),
                Err(e) => exists|fe: FooterError| e == Pod5Error::Footer(fe) && find_table_spec(
                    self.footer.data@,
                    ContentType::SignalTable,
                    FooterError::SignalTableMissing,
                ) == Err::<TableInfo, FooterError>(fe),
            },
    {
        match self.footer.signal_table() {
            Ok(t) => Ok(t),
            Err(e) => Err(Pod5Error::Footer(e)),
        }
    }

    /// The run-info table's descriptor.
    pub fn run_info_table(&self) -> (r: Result<RunInfoTable, Pod5Error>)
        ensures
            match r {
                Ok(t) => find_table_spec(self.footer.data@, ContentType::RunInfoTable, FooterError::RunInfoTableMissing)
                    == Ok::<TableInfo, FooterError>(t.0),
                Err(e) => exists|fe: FooterError| e == Pod5Error::Footer(fe) && find_table_spec(
                    self.footer.data@,
                    ContentType::RunInfoTable,
                    FooterError::RunInfoTableMissing,
                ) == Err::<TableInfo, FooterError>(fe),
            },
    {
        match self.footer.run_info_table() {
            Ok(t) => Ok(t),
            Err(e) => Err(Pod5Error::Footer(e)),
        }
    }

    /// Whether every section marker of the file is the same.
    pub fn section_markers_consistent(&self) -> (r: bool)
        ensures
            r == (match parse_footer_spec(self.footer.data@) {
                Ok(f) => markers_consistent(self.file@, f.contents),
                Err(_) => false,
            }),
    {
        let footer = match self.footer.footer() {
            Ok(f) => f,
            Err(_) => return false,
        };
        let file = self.file.as_slice();
        let len = file.len();
        if len < 48 {
            return false;
        }
        let first = slice_subrange(file, 8, 24);
        if !same_bytes(slice_subrange(file, len - 24, len - 8), first) {
            return false;
        }
        let tables = &footer.contents;
        let mut i: usize = 0;
        while i < tables.len()
            invariant
                parse_footer_spec(self.footer.data@) == Ok::<FooterView, FooterError>(footer@),
                footer@.contents == tables@,
                file@ == self.file@,
                len == file@.len(),
                len >= 48,
                first@ == file@.subrange(8, 24),
                file@.subrange(len - 24, len - 8) == file@.subrange(8, 24),
                i <= tables@.len(),
                forall|k: int|
                    0 <= k < i ==> {
                        let end = (#[trigger] tables@[k]).offset + tables@[k].length;
                        &&& 0 <= tables@[k].offset
                        &&& 0 <= tables@[k].length
                        &&& end + 16 <= len
                        &&& file@.subrange(end, end + 16) == file@.subrange(8, 24)
                    },
            decreases tables.len() - i,
        {
            let t = tables[i];
            if t.offset < 0 || t.length < 0 {
                return false;
            }
            let end = t.offset as u64 + t.length as u64;
            if end > len as u64 || (len as u64) - end < 16 {
                return false;
            }
            let e = end as usize;
            if !same_bytes(slice_subrange(file, e, e + 16), first) {
                return false;
            }
            i += 1;
        }
        true
    }
}

} // verus!
