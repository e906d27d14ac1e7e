//! The footer: a flat-buffer table that lists each embedded table of a POD5
//! file with its kind, byte offset and length.
//!
//! A footer is a flat-buffer `Footer` table with the fields
//! `file_identifier: string`, `software: string`, `pod5_version: string` and
//! `contents: [EmbeddedFile]`; an `EmbeddedFile` has `offset: int64`,
//! `length: int64`, `format: short` and `content_type: short`.

use crate::le::{
    in_bounds, lemma_le_lengths, le16, le32, le64, push_u16, push_u32, push_u64, push_zeros, read_u16, read_u32,
    read_u64, same_bytes, u16_at, u32_at, u64_at,
};
use vstd::utf8::{encode_utf8, valid_utf8};
use vstd::prelude::*;

verus! {

/// Kind of an embedded table.
#[derive(Debug, Clone, Copy, PartialEq, Eq, Structural)]
pub enum ContentType {
    ReadsTable,
    SignalTable,
    ReadIdIndex,
    OtherIndex,
    RunInfoTable,
}

/// The tag that stands for a content type in the footer.
pub open spec fn content_type_tag(c: ContentType) -> i16 {
    match c {
        ContentType::ReadsTable => 0,
        ContentType::SignalTable => 1,
        ContentType::ReadIdIndex => 2,
        ContentType::OtherIndex => 3,
        ContentType::RunInfoTable => 4,
    }
}

/// The content type that a footer tag stands for, if any.
pub open spec fn content_type_of_tag(t: i16) -> Option<ContentType> {
    if t == 0 {
        Some(ContentType::ReadsTable)
    } else if t == 1 {
        Some(ContentType::SignalTable)
    } else if t == 2 {
        Some(ContentType::ReadIdIndex)
    } else if t == 3 {
        Some(ContentType::OtherIndex)
    } else if t == 4 {
        Some(ContentType::RunInfoTable)
    } else {
        None
    }
}

impl ContentType {
    /// The footer tag of this content type.
    pub fn tag(&self) -> (r: i16)
        ensures
            r == content_type_tag(*self),
            content_type_of_tag(r) == Some(*self),
    {
        match self {
            ContentType::ReadsTable => 0,
            ContentType::SignalTable => 1,
            ContentType::ReadIdIndex => 2,
            ContentType::OtherIndex => 3,
            ContentType::RunInfoTable => 4,
        }
    }

    /// The content type of a footer tag, if the tag is known.
    pub fn from_tag(t: i16) -> (r: Option<ContentType>)
        ensures
            r == content_type_of_tag(t),
    {
        if t == 0 {
            Some(ContentType::ReadsTable)
        } else if t == 1 {
            Some(ContentType::SignalTable)
        } else if t == 2 {
            Some(ContentType::ReadIdIndex)
        } else if t == 3 {
            Some(ContentType::OtherIndex)
        } else if t == 4 {
            Some(ContentType::RunInfoTable)
        } else {
            None
        }
    }
}

/// The content type that a table name stands for: `signal`, `run_info`,
/// `reads` or `read_id`, as UTF-8 bytes.
pub open spec fn content_type_of_name(name: Seq<u8>) -> Option<ContentType> {
    if name == seq![115u8, 105, 103, 110, 97, 108] {
        Some(ContentType::SignalTable)
    } else if name == seq![114u8, 117, 110, 95, 105, 110, 102, 111] {
        Some(ContentType::RunInfoTable)
    } else if name == seq![114u8, 101, 97, 100, 115] {
        Some(ContentType::ReadsTable)
    } else if name == seq![114u8, 101, 97, 100, 95, 105, 100] {
        Some(ContentType::ReadIdIndex)
    } else {
        None
    }
}

/// The content type of a table by its name.
pub fn table_name_to_content_type(name: &str) -> (r: Option<ContentType>)
    ensures
        r == content_type_of_name(encode_utf8(name@)),
{
    let b = name.as_bytes();
    let signal = vec![115u8, 105, 103, 110, 97, 108];
    let run_info = vec![114u8, 117, 110, 95, 105, 110, 102, 111];
    let reads = vec![114u8, 101, 97, 100, 115];
    let read_id = vec![114u8, 101, 97, 100, 95, 105, 100];
    assert(signal@ =~= seq![115u8, 105, 103, 110, 97, 108]);
    assert(run_info@ =~= seq![114u8, 117, 110, 95, 105, 110, 102, 111]);
    assert(reads@ =~= seq![114u8, 101, 97, 100, 115]);
    assert(read_id@ =~= seq![114u8, 101, 97, 100, 95, 105, 100]);
    if same_bytes(b, signal.as_slice()) {
        Some(ContentType::SignalTable)
    } else if same_bytes(b, run_info.as_slice()) {
        Some(ContentType::RunInfoTable)
    } else if same_bytes(b, reads.as_slice()) {
        Some(ContentType::ReadsTable)
    } else if same_bytes(b, read_id.as_slice()) {
        Some(ContentType::ReadIdIndex)
    } else {
        None
    }
}

/// Location, size and kind of one embedded table.
#[derive(Debug, Clone, Copy, PartialEq, Eq, Structural)]
pub struct TableInfo {
    /// Absolute byte offset of the table from the start of the file.
    pub offset: i64,
    /// Length of the table in bytes.
    pub length: i64,
    pub content_type: ContentType,
}

impl TableInfo {
    pub fn new(offset: i64, length: i64, content_type: ContentType) -> (r: TableInfo)
        ensures
            r == (TableInfo { offset, length, content_type }),
    {
        TableInfo { offset, length, content_type }
    }

    pub fn offset(&self) -> (r: i64)
        ensures
            r == self.offset,
    {
        self.offset
    }

    pub fn length(&self) -> (r: i64)
        ensures
            r == self.length,
    {
        self.length
    }

    pub fn content_type(&self) -> (r: ContentType)
        ensures
            r == self.content_type,
    {
        self.content_type
    }
}

/// Ways in which reading a footer fails.
#[derive(Debug, Clone, Copy, PartialEq, Eq, Structural)]
pub enum FooterError {
    /// The bytes are not a well-formed footer table.
    Malformed,
    /// The footer has no list of embedded tables.
    ContentsMissing,
    SignalTableMissing,
    ReadTableMissing,
    RunInfoTableMissing,
}

/// A footer read into plain values.
#[derive(Debug, Clone)]
pub struct Footer {
    pub file_identifier: String,
    pub software: String,
    pub pod5_version: String,
    pub contents: Vec<TableInfo>,
}

/// Mathematical value of a footer: its strings as UTF-8 bytes.
pub struct FooterView {
    pub file_identifier: Seq<u8>,
    pub software: Seq<u8>,
    pub pod5_version: Seq<u8>,
    pub contents: Seq<TableInfo>,
}

impl View for Footer {
    type V = FooterView;

    open spec fn view(&self) -> FooterView {
        FooterView {
            file_identifier: encode_utf8(self.file_identifier@),
            software: encode_utf8(self.software@),
            pod5_version: encode_utf8(self.pod5_version@),
            contents: self.contents@,
        }
    }
}

/// Where field `slot` of the table at `t` lies. `None` when the table, its
/// vtable or the field's start lie outside the buffer; `Some(None)` when the
/// field is absent.
pub open spec fn field_pos(b: Seq<u8>, t: int, slot: int) -> Option<Option<int>> {
    if !in_bounds(b, t, 4) {
        None
    } else {
        let vt = t - (u32_at(b, t) as i32) as int;
        if !in_bounds(b, vt, 4) {
            None
        } else if 4 + 2 * slot + 2 > u16_at(b, vt) as int {
            Some(None)
        } else if !in_bounds(b, vt + 4 + 2 * slot, 2) {
            None
        } else {
            let o = u16_at(b, vt + 4 + 2 * slot) as int;
            if o == 0 {
                Some(None)
            } else if !in_bounds(b, t + o, 0) {
                None
            } else {
                Some(Some(t + o))
            }
        }
    }
}

/// The position that the offset stored at `p` points to.
pub open spec fn follow(b: Seq<u8>, p: int) -> int {
    p + u32_at(b, p) as int
}

/// The bytes of the string that the offset at `p` points to.
pub open spec fn string_at(b: Seq<u8>, p: int) -> Option<Seq<u8>> {
    if !in_bounds(b, p, 4) {
        None
    } else {
        let s = follow(b, p);
        if !in_bounds(b, s, 4) {
            None
        } else if !in_bounds(b, s + 4, u32_at(b, s) as int) {
            None
        } else {
            Some(b.subrange(s + 4, s + 4 + u32_at(b, s) as int))
        }
    }
}

/// A string field; empty when absent, `None` when its bytes are not UTF-8.
pub open spec fn string_field(b: Seq<u8>, t: int, slot: int) -> Option<Seq<u8>> {
    match field_pos(b, t, slot) {
        None => None,
        Some(None) => Some(Seq::empty()),
        Some(Some(p)) => match string_at(b, p) {
            Some(x) => if valid_utf8(x) {
                Some(x)
            } else {
                None
            },
            None => None,
        },
    }
}

/// Relies on String::from_utf8: the text of `bytes`, or an error where they
/// are not UTF-8.
#[verifier::external_body]
fn utf8_string(bytes: Vec<u8>) -> (r: Option<String>)
    ensures
        match r {
            Some(s) => valid_utf8(bytes@) && encode_utf8(s@) == bytes@,
            None => !valid_utf8(bytes@),
        },
{
    String::from_utf8(bytes).ok()
}

/// A 64-bit signed field; zero when absent.
pub open spec fn i64_field(b: Seq<u8>, t: int, slot: int) -> Option<i64> {
    match field_pos(b, t, slot) {
        None => None,
        Some(None) => Some(0i64),
        Some(Some(p)) => if in_bounds(b, p, 8) {
            Some(u64_at(b, p) as i64)
        } else {
            None
        },
    }
}

/// A 16-bit signed field; zero when absent.
pub open spec fn i16_field(b: Seq<u8>, t: int, slot: int) -> Option<i16> {
    match field_pos(b, t, slot) {
        None => None,
        Some(None) => Some(0i16),
        Some(Some(p)) => if in_bounds(b, p, 2) {
            Some(u16_at(b, p) as i16)
        } else {
            None
        },
    }
}

/// The embedded-table entry whose table is at `t`.
pub open spec fn entry_at(b: Seq<u8>, t: int) -> Option<TableInfo> {
    match (i64_field(b, t, 0), i64_field(b, t, 1), i16_field(b, t, 3)) {
        (Some(offset), Some(length), Some(tag)) => match content_type_of_tag(tag) {
            Some(content_type) => Some(TableInfo { offset, length, content_type }),
            None => None,
        },
        _ => None,
    }
}

/// Position of the table of element `k` of the vector at `v`.
pub open spec fn element_table(b: Seq<u8>, v: int, k: int) -> int {
    follow(b, v + 4 + 4 * k)
}

/// The entries of the vector of tables at `v`.
pub open spec fn entries_at(b: Seq<u8>, v: int) -> Option<Seq<TableInfo>> {
    if !in_bounds(b, v, 4) {
        None
    } else {
        let n = u32_at(b, v) as int;
        if !in_bounds(b, v + 4, 4 * n) {
            None
        } else if forall|k: int| 0 <= k < n ==> (#[trigger] entry_at(b, element_table(b, v, k))) is Some {
            Some(Seq::new(n as nat, |k: int| entry_at(b, element_table(b, v, k))->0))
        } else {
            None
        }
    }
}

/// The footer that the bytes `b` hold.
#[verifier::opaque]
pub open spec fn parse_footer_spec(b: Seq<u8>) -> Result<FooterView, FooterError> {
    if !in_bounds(b, 0, 4) {
        Err(FooterError::Malformed)
    } else {
        let t = u32_at(b, 0) as int;
        match (string_field(b, t, 0), string_field(b, t, 1), string_field(b, t, 2), field_pos(b, t, 3)) {
            (Some(file_identifier), Some(software), Some(pod5_version), Some(Some(p))) =>
                if !in_bounds(b, p, 4) {
                Err(FooterError::Malformed)
            } else {
                match entries_at(b, follow(b, p)) {
                    Some(contents) => Ok(FooterView { file_identifier, software, pod5_version, contents }),
                    None => Err(FooterError::Malformed),
                }
            },
            (Some(_), Some(_), Some(_), Some(None)) => Err(FooterError::ContentsMissing),
            _ => Err(FooterError::Malformed),
        }
    }
}

fn field_pos_exec(b: &[u8], t: usize, slot: usize) -> (r: Option<Option<usize>>)
    requires
        slot <= 3,
    ensures
        match r {
            None => field_pos(b@, t as int, slot as int) is None,
            Some(None) => field_pos(b@, t as int, slot as int) == Some(None::<int>),
            Some(Some(p)) => field_pos(b@, t as int, slot as int) == Some(Some(p as int)),
        },
{
    let len = b.len();
    let soff = match read_u32(b, t) {
        Some(x) => #[verifier::truncate] (x as i32),
        None => return None,
    };
    let vt: usize = if soff >= 0 {
        if soff as usize > t {
            return None;
        }
        t - soff as usize
    } else {
        match t.checked_add((-(soff as i64)) as usize) {
            Some(v) => v,
            None => return None,
        }
    };
    if vt > b.len() || b.len() - vt < 4 {
        return None;
    }
    let vt_len = match read_u16(b, vt) {
        Some(x) => x as usize,
        None => return None,
    };
    if 4 + 2 * slot + 2 > vt_len {
        return Some(None);
    }
    if b.len() - vt < 4 + 2 * slot + 2 {
        return None;
    }
    let o = match read_u16(b, vt + 4 + 2 * slot) {
        Some(x) => x as usize,
        None => return None,
    };
    if o == 0 {
        Some(None)
    } else if o > b.len() - t {
        None
    } else {
        Some(Some(t + o))
    }
}

fn string_at_exec(b: &[u8], p: usize) -> (r: Option<Vec<u8>>)
    ensures
        match r {
            None => string_at(b@, p as int) is None,
            Some(v) => string_at(b@, p as int) == Some(v@),
        },
{
    let len = b.len();
    let rel = match read_u32(b, p) {
        Some(x) => x as usize,
        None => return None,
    };
    let s = match p.checked_add(rel) {
        Some(s) => s,
        None => return None,
    };
    let n = match read_u32(b, s) {
        Some(x) => x as usize,
        None => return None,
    };
    if b.len() - (s + 4) < n {
        return None;
    }
    Some(vstd::slice::slice_to_vec(vstd::slice::slice_subrange(b, s + 4, s + 4 + n)))
}

fn string_field_exec(b: &[u8], t: usize, slot: usize) -> (r: Option<String>)
    requires
        slot <= 3,
    ensures
        match r {
            None => string_field(b@, t as int, slot as int) is None,
            Some(v) => string_field(b@, t as int, slot as int) == Some(encode_utf8(v@)),
        },
{
    match field_pos_exec(b, t, slot) {
        None => None,
        Some(None) => {
            let s = String::new();
            assert(encode_utf8(s@) =~= Seq::<u8>::empty());
            Some(s)
        },
        Some(Some(p)) => match string_at_exec(b, p) {
            Some(v) => utf8_string(v),
            None => None,
        },
    }
}

fn i64_field_exec(b: &[u8], t: usize, slot: usize) -> (r: Option<i64>)
    requires
        slot <= 3,
    ensures
        r == i64_field(b@, t as int, slot as int),
{
    match field_pos_exec(b, t, slot) {
        None => None,
        Some(None) => Some(0),
        Some(Some(p)) => match read_u64(b, p) {
            Some(x) => Some(#[verifier::truncate] (x as i64)),
            None => None,
        },
    }
}

fn i16_field_exec(b: &[u8], t: usize, slot: usize) -> (r: Option<i16>)
    requires
        slot <= 3,
    ensures
        r == i16_field(b@, t as int, slot as int),
{
    match field_pos_exec(b, t, slot) {
        None => None,
        Some(None) => Some(0),
        Some(Some(p)) => match read_u16(b, p) {
            Some(x) => Some(#[verifier::truncate] (x as i16)),
            None => None,
        },
    }
}

fn entry_exec(b: &[u8], t: usize) -> (r: Option<TableInfo>)
    ensures
        r == entry_at(b@, t as int),
{
    let offset = match i64_field_exec(b, t, 0) {
        Some(x) => x,
        None => return None,
    };
    let length = match i64_field_exec(b, t, 1) {
        Some(x) => x,
        None => return None,
    };
    let tag = match i16_field_exec(b, t, 3) {
        Some(x) => x,
        None => return None,
    };
    match ContentType::from_tag(tag) {
        Some(content_type) => Some(TableInfo { offset, length, content_type }),
        None => None,
    }
}

proof fn lemma_entry_outside(b: Seq<u8>, t: int)
    requires
        t > b.len(),
    ensures
        entry_at(b, t) is None,
{
}

fn entries_exec(b: &[u8], v: usize) -> (r: Option<Vec<TableInfo>>)
    ensures
        match r {
            None => entries_at(b@, v as int) is None,
            Some(e) => entries_at(b@, v as int) == Some(e@),
        },
{
    let len = b.len();
    let n = match read_u32(b, v) {
        Some(x) => x as usize,
        None => return None,
    };
    if (len - v - 4) / 4 < n {
        return None;
    }
    let mut out: Vec<TableInfo> = Vec::new();
    let mut k: usize = 0;
    while k < n
        invariant
            len == b@.len(),
            in_bounds(b@, v as int, 4),
            n == u32_at(b@, v as int) as int,
            in_bounds(b@, v + 4, 4 * n),
            k <= n,
            forall|j: int| 0 <= j < k ==> (#[trigger] entry_at(b@, element_table(b@, v as int, j))) is Some,
            out@ == Seq::new(k as nat, |j: int| entry_at(b@, element_table(b@, v as int, j))->0),
        decreases n - k,
    {
        let slot = v + 4 + 4 * k;
        let rel = match read_u32(b, slot) {
            Some(x) => x as usize,
            None => return None,
        };
        let t = match slot.checked_add(rel) {
            Some(t) => t,
            None => {
                proof {
                    lemma_entry_outside(b@, element_table(b@, v as int, k as int));
                }
                return None;
            },
        };
        match entry_exec(b, t) {
            Some(e) => {
                out.push(e);
            },
            None => {
                return None;
            },
        }
        proof {
            assert(out@ =~= Seq::new((k + 1) as nat, |j: int| entry_at(b@, element_table(b@, v as int, j))->0));
        }
        k += 1;
    }
    Some(out)
}

/// Reads a footer from its flat-buffer bytes.
pub fn parse_footer(b: &[u8]) -> (r: Result<Footer, FooterError>)
    ensures
        match r {
            Ok(f) => parse_footer_spec(b@) == Ok::<FooterView, FooterError>(f@),
            Err(e) => parse_footer_spec(b@) == Err::<FooterView, FooterError>(e),
        },
{
    proof {
        reveal(parse_footer_spec);
    }
    let len = b.len();
    let t = match read_u32(b, 0) {
        Some(x) => x as usize,
        None => return Err(FooterError::Malformed),
    };
    let file_identifier = match string_field_exec(b, t, 0) {
        Some(x) => x,
        None => return Err(FooterError::Malformed),
    };
    let software = match string_field_exec(b, t, 1) {
        Some(x) => x,
        None => return Err(FooterError::Malformed),
    };
    let pod5_version = match string_field_exec(b, t, 2) {
        Some(x) => x,
        None => return Err(FooterError::Malformed),
    };
    let p = match field_pos_exec(b, t, 3) {
        Some(Some(p)) => p,
        Some(None) => return Err(FooterError::ContentsMissing),
        None => return Err(FooterError::Malformed),
    };
    let rel = match read_u32(b, p) {
        Some(x) => x as usize,
        None => return Err(FooterError::Malformed),
    };
    let v = match p.checked_add(rel) {
        Some(v) => v,
        None => return Err(FooterError::Malformed),
    };
    match entries_exec(b, v) {
        Some(contents) => Ok(Footer { file_identifier, software, pod5_version, contents }),
        None => Err(FooterError::Malformed),
    }
}

/// Zero bytes after a string of `len` bytes: its terminator, then padding
/// to a multiple of four.
pub open spec fn string_tail(len: int) -> int {
    1 + (4 - (len + 1) % 4) % 4
}

/// Size of a stored string of `len` bytes.
pub open spec fn string_block_len(len: int) -> int {
    4 + len + string_tail(len)
}

/// A stored string: its length, its bytes, a zero terminator and padding.
pub open spec fn string_block(s: Seq<u8>) -> Seq<u8> {
    le32(s.len() as u32) + s + Seq::new(string_tail(s.len() as int) as nat, |i: int| 0u8)
}

/// Padding after the vector of entry offsets, which keeps the 64-bit fields
/// of the entries 8-byte aligned.
pub open spec fn vector_pad(n: int) -> int {
    if n % 2 == 1 {
        4
    } else {
        0
    }
}

/// Position of the first entry table when there are `n` entries.
pub open spec fn first_entry(n: int) -> int {
    52 + 4 * n + vector_pad(n)
}

/// Position of entry table `k`.
pub open spec fn entry_pos(n: int, k: int) -> int {
    first_entry(n) + 24 * k
}

/// Size of a footer with strings of the given lengths and `n` entries.
pub open spec fn footer_len(fl: int, sl: int, vl: int, n: int) -> int {
    first_entry(n) + 24 * n + string_block_len(fl) + string_block_len(sl) + string_block_len(vl)
}

/// The stored entry table at position `pos`: the offset to the shared
/// vtable at 36, `offset`, `length` and the content type's tag.
pub open spec fn entry_block(e: TableInfo, pos: int) -> Seq<u8> {
    le32((pos - 36) as u32) + le64(e.offset as u64) + le64(e.length as u64) + le16(
        content_type_tag(e.content_type) as u16,
    ) + seq![0u8, 0u8]
}

/// The first `k` entry tables of a footer with `n` entries.
pub open spec fn entries_block(c: Seq<TableInfo>, n: int, k: int) -> Seq<u8>
    decreases k,
{
    if k <= 0 {
        Seq::empty()
    } else {
        entries_block(c, n, k - 1) + entry_block(c[k - 1], entry_pos(n, k - 1))
    }
}

/// The first `k` elements of the vector of entry offsets.
pub open spec fn offsets_block(n: int, k: int) -> Seq<u8>
    decreases k,
{
    if k <= 0 {
        Seq::empty()
    } else {
        offsets_block(n, k - 1) + le32((entry_pos(n, k - 1) - (52 + 4 * (k - 1))) as u32)
    }
}

/// A vtable of four fields: its size, the table's size, the field offsets.
pub open spec fn vtable_block(table_len: u16, o0: u16, o1: u16, o2: u16, o3: u16) -> Seq<u8> {
    le16(12) + le16(table_len) + le16(o0) + le16(o1) + le16(o2) + le16(o3)
}

/// The footer table at 16: the offset back to its vtable at 4, then the
/// offsets to the three strings at `sf`, `ss`, `sv` and to the vector at 48.
pub open spec fn root_table_block(sf: int, ss: int, sv: int) -> Seq<u8> {
    le32(12) + le32((sf - 20) as u32) + le32((ss - 24) as u32) + le32((sv - 28) as u32) + le32(16)
}

/// The root offset, the footer's vtable, the footer table and the vtable
/// that the entries share. `sf`, `ss` and `sv` are the positions of the three
/// strings.
pub open spec fn head_block(sf: int, ss: int, sv: int) -> Seq<u8> {
    le32(16) + vtable_block(20, 4, 8, 12, 16) + root_table_block(sf, ss, sv) + vtable_block(
        24,
        4,
        12,
        0,
        20,
    )
}

/// The footer that is written for the given strings and entries.
#[verifier::opaque]
pub open spec fn footer_bytes(f: Seq<u8>, s: Seq<u8>, v: Seq<u8>, c: Seq<TableInfo>) -> Seq<u8> {
    let n = c.len() as int;
    let sf = first_entry(n) + 24 * n;
    let ss = sf + string_block_len(f.len() as int);
    let sv = ss + string_block_len(s.len() as int);
    head_block(sf, ss, sv) + le32(n as u32) + offsets_block(n, n) + Seq::new(
        vector_pad(n) as nat,
        |i: int| 0u8,
    )
        + entries_block(c, n, n) + (string_block(f) + string_block(s) + string_block(v))
}

/// The largest footer that offsets of the flat-buffer format can address.
pub const MAX_FOOTER_LEN: usize = 0x7fff_ffff;

fn push_string(buf: &mut Vec<u8>, s: &[u8])
    requires
        s@.len() <= MAX_FOOTER_LEN,
    ensures
        final(buf)@ == old(buf)@ + string_block(s@),
{
    push_u32(buf, s.len() as u32);
    let mut i: usize = 0;
    while i < s.len()
        invariant
            i <= s@.len(),
            buf@ == old(buf)@ + le32(s@.len() as u32) + s@.subrange(0, i as int),
        decreases s.len() - i,
    {
        buf.push(s[i]);
        proof {
            assert(buf@ =~= old(buf)@ + le32(s@.len() as u32) + s@.subrange(0, i + 1));
        }
        i += 1;
    }
    let tail = 1 + (4 - (s.len() % 4 + 1) % 4) % 4;
    assert(tail == string_tail(s@.len() as int));
    push_zeros(buf, tail);
    proof {
        assert(s@.subrange(0, s@.len() as int) =~= s@);
        assert(buf@ =~= old(buf)@ + string_block(s@));
    }
}

fn push_vtable(buf: &mut Vec<u8>, table_len: u16, o0: u16, o1: u16, o2: u16, o3: u16)
    ensures
        final(buf)@ == old(buf)@ + vtable_block(table_len, o0, o1, o2, o3),
{
    push_u16(buf, 12);
    push_u16(buf, table_len);
    push_u16(buf, o0);
    push_u16(buf, o1);
    push_u16(buf, o2);
    push_u16(buf, o3);
    proof {
        assert(buf@ =~= old(buf)@ + vtable_block(table_len, o0, o1, o2, o3));
    }
}

fn push_root_table(buf: &mut Vec<u8>, sf: usize, ss: usize, sv: usize)
    requires
        28 <= sf <= ss <= sv <= MAX_FOOTER_LEN,
    ensures
        final(buf)@ == old(buf)@ + root_table_block(sf as int, ss as int, sv as int),
{
    push_u32(buf, 12);
    push_u32(buf, (sf - 20) as u32);
    push_u32(buf, (ss - 24) as u32);
    push_u32(buf, (sv - 28) as u32);
    push_u32(buf, 16);
    proof {
        assert(buf@ =~= old(buf)@ + root_table_block(sf as int, ss as int, sv as int));
    }
}

pub(crate) fn string_block_size(len: usize) -> (r: usize)
    requires
        len <= MAX_FOOTER_LEN,
    ensures
        r == string_block_len(len as int),
{
    4 + len + (1 + (4 - (len % 4 + 1) % 4) % 4)
}

fn push_offsets(buf: &mut Vec<u8>, n: usize, e0: usize)
    requires
        e0 == first_entry(n as int),
        e0 + 24 * n <= MAX_FOOTER_LEN,
    ensures
        final(buf)@ == old(buf)@ + offsets_block(n as int, n as int),
{
    let mut k: usize = 0;
    while k < n
        invariant
            e0 == first_entry(n as int),
            e0 + 24 * n <= MAX_FOOTER_LEN,
            k <= n,
            buf@ == old(buf)@ + offsets_block(n as int, k as int),
        decreases n - k,
    {
        push_u32(buf, (e0 + 24 * k - (52 + 4 * k)) as u32);
        proof {
            assert(buf@ =~= old(buf)@ + offsets_block(n as int, k + 1));
        }
        k += 1;
    }
}

fn push_entries(buf: &mut Vec<u8>, tables: &[TableInfo], e0: usize)
    requires
        e0 == first_entry(tables@.len() as int),
        e0 + 24 * tables@.len() <= MAX_FOOTER_LEN,
    ensures
        final(buf)@ == old(buf)@ + entries_block(tables@, tables@.len() as int, tables@.len() as int),
{
    let n = tables.len();
    let mut k: usize = 0;
    while k < n
        invariant
            n == tables@.len(),
            e0 == first_entry(n as int),
            e0 + 24 * n <= MAX_FOOTER_LEN,
            k <= n,
            buf@ == old(buf)@ + entries_block(tables@, n as int, k as int),
        decreases n - k,
    {
        let e = tables[k];
        push_u32(buf, (e0 + 24 * k - 36) as u32);
        push_u64(buf, #[verifier::truncate] (e.offset as u64));
        push_u64(buf, #[verifier::truncate] (e.length as u64));
        push_u16(buf, #[verifier::truncate] (e.content_type.tag() as u16));
        push_zeros(buf, 2);
        proof {
            assert(buf@ =~= old(buf)@ + entries_block(tables@, n as int, k + 1));
        }
        k += 1;
    }
}

/// Builds the footer of a POD5 file.
pub struct FooterBuilder {
    pub file_identifier: String,
    pub software: String,
    pub version: String,
}

impl FooterBuilder {
    pub fn new(file_identifier: String, software: String, version: String) -> (r: FooterBuilder)
        ensures
            r.file_identifier@ == file_identifier@,
            r.software@ == software@,
            r.version@ == version@,
    {
        FooterBuilder { file_identifier, software, version }
    }

    /// Whether a footer of these strings and `n` entries fits the format.
    pub open spec fn fits(&self, n: int) -> bool {
        footer_len(
            encode_utf8(self.file_identifier@).len() as int,
            encode_utf8(self.software@).len() as int,
            encode_utf8(self.version@).len() as int,
            n,
        ) <= MAX_FOOTER_LEN
    }

    /// The footer bytes for this builder's strings and `tables`.
    pub open spec fn footer_spec(&self, tables: Seq<TableInfo>) -> Seq<u8> {
        footer_bytes(
            encode_utf8(self.file_identifier@),
            encode_utf8(self.software@),
            encode_utf8(self.version@),
            tables,
        )
    }

    /// Appends the footer magic, the footer that lists `tables` and the
    /// footer's length as a little-endian signed 64-bit integer.
    pub fn write_footer(&self, tables: &[TableInfo], writer: &mut Vec<u8>)
        requires
            self.fits(tables@.len() as int),
        ensures
            final(writer)@ == old(writer)@ + crate::reader::footer_magic() + self.footer_spec(tables@)
                + le64(self.footer_spec(tables@).len() as u64),
    {
        let mut magic = crate::reader::footer_magic_bytes();
        writer.append(&mut magic);
        let mut footer = self.build_footer(tables);
        let flen = footer.len();
        writer.append(&mut footer);
        push_u64(writer, flen as u64);
    }

    /// The flat-buffer footer that lists `tables`.
    pub fn build_footer(&self, tables: &[TableInfo]) -> (r: Vec<u8>)
        requires
            self.fits(tables@.len() as int),
        ensures
            r@ == self.footer_spec(tables@),
    {
        proof {
            reveal(footer_bytes);
        }
        let f = self.file_identifier.as_str().as_bytes();
        let s = self.software.as_str().as_bytes();
        let v = self.version.as_str().as_bytes();
        let n = tables.len();
        let pad: usize = if n % 2 == 1 {
            4
        } else {
            0
        };
        let e0 = 52 + 4 * n + pad;
        let sf = e0 + 24 * n;
        let ss = sf + string_block_size(f.len());
        let sv = ss + string_block_size(s.len());
        let mut buf: Vec<u8> = Vec::new();
        push_u32(&mut buf, 16);
        push_vtable(&mut buf, 20, 4, 8, 12, 16);
        push_root_table(&mut buf, sf, ss, sv);
        push_vtable(&mut buf, 24, 4, 12, 0, 20);
        push_u32(&mut buf, n as u32);
        let ghost head = buf@;
        push_offsets(&mut buf, n, e0);
        push_zeros(&mut buf, pad);
        push_entries(&mut buf, tables, e0);
        let ghost before_strings = buf@;
        push_string(&mut buf, f);
        push_string(&mut buf, s);
        push_string(&mut buf, v);
        proof {
            assert(head =~= head_block(sf as int, ss as int, sv as int) + le32(n as u32));
            assert(buf@ =~= before_strings + (string_block(f@) + string_block(s@) + string_block(
                v@,
            )));
        }
        buf
    }
}

/// The first entry of kind `ct` at index `i` or later.
pub open spec fn find_from(c: Seq<TableInfo>, ct: ContentType, i: int) -> Option<TableInfo>
    decreases c.len() - i,
{
    if i < 0 || i >= c.len() {
        None
    } else if c[i].content_type == ct {
        Some(c[i])
    } else {
        find_from(c, ct, i + 1)
    }
}

/// What looking up the first table of kind `ct` in the footer bytes `b`
/// gives, with `missing` as the error when there is none.
pub open spec fn find_table_spec(b: Seq<u8>, ct: ContentType, missing: FooterError) -> Result<
    TableInfo,
    FooterError,
> {
    match parse_footer_spec(b) {
        Err(e) => Err(e),
        Ok(f) => match find_from(f.contents, ct, 0) {
            Some(t) => Ok(t),
            None => Err(missing),
        },
    }
}

/// The descriptor of the run-info table.
#[derive(Debug, Clone, Copy, PartialEq, Eq, Structural)]
pub struct RunInfoTable(pub TableInfo);

/// The descriptor of the reads table.
#[derive(Debug, Clone, Copy, PartialEq, Eq, Structural)]
pub struct ReadTable(pub TableInfo);

/// The descriptor of the signal table.
#[derive(Debug, Clone, Copy, PartialEq, Eq, Structural)]
pub struct SignalTable(pub TableInfo);

impl RunInfoTable {
    pub fn as_ref(&self) -> (r: &TableInfo)
        ensures
            *r == self.0,
    {
        &self.0
    }
}

impl ReadTable {
    pub fn as_ref(&self) -> (r: &TableInfo)
        ensures
            *r == self.0,
    {
        &self.0
    }
}

impl SignalTable {
    pub fn as_ref(&self) -> (r: &TableInfo)
        ensures
            *r == self.0,
    {
        &self.0
    }
}

/// The footer bytes of a POD5 file, parsed on demand.
#[derive(Debug, Clone)]
pub struct ParsedFooter {
    pub data: Vec<u8>,
}

impl ParsedFooter {
    /// Holds the given footer bytes.
    pub fn new(data: Vec<u8>) -> (r: ParsedFooter)
        ensures
            r.data@ == data@,
    {
        ParsedFooter { data }
    }

    /// The footer that the bytes hold.
    pub fn footer(&self) -> (r: Result<Footer, FooterError>)
        ensures
            match r {
                Ok(f) => parse_footer_spec(self.data@) == Ok::<FooterView, FooterError>(f@),
                Err(e) => parse_footer_spec(self.data@) == Err::<FooterView, FooterError>(e),
            },
    {
        parse_footer(self.data.as_slice())
    }

    /// The first listed table of kind `content_type`, or `missing`.
    pub fn find_table(&self, content_type: ContentType, missing: FooterError) -> (r: Result<
        TableInfo,
        FooterError,
    >)
        ensures
            r == find_table_spec(self.data@, content_type, missing),
    {
        let footer = match self.footer() {
            Ok(f) => f,
            Err(e) => return Err(e),
        };
        let contents = &footer.contents;
        let mut i: usize = 0;
        while i < contents.len()
            invariant
                footer@.contents == contents@,
                parse_footer_spec(self.data@) == Ok::<FooterView, FooterError>(footer@),
                i <= contents@.len(),
                find_from(contents@, content_type, 0) == find_from(contents@, content_type, i as int),
            decreases contents.len() - i,
        {
            let t = contents[i];
            if t.content_type == content_type {
                assert(find_from(contents@, content_type, i as int) == Some(contents@[i as int]));
                assert(footer@.contents == contents@);
                return Ok(t);
            }
            i += 1;
        }
        Err(missing)
    }

    /// The reads table's descriptor.
    pub fn read_table(&self) -> (r: Result<ReadTable, FooterError>)
        ensures
            match r {
                Ok(t) => find_table_spec(self.data@, ContentType::ReadsTable, FooterError::ReadTableMissing)
                    == Ok::<TableInfo, FooterError>(t.0),
                Err(e) => find_table_spec(self.data@, ContentType::ReadsTable, FooterError::ReadTableMissing)
                    == Err::<TableInfo, FooterError>(e),
            },
    {
        match self.find_table(ContentType::ReadsTable, FooterError::ReadTableMissing) {
            Ok(t) => Ok(ReadTable(t)),
            Err(e) => Err(e),
        }
    }

    /// The signal table's descriptor.
    pub fn signal_table(&self) -> (r: Result<SignalTable, FooterError>)
        ensures
            match r {
                Ok(t) => find_table_spec(self.data@, ContentType::SignalTable, FooterError::SignalTableMissing)
                    == Ok::<TableInfo, FooterError>(t.0),
                Err(e) => find_table_spec(self.data@, ContentType::SignalTable, FooterError::SignalTableMissing)
                    == Err::<TableInfo, FooterError>(e),
            },
    {
        match self.find_table(ContentType::SignalTable, FooterError::SignalTableMissing) {
            Ok(t) => Ok(SignalTable(t)),
            Err(e) => Err(e),
        }
    }

    /// The run-info table's descriptor.
    pub fn run_info_table(&self) -> (r: Result<RunInfoTable, FooterError>)
        ensures
            match r {
                Ok(t) => find_table_spec(self.data@, ContentType::RunInfoTable, FooterError::RunInfoTableMissing)
                    == Ok::<TableInfo, FooterError>(t.0),
                Err(e) => find_table_spec(self.data@, ContentType::RunInfoTable, FooterError::RunInfoTableMissing)
                    == Err::<TableInfo, FooterError>(e),
            },
    {
        match self.find_table(ContentType::RunInfoTable, FooterError::RunInfoTableMissing) {
            Ok(t) => Ok(RunInfoTable(t)),
            Err(e) => Err(e),
        }
    }
}

proof fn lemma_sub_left(x: Seq<u8>, c: Seq<u8>, i: int, j: int)
    requires
        0 <= i <= j <= x.len(),
    ensures
        (x + c).subrange(i, j) == x.subrange(i, j),
{
    assert((x + c).subrange(i, j) =~= x.subrange(i, j));
}

proof fn lemma_sub_right(a: Seq<u8>, x: Seq<u8>, i: int, j: int)
    requires
        0 <= i <= j <= x.len(),
    ensures
        (a + x).subrange(a.len() + i, a.len() + j) == x.subrange(i, j),
{
    assert((a + x).subrange(a.len() + i, a.len() + j) =~= x.subrange(i, j));
}

proof fn lemma_offsets_block(n: int, k: int, i: int)
    requires
        0 <= i < k,
    ensures
        offsets_block(n, k).len() == 4 * k,
        offsets_block(n, k).subrange(4 * i, 4 * i + 4) == le32(
            (entry_pos(n, i) - (52 + 4 * i)) as u32,
        ),
    decreases k,
{
    lemma_le_lengths();
    if i < k - 1 {
        lemma_offsets_block(n, k - 1, i);
        lemma_sub_left(offsets_block(n, k - 1), le32((entry_pos(n, k - 1) - (52 + 4 * (k - 1))) as u32), 4 * i, 4 * i + 4);
    } else {
        lemma_offsets_len(n, k - 1);
        lemma_sub_right(offsets_block(n, k - 1), le32((entry_pos(n, k - 1) - (52 + 4 * (k - 1))) as u32), 0, 4);
        assert(le32((entry_pos(n, k - 1) - (52 + 4 * (k - 1))) as u32).subrange(0, 4) =~= le32((entry_pos(n, k - 1) - (52 + 4 * (k - 1))) as u32));
    }
}

proof fn lemma_offsets_len(n: int, k: int)
    requires
        0 <= k,
    ensures
        offsets_block(n, k).len() == 4 * k,
    decreases k,
{
    lemma_le_lengths();
    if k > 0 {
        lemma_offsets_len(n, k - 1);
    }
}

proof fn lemma_entries_len(c: Seq<TableInfo>, n: int, k: int)
    requires
        0 <= k <= c.len(),
    ensures
        entries_block(c, n, k).len() == 24 * k,
    decreases k,
{
    lemma_le_lengths();
    if k > 0 {
        lemma_entries_len(c, n, k - 1);
    }
}

proof fn lemma_entries_block(c: Seq<TableInfo>, n: int, k: int, i: int, a: int, b: int)
    requires
        0 <= i < k <= c.len(),
        0 <= a <= b <= 24,
    ensures
        entries_block(c, n, k).subrange(24 * i + a, 24 * i + b) == entry_block(c[i], entry_pos(n, i)).subrange(a, b),
    decreases k,
{
    lemma_le_lengths();
    lemma_entries_len(c, n, k - 1);
    if i < k - 1 {
        lemma_entries_block(c, n, k - 1, i, a, b);
        lemma_sub_left(entries_block(c, n, k - 1), entry_block(c[k - 1], entry_pos(n, k - 1)), 24 * i + a, 24 * i + b);
    } else {
        lemma_sub_right(entries_block(c, n, k - 1), entry_block(c[k - 1], entry_pos(n, k - 1)), a, b);
    }
}

proof fn lemma_window(b: Seq<u8>, x: Seq<u8>, off: int, i: int, j: int)
    requires
        0 <= off,
        off + x.len() <= b.len(),
        b.subrange(off, off + x.len()) == x,
        0 <= i <= j <= x.len(),
    ensures
        b.subrange(off + i, off + j) == x.subrange(i, j),
{
    assert(b.subrange(off + i, off + j) =~= x.subrange(i, j));
}

/// The parts of a built footer, each at its position.
proof fn lemma_footer_parts(f: Seq<u8>, s: Seq<u8>, v: Seq<u8>, c: Seq<TableInfo>)
    ensures
        ({
            let n = c.len() as int;
            let sf = first_entry(n) + 24 * n;
            let ss = sf + string_block_len(f.len() as int);
            let sv = ss + string_block_len(s.len() as int);
            let b = footer_bytes(f, s, v, c);
            &&& b.len() == footer_len(f.len() as int, s.len() as int, v.len() as int, n)
            &&& b.subrange(0, 52) == head_block(sf, ss, sv) + le32(n as u32)
            &&& b.subrange(52, 52 + 4 * n) == offsets_block(n, n)
            &&& b.subrange(first_entry(n), first_entry(n) + 24 * n) == entries_block(c, n, n)
            &&& b.subrange(sf, ss) == string_block(f)
            &&& b.subrange(ss, sv) == string_block(s)
            &&& b.subrange(sv, b.len() as int) == string_block(v)
        }),
{
    reveal(footer_bytes);
    lemma_le_lengths();
    let n = c.len() as int;
    let sf = first_entry(n) + 24 * n;
    let ss = sf + string_block_len(f.len() as int);
    let sv = ss + string_block_len(s.len() as int);
    let hn = head_block(sf, ss, sv) + le32(n as u32);
    let o = offsets_block(n, n);
    let pz = Seq::new(vector_pad(n) as nat, |i: int| 0u8);
    let e = entries_block(c, n, n);
    let st = string_block(f) + string_block(s) + string_block(v);
    lemma_offsets_len(n, n);
    lemma_entries_len(c, n, n);
    let b = footer_bytes(f, s, v, c);
    assert(b == hn + o + pz + e + st);
    assert(hn.len() == 52);
    assert(b.subrange(0, 52) =~= hn);
    assert(b.subrange(52, 52 + 4 * n) =~= o);
    assert(b.subrange(first_entry(n), first_entry(n) + 24 * n) =~= e);
    assert(b.subrange(sf, ss) =~= string_block(f));
    assert(b.subrange(ss, sv) =~= string_block(s));
    assert(b.subrange(sv, b.len() as int) =~= string_block(v));
}

proof fn lemma_vtable_block(table_len: u16, o0: u16, o1: u16, o2: u16, o3: u16)
    ensures
        ({
            let vt = vtable_block(table_len, o0, o1, o2, o3);
            &&& vt.len() == 12
            &&& u16_at(vt, 0) == 12
            &&& u16_at(vt, 4) == o0
            &&& u16_at(vt, 6) == o1
            &&& u16_at(vt, 8) == o2
            &&& u16_at(vt, 10) == o3
        }),
{
    lemma_le_lengths();
    let vt = vtable_block(table_len, o0, o1, o2, o3);
    assert(vt.subrange(0, 2) =~= le16(12));
    assert(vt.subrange(4, 6) =~= le16(o0));
    assert(vt.subrange(6, 8) =~= le16(o1));
    assert(vt.subrange(8, 10) =~= le16(o2));
    assert(vt.subrange(10, 12) =~= le16(o3));
}

proof fn lemma_root_table_block(sf: int, ss: int, sv: int)
    ensures
        ({
            let t = root_table_block(sf, ss, sv);
            &&& t.len() == 20
            &&& u32_at(t, 0) == 12
            &&& u32_at(t, 4) == (sf - 20) as u32
            &&& u32_at(t, 8) == (ss - 24) as u32
            &&& u32_at(t, 12) == (sv - 28) as u32
            &&& u32_at(t, 16) == 16
        }),
{
    lemma_le_lengths();
    let t = root_table_block(sf, ss, sv);
    assert(t.subrange(0, 4) =~= le32(12));
    assert(t.subrange(4, 8) =~= le32((sf - 20) as u32));
    assert(t.subrange(8, 12) =~= le32((ss - 24) as u32));
    assert(t.subrange(12, 16) =~= le32((sv - 28) as u32));
    assert(t.subrange(16, 20) =~= le32(16));
}

proof fn lemma_u16_window(b: Seq<u8>, x: Seq<u8>, off: int, i: int)
    requires
        0 <= off,
        off + x.len() <= b.len(),
        b.subrange(off, off + x.len()) == x,
        0 <= i,
        i + 2 <= x.len(),
    ensures
        u16_at(b, off + i) == u16_at(x, i),
{
    lemma_window(b, x, off, i, i + 2);
}

proof fn lemma_u32_window(b: Seq<u8>, x: Seq<u8>, off: int, i: int)
    requires
        0 <= off,
        off + x.len() <= b.len(),
        b.subrange(off, off + x.len()) == x,
        0 <= i,
        i + 4 <= x.len(),
    ensures
        u32_at(b, off + i) == u32_at(x, i),
{
    lemma_window(b, x, off, i, i + 4);
}

/// The values that a built footer's root table and shared vtables hold.
proof fn lemma_footer_head(f: Seq<u8>, s: Seq<u8>, v: Seq<u8>, c: Seq<TableInfo>)
    ensures
        ({
            let n = c.len() as int;
            let sf = first_entry(n) + 24 * n;
            let ss = sf + string_block_len(f.len() as int);
            let sv = ss + string_block_len(s.len() as int);
            let b = footer_bytes(f, s, v, c);
            &&& u32_at(b, 0) == 16
            &&& u32_at(b, 16) == 12
            &&& u16_at(b, 4) == 12
            &&& u16_at(b, 8) == 4
            &&& u16_at(b, 10) == 8
            &&& u16_at(b, 12) == 12
            &&& u16_at(b, 14) == 16
            &&& u32_at(b, 20) == (sf - 20) as u32
            &&& u32_at(b, 24) == (ss - 24) as u32
            &&& u32_at(b, 28) == (sv - 28) as u32
            &&& u32_at(b, 32) == 16
            &&& u32_at(b, 48) == n as u32
            &&& u16_at(b, 36) == 12
            &&& u16_at(b, 40) == 4
            &&& u16_at(b, 42) == 12
            &&& u16_at(b, 46) == 20
        }),
{
    lemma_le_lengths();
    let n = c.len() as int;
    let sf = first_entry(n) + 24 * n;
    let ss = sf + string_block_len(f.len() as int);
    let sv = ss + string_block_len(s.len() as int);
    let b = footer_bytes(f, s, v, c);
    let fvt = vtable_block(20, 4, 8, 12, 16);
    let rt = root_table_block(sf, ss, sv);
    let evt = vtable_block(24, 4, 12, 0, 20);
    let hn = head_block(sf, ss, sv) + le32(n as u32);
    lemma_footer_parts(f, s, v, c);
    lemma_vtable_block(20, 4, 8, 12, 16);
    lemma_vtable_block(24, 4, 12, 0, 20);
    lemma_root_table_block(sf, ss, sv);
    assert(hn.subrange(0, 4) =~= le32(16));
    assert(hn.subrange(4, 16) =~= fvt);
    assert(hn.subrange(16, 36) =~= rt);
    assert(hn.subrange(36, 48) =~= evt);
    assert(hn.subrange(48, 52) =~= le32(n as u32));
    lemma_window(b, hn, 0, 0, 4);
    lemma_window(b, hn, 0, 4, 16);
    lemma_window(b, hn, 0, 16, 36);
    lemma_window(b, hn, 0, 36, 48);
    lemma_window(b, hn, 0, 48, 52);
    lemma_u16_window(b, fvt, 4, 0);
    lemma_u16_window(b, fvt, 4, 4);
    lemma_u16_window(b, fvt, 4, 6);
    lemma_u16_window(b, fvt, 4, 8);
    lemma_u16_window(b, fvt, 4, 10);
    lemma_u16_window(b, evt, 36, 0);
    lemma_u16_window(b, evt, 36, 4);
    lemma_u16_window(b, evt, 36, 6);
    lemma_u16_window(b, evt, 36, 10);
    lemma_u32_window(b, rt, 16, 0);
    lemma_u32_window(b, rt, 16, 4);
    lemma_u32_window(b, rt, 16, 8);
    lemma_u32_window(b, rt, 16, 12);
    lemma_u32_window(b, rt, 16, 16);
}

proof fn lemma_entry_block(e: TableInfo, pos: int)
    ensures
        ({
            let eb = entry_block(e, pos);
            &&& eb.len() == 24
            &&& eb.subrange(0, 4) == le32((pos - 36) as u32)
            &&& eb.subrange(4, 12) == le64(e.offset as u64)
            &&& eb.subrange(12, 20) == le64(e.length as u64)
            &&& eb.subrange(20, 22) == le16(content_type_tag(e.content_type) as u16)
        }),
{
    lemma_le_lengths();
    let eb = entry_block(e, pos);
    assert(eb.subrange(0, 4) =~= le32((pos - 36) as u32));
    assert(eb.subrange(4, 12) =~= le64(e.offset as u64));
    assert(eb.subrange(12, 20) =~= le64(e.length as u64));
    assert(eb.subrange(20, 22) =~= le16(content_type_tag(e.content_type) as u16));
}

proof fn lemma_signed_casts(x: i64, t: i16)
    ensures
        (x as u64) as i64 == x,
        (t as u16) as i16 == t,
{
    assert((x as u64) as i64 == x) by (bit_vector);
    assert((t as u16) as i16 == t) by (bit_vector);
}

/// Entry `k` of a built footer reads back as the `k`-th table.
proof fn lemma_footer_entry(f: Seq<u8>, s: Seq<u8>, v: Seq<u8>, c: Seq<TableInfo>, k: int)
    requires
        footer_len(f.len() as int, s.len() as int, v.len() as int, c.len() as int) <= MAX_FOOTER_LEN,
        0 <= k < c.len(),
    ensures
        element_table(footer_bytes(f, s, v, c), 48, k) == entry_pos(c.len() as int, k),
        entry_at(footer_bytes(f, s, v, c), entry_pos(c.len() as int, k)) == Some(c[k]),
{
    lemma_le_lengths();
    let n = c.len() as int;
    let b = footer_bytes(f, s, v, c);
    let ek = entry_pos(n, k);
    let e = c[k];
    let eb = entry_block(e, ek);
    lemma_footer_parts(f, s, v, c);
    lemma_footer_head(f, s, v, c);
    lemma_offsets_block(n, n, k);
    lemma_window(b, offsets_block(n, n), 52, 4 * k, 4 * k + 4);
    assert(b.subrange(52 + 4 * k, 52 + 4 * k + 4) == le32((ek - (52 + 4 * k)) as u32));
    assert(u32_at(b, 52 + 4 * k) == (ek - (52 + 4 * k)) as u32);
    lemma_entry_block(e, ek);
    lemma_entries_len(c, n, n);
    let eall = entries_block(c, n, n);
    lemma_entries_block(c, n, n, k, 0, 4);
    lemma_window(b, eall, first_entry(n), 24 * k, 24 * k + 4);
    lemma_entries_block(c, n, n, k, 4, 12);
    lemma_window(b, eall, first_entry(n), 24 * k + 4, 24 * k + 12);
    lemma_entries_block(c, n, n, k, 12, 20);
    lemma_window(b, eall, first_entry(n), 24 * k + 12, 24 * k + 20);
    lemma_entries_block(c, n, n, k, 20, 22);
    lemma_window(b, eall, first_entry(n), 24 * k + 20, 24 * k + 22);
    assert(u32_at(b, ek) == (ek - 36) as u32);
    assert(u64_at(b, ek + 4) == #[verifier::truncate] (e.offset as u64));
    assert(u64_at(b, ek + 12) == #[verifier::truncate] (e.length as u64));
    assert(u16_at(b, ek + 20) == content_type_tag(e.content_type) as u16);
    lemma_signed_casts(e.offset, content_type_tag(e.content_type));
    lemma_signed_casts(e.length, 0);
    assert(field_pos(b, ek, 0) == Some(Some(ek + 4)));
    assert(field_pos(b, ek, 1) == Some(Some(ek + 12)));
    assert(field_pos(b, ek, 3) == Some(Some(ek + 20)));
}

proof fn lemma_string_read(b: Seq<u8>, x: Seq<u8>, p: int, st: int)
    requires
        0 <= p < st,
        st + string_block_len(x.len() as int) <= b.len(),
        b.len() <= MAX_FOOTER_LEN,
        in_bounds(b, p, 4),
        u32_at(b, p) == (st - p) as u32,
        b.subrange(st, st + string_block_len(x.len() as int)) == string_block(x),
    ensures
        string_at(b, p) == Some(x),
{
    lemma_le_lengths();
    let sb = string_block(x);
    assert(sb.len() == string_block_len(x.len() as int));
    assert(sb.subrange(0, 4) =~= le32(x.len() as u32));
    assert(sb.subrange(4, 4 + x.len() as int) =~= x);
    lemma_window(b, sb, st, 0, 4);
    lemma_window(b, sb, st, 4, 4 + x.len() as int);
    assert(follow(b, p) == st);
    assert(u32_at(b, st) == x.len() as u32);
}

/// Reading a footer that was built from strings and table entries gives
/// back those strings and entries, in order.
pub proof fn lemma_footer_round_trip(f: Seq<u8>, s: Seq<u8>, v: Seq<u8>, c: Seq<TableInfo>)
    requires
        valid_utf8(f),
        valid_utf8(s),
        valid_utf8(v),
        footer_len(f.len() as int, s.len() as int, v.len() as int, c.len() as int) <= MAX_FOOTER_LEN,
    ensures
        parse_footer_spec(footer_bytes(f, s, v, c)) == Ok::<FooterView, FooterError>(
            FooterView { file_identifier: f, software: s, pod5_version: v, contents: c },
        ),
        footer_bytes(f, s, v, c).len() == footer_len(f.len() as int, s.len() as int, v.len() as int, c.len() as int),
{
    reveal(parse_footer_spec);
    lemma_le_lengths();
    let n = c.len() as int;
    let sf = first_entry(n) + 24 * n;
    let ss = sf + string_block_len(f.len() as int);
    let sv = ss + string_block_len(s.len() as int);
    let b = footer_bytes(f, s, v, c);
    lemma_footer_parts(f, s, v, c);
    lemma_footer_head(f, s, v, c);
    assert(field_pos(b, 16, 0) == Some(Some(20int)));
    assert(field_pos(b, 16, 1) == Some(Some(24int)));
    assert(field_pos(b, 16, 2) == Some(Some(28int)));
    assert(field_pos(b, 16, 3) == Some(Some(32int)));
    lemma_string_read(b, f, 20, sf);
    lemma_string_read(b, s, 24, ss);
    lemma_string_read(b, v, 28, sv);
    assert(follow(b, 32) == 48);
    assert forall|k: int| 0 <= k < n implies (#[trigger] entry_at(b, element_table(b, 48, k))) == Some(
        c[k],
    ) by {
        lemma_footer_entry(f, s, v, c, k);
    }
    assert(Seq::new(n as nat, |k: int| entry_at(b, element_table(b, 48, k))->0) =~= c);
}

} // verus!
