//! The single-pass writer: signature and section marker, then one region
//! per table, each padded to an 8-byte boundary and followed by the section
//! marker, then the footer magic, the footer, its length, the section marker
//! and the signature.

use crate::footer::{
    footer_bytes, footer_len, lemma_footer_round_trip, parse_footer_spec, string_block_size,
    ContentType, FooterBuilder, FooterError, FooterView, TableInfo, MAX_FOOTER_LEN,
};
use crate::le::{le64, lemma_le_lengths, push_zeros, same_bytes, u64_at};
use crate::reader::{
    file_signature, file_signature_bytes, footer_magic, locate_footer_spec, markers_consistent,
    open_spec, Pod5Error,
};
use crate::record::{random_uuid, uuid_text, uuid_text_spec};
use vstd::prelude::*;
use vstd::utf8::encode_utf8;

verus! {

/// Largest file that the writer produces: offsets are signed 64-bit.
pub const MAX_FILE_LEN: u64 = 0x3fff_ffff_ffff_ffff;

/// Kind of table that a write guard is opened for.
#[derive(Debug, Clone, Copy, PartialEq, Eq, Structural)]
pub enum TableContent {
    Signal,
    Read,
    RunInfo,
    Other,
}

/// The footer content type of a table kind.
pub open spec fn content_type_of(c: TableContent) -> ContentType {
    match c {
        TableContent::Signal => ContentType::SignalTable,
        TableContent::Read => ContentType::ReadsTable,
        TableContent::RunInfo => ContentType::RunInfoTable,
        TableContent::Other => ContentType::OtherIndex,
    }
}

impl TableContent {
    pub fn into_content_type(self) -> (r: ContentType)
        ensures
            r == content_type_of(self),
    {
        match self {
            TableContent::Signal => ContentType::SignalTable,
            TableContent::Read => ContentType::ReadsTable,
            TableContent::RunInfo => ContentType::RunInfoTable,
            TableContent::Other => ContentType::OtherIndex,
        }
    }
}

/// Whether a file holds at most one table of this kind.
pub open spec fn is_mandatory(ct: ContentType) -> bool {
    ct != ContentType::OtherIndex
}

/// The custom schema metadata that each table region carries: the format
/// version, the software and the file identifier.
pub fn pod5_metadata(file_identifier: &String) -> (r: Vec<(String, String)>)
    ensures
        r@.len() == 3,
        r@[0].0@ == "MINKNOW:pod5_version"@ && r@[0].1@ == pod5_version(),
        r@[1].0@ == "MINKNOW:software"@ && r@[1].1@ == software_name(),
        r@[2].0@ == "MINKNOW:file_identifier"@ && r@[2].1@ == file_identifier@,
{
    let mut r: Vec<(String, String)> = Vec::new();
    r.push((String::from_str("MINKNOW:pod5_version"), String::from_str("0.0.40")));
    r.push((String::from_str("MINKNOW:software"), String::from_str("pod5-rs")));
    r.push((String::from_str("MINKNOW:file_identifier"), file_identifier.clone()));
    r
}

/// Whether a table of kind `ct` is listed.
pub open spec fn listed(tables: Seq<TableInfo>, ct: ContentType) -> bool {
    exists|i: int| 0 <= i < tables.len() && (#[trigger] tables[i]).content_type == ct
}

/// Ways in which writing fails.
#[derive(Debug, Clone, Copy, PartialEq, Eq, Structural)]
pub enum WriteError {
    /// A table of this mandatory kind has been written already.
    ContentTypeAlreadyWritten(ContentType),
    /// Another table is open.
    TableAlreadyOpen,
    /// No table is open.
    NoTableOpen,
    /// A table is still open when the file is finished.
    TableStillOpen,
    /// A batch's schema differs from the first batch's.
    SchemaMismatch,
    /// The file would outgrow the offsets of the format.
    FileTooLarge,
}

/// End of a table's region, before its trailing section marker.
pub open spec fn region_end(t: TableInfo) -> int {
    t.offset + t.length
}

/// Where the region of table `i` starts: after the leading signature and
/// section marker, or after the previous region and its marker.
pub open spec fn region_start(tables: Seq<TableInfo>, i: int) -> int {
    if i == 0 {
        24
    } else {
        region_end(tables[i - 1]) + 16
    }
}

/// Number of zero bytes that pad `len` to a multiple of eight.
pub open spec fn pad_len(len: int) -> int {
    (8 - len % 8) % 8
}

/// Writes a POD5 file into an in-memory sink.
pub struct Writer {
    /// Bytes written so far.
    pub buf: Vec<u8>,
    /// The section marker of this file, written at every boundary.
    pub section_marker: Vec<u8>,
    pub file_identifier: String,
    /// Descriptors of the closed tables, in file order.
    pub tables: Vec<TableInfo>,
    /// Start of the current section.
    pub position: usize,
    /// The table being written, if any.
    pub open: Option<TableContent>,
    /// The batches written to each closed table, in order.
    pub batches: Ghost<Seq<Seq<Seq<u8>>>>,
    /// The batches written to the open table so far.
    pub pending: Ghost<Seq<Seq<u8>>>,
}

/// Batches joined in order.
pub open spec fn joined(s: Seq<Seq<u8>>) -> Seq<u8>
    decreases s.len(),
{
    if s.len() == 0 {
        Seq::empty()
    } else {
        joined(s.drop_last()) + s.last()
    }
}

/// `n` zero bytes.
pub open spec fn zeros(n: int) -> Seq<u8> {
    Seq::new(n as nat, |k: int| 0u8)
}

/// Software name written into the footer.
pub open spec fn software_name() -> Seq<char> {
    "pod5-rs"@
}

/// Format version written into the footer.
pub open spec fn pod5_version() -> Seq<char> {
    "0.0.40"@
}

/// Whether a table of kind `ct` is listed.
pub fn is_listed(tables: &[TableInfo], ct: ContentType) -> (r: bool)
    ensures
        r == listed(tables@, ct),
{
    let mut i: usize = 0;
    while i < tables.len()
        invariant
            i <= tables@.len(),
            forall|k: int| 0 <= k < i ==> (#[trigger] tables@[k]).content_type != ct,
        decreases tables.len() - i,
    {
        if tables[i].content_type == ct {
            assert(tables@[i as int].content_type == ct);
            return true;
        }
        i += 1;
    }
    false
}

impl Writer {
    /// The writer's invariant.
    pub open spec fn wf(&self) -> bool {
        let b = self.buf@;
        let t = self.tables@;
        &&& self.section_marker@.len() == 16
        &&& 24 <= self.position <= b.len() <= MAX_FILE_LEN
        &&& b.subrange(0, 8) == file_signature()
        &&& b.subrange(8, 24) == self.section_marker@
        &&& self.position % 8 == 0
        &&& self.open is None ==> self.position == b.len()
        &&& forall|i: int|
            0 <= i < t.len() ==> {
                &&& (#[trigger] t[i]).offset == region_start(t, i)
                &&& t[i].offset >= 24
                &&& t[i].length >= 0
                &&& region_end(t[i]) % 8 == 0
                &&& region_end(t[i]) + 16 <= self.position
                &&& b.subrange(region_end(t[i]), region_end(t[i]) + 16) == self.section_marker@
            }
        &&& self.position == region_start(t, t.len() as int)
        &&& self.batches@.len() == t.len()
        &&& forall|i: int|
            0 <= i < t.len() ==> {
                let d = joined(#[trigger] self.batches@[i]);
                &&& d.len() <= t[i].length
                &&& b.subrange(t[i].offset as int, t[i].offset + d.len()) == d
                &&& b.subrange(t[i].offset + d.len(), region_end(t[i])) == zeros(
                    t[i].length - d.len(),
                )
            }
        &&& b.subrange(self.position as int, b.len() as int) == joined(self.pending@)
        &&& self.open is None ==> self.pending@.len() == 0
        &&& self.open matches Some(c) ==> !(is_mandatory(content_type_of(c)) && listed(
            t,
            content_type_of(c),
        ))
        &&& forall|i: int, j: int|
            0 <= i < j < t.len() && is_mandatory(#[trigger] t[i].content_type) ==> t[i].content_type
                != (#[trigger] t[j]).content_type
    }

    /// Starts a file with the given section marker and file identifier: the
    /// sink is emptied, then the signature and the section marker are
    /// written.
    pub fn with_ids(writer: Vec<u8>, section_marker: [u8; 16], file_identifier: String) -> (r: Writer)
        ensures
            r.wf(),
            r.buf@ == file_signature() + section_marker@,
            r.section_marker@ == section_marker@,
            r.file_identifier@ == file_identifier@,
            r.tables@.len() == 0,
            r.open is None,
    {
        let mut buf = writer;
        buf.clear();
        let mut sig = file_signature_bytes();
        buf.append(&mut sig);
        let mut sm: Vec<u8> = Vec::new();
        let mut i: usize = 0;
        while i < 16
            invariant
                i <= 16,
                sm@ == section_marker@.subrange(0, i as int),
            decreases 16 - i,
        {
            sm.push(section_marker[i]);
            proof {
                assert(sm@ =~= section_marker@.subrange(0, i + 1));
            }
            i += 1;
        }
        assert(sm@ =~= section_marker@);
        let mut marker = sm.clone();
        assert(marker@ == sm@);
        buf.append(&mut marker);
        let w = Writer {
            buf,
            section_marker: sm,
            file_identifier,
            tables: Vec::new(),
            position: 24,
            open: None,
            batches: Ghost(Seq::empty()),
            pending: Ghost(Seq::empty()),
        };
        assert(w.buf@.subrange(24, 24) =~= joined(Seq::<Seq<u8>>::empty()));
        assert(w.buf@.subrange(0, 8) =~= file_signature());
        assert(w.buf@.subrange(8, 24) =~= w.section_marker@);
        w
    }

    /// Starts a file with a fresh random section marker and file identifier.
    pub fn from_writer(writer: Vec<u8>) -> (r: Writer)
        ensures
            r.wf(),
            r.buf@ == file_signature() + r.section_marker@,
            exists|id: Seq<u8>| id.len() == 16 && r.file_identifier@ == uuid_text_spec(id),
            r.tables@.len() == 0,
            r.open is None,
    {
        let marker = random_uuid();
        let id_bytes = random_uuid();
        let id = uuid_text(id_bytes);
        let r = Writer::with_ids(writer, marker, id);
        assert(id_bytes@.len() == 16 && r.file_identifier@ == uuid_text_spec(id_bytes@));
        r
    }

    /// Opens a table of kind `content`. Fails, and leaves the writer as it
    /// was, when another table is open or when a table of this mandatory kind
    /// was written already.
    pub fn open_table(&mut self, content: TableContent) -> (r: Result<(), WriteError>)
        requires
            old(self).wf(),
        ensures
            final(self).wf(),
            match r {
                Ok(()) => {
                    &&& old(self).open is None
                    &&& !(is_mandatory(content_type_of(content)) && listed(
                        old(self).tables@,
                        content_type_of(content),
                    ))
                    &&& *final(self) == Writer { open: Some(content), ..*old(self) }
                },
                Err(e) => {
                    &&& *final(self) == *old(self)
                    &&& (e == WriteError::TableAlreadyOpen || e == WriteError::ContentTypeAlreadyWritten(
                        content_type_of(content),
                    ))
                    &&& (e == WriteError::TableAlreadyOpen <==> old(self).open is Some)
                    &&& (e == WriteError::ContentTypeAlreadyWritten(content_type_of(content)) <==> (
                    old(self).open is None && is_mandatory(content_type_of(content)) && listed(
                        old(self).tables@,
                        content_type_of(content),
                    )))
                },
            },
    {
        if self.open.is_some() {
            return Err(WriteError::TableAlreadyOpen);
        }
        let ct = content.into_content_type();
        if ct != ContentType::OtherIndex && is_listed(self.tables.as_slice(), ct) {
            return Err(WriteError::ContentTypeAlreadyWritten(ct));
        }
        self.open = Some(content);
        Ok(())
    }

    /// Appends bytes to the open table's region.
    pub fn write_table_bytes(&mut self, bytes: &[u8]) -> (r: Result<(), WriteError>)
        requires
            old(self).wf(),
        ensures
            final(self).wf(),
            match r {
                Ok(()) => {
                    &&& old(self).open is Some
                    &&& final(self).buf@ == old(self).buf@ + bytes@
                    &&& final(self).pending@ == old(self).pending@.push(bytes@)
                    &&& *final(self) == Writer {
                        buf: final(self).buf,
                        pending: final(self).pending,
                        ..*old(self)
                    }
                },
                Err(e) => {
                    &&& *final(self) == *old(self)
                    &&& (e == WriteError::NoTableOpen || e == WriteError::FileTooLarge)
                    &&& (e == WriteError::NoTableOpen <==> old(self).open is None)
                    &&& (e == WriteError::FileTooLarge <==> (old(self).open is Some && old(
                        self,
                    ).buf@.len() + bytes@.len() > MAX_FILE_LEN))
                },
            },
    {
        if self.open.is_none() {
            return Err(WriteError::NoTableOpen);
        }
        if bytes.len() as u64 > MAX_FILE_LEN - self.buf.len() as u64 {
            return Err(WriteError::FileTooLarge);
        }
        let ghost old_buf = self.buf@;
        let mut i: usize = 0;
        while i < bytes.len()
            invariant
                i <= bytes@.len(),
                self.buf@ == old_buf + bytes@.subrange(0, i as int),
                self.section_marker == old(self).section_marker,
                self.file_identifier == old(self).file_identifier,
                self.tables == old(self).tables,
                self.position == old(self).position,
                self.open == old(self).open,
                self.batches == old(self).batches,
                self.pending == old(self).pending,
                old_buf == old(self).buf@,
            decreases bytes.len() - i,
        {
            self.buf.push(bytes[i]);
            proof {
                assert(self.buf@ =~= old_buf + bytes@.subrange(0, i + 1));
            }
            i += 1;
        }
        proof {
            assert(bytes@.subrange(0, bytes@.len() as int) =~= bytes@);
            let b = self.buf@;
            assert(b.subrange(0, 8) =~= old_buf.subrange(0, 8));
            assert(b.subrange(8, 24) =~= old_buf.subrange(8, 24));
            assert forall|k: int| 0 <= k < self.tables@.len() implies b.subrange(
                region_end(#[trigger] self.tables@[k]),
                region_end(self.tables@[k]) + 16,
            ) == self.section_marker@ by {
                assert(b.subrange(region_end(self.tables@[k]), region_end(self.tables@[k]) + 16)
                    =~= old_buf.subrange(region_end(self.tables@[k]), region_end(self.tables@[k]) + 16));
            }
            let t = self.tables@;
            assert forall|k: int| 0 <= k < t.len() implies {
                let d = joined(#[trigger] self.batches@[k]);
                &&& d.len() <= t[k].length
                &&& b.subrange(t[k].offset as int, t[k].offset + d.len()) == d
                &&& b.subrange(t[k].offset + d.len(), region_end(t[k])) == zeros(
                    t[k].length - d.len(),
                )
            } by {
                let d = joined(self.batches@[k]);
                assert(b.subrange(t[k].offset as int, t[k].offset + d.len()) =~= old_buf.subrange(
                    t[k].offset as int,
                    t[k].offset + d.len(),
                ));
                assert(b.subrange(t[k].offset + d.len(), region_end(t[k])) =~= old_buf.subrange(
                    t[k].offset + d.len(),
                    region_end(t[k]),
                ));
            }
        }
        let ghost pending = self.pending@.push(bytes@);
        proof {
            assert(pending.drop_last() =~= self.pending@);
            assert(self.buf@.subrange(self.position as int, self.buf@.len() as int) =~= old_buf.subrange(
                self.position as int,
                old_buf.len() as int,
            ) + bytes@);
        }
        self.pending = Ghost(pending);
        Ok(())
    }

    /// Closes the open table: pads its region with zeros to an 8-byte
    /// boundary, writes the section marker and records the region.
    #[verifier::rlimit(60)]
    pub fn close_table(&mut self) -> (r: Result<TableInfo, WriteError>)
        requires
            old(self).wf(),
        ensures
            final(self).wf(),
            match r {
                Ok(t) => {
                    let len = old(self).buf@.len() as int;
                    &&& old(self).open matches Some(c) && t.content_type == content_type_of(c)
                    &&& t.offset == old(self).position
                    &&& t.length == len + pad_len(len) - old(self).position
                    &&& final(self).buf@ == old(self).buf@ + Seq::new(
                        pad_len(len) as nat,
                        |i: int| 0u8,
                    ) + old(self).section_marker@
                    &&& final(self).tables@ == old(self).tables@.push(t)
                    &&& final(self).batches@ == old(self).batches@.push(old(self).pending@)
                    &&& final(self).pending@.len() == 0
                    &&& final(self).open is None
                    &&& final(self).section_marker == old(self).section_marker
                    &&& final(self).file_identifier == old(self).file_identifier
                },
                Err(e) => {
                    &&& *final(self) == *old(self)
                    &&& (e == WriteError::NoTableOpen || e == WriteError::FileTooLarge)
                    &&& (e == WriteError::NoTableOpen <==> old(self).open is None)
                    &&& (e == WriteError::FileTooLarge <==> (old(self).open is Some && old(
                        self,
                    ).buf@.len() + pad_len(old(self).buf@.len() as int) + 16 > MAX_FILE_LEN))
                },
            },
    {
        let c = match self.open {
            Some(c) => c,
            None => return Err(WriteError::NoTableOpen),
        };
        let len = self.buf.len();
        let pad = (8 - len % 8) % 8;
        if MAX_FILE_LEN - (len as u64) < (pad + 16) as u64 {
            return Err(WriteError::FileTooLarge);
        }
        let ghost old_buf = self.buf@;
        push_zeros(&mut self.buf, pad);
        let end = self.buf.len();
        let t = TableInfo {
            offset: self.position as i64,
            length: (end - self.position) as i64,
            content_type: c.into_content_type(),
        };
        let mut marker = self.section_marker.clone();
        assert(marker@ == self.section_marker@);
        self.buf.append(&mut marker);
        self.tables.push(t);
        self.position = self.buf.len();
        self.open = None;
        let ghost closed = old(self).pending@;
        self.batches = Ghost(self.batches@.push(closed));
        self.pending = Ghost(Seq::empty());
        proof {
            let bb = self.buf@;
            let tt = self.tables@;
            let nn = tt.len() - 1;
            assert(bb.subrange(bb.len() as int, bb.len() as int) =~= joined(Seq::<Seq<u8>>::empty()));
            assert forall|k: int| 0 <= k < tt.len() implies {
                let d = joined(#[trigger] self.batches@[k]);
                &&& d.len() <= tt[k].length
                &&& bb.subrange(tt[k].offset as int, tt[k].offset + d.len()) == d
                &&& bb.subrange(tt[k].offset + d.len(), region_end(tt[k])) == zeros(
                    tt[k].length - d.len(),
                )
            } by {
                let d = joined(self.batches@[k]);
                if k < nn {
                    assert(tt[k] == old(self).tables@[k]);
                    assert(self.batches@[k] == old(self).batches@[k]);
                    assert(bb.subrange(tt[k].offset as int, tt[k].offset + d.len()) =~= old_buf.subrange(
                        tt[k].offset as int,
                        tt[k].offset + d.len(),
                    ));
                    assert(bb.subrange(tt[k].offset + d.len(), region_end(tt[k])) =~= old_buf.subrange(
                        tt[k].offset + d.len(),
                        region_end(tt[k]),
                    ));
                } else {
                    assert(d == old_buf.subrange(old(self).position as int, old_buf.len() as int));
                    assert(bb.subrange(tt[k].offset as int, tt[k].offset + d.len()) =~= d);
                    assert(bb.subrange(tt[k].offset + d.len(), region_end(tt[k])) =~= zeros(
                        tt[k].length - d.len(),
                    ));
                }
            }
        }
        proof {
            let b = self.buf@;
            let tb = self.tables@;
            let n = tb.len() - 1;
            assert(b.subrange(0, 8) =~= old_buf.subrange(0, 8));
            assert(b.subrange(8, 24) =~= old_buf.subrange(8, 24));
            assert(b.subrange(end as int, end + 16) =~= self.section_marker@);
            assert(end % 8 == 0);
            assert forall|k: int| 0 <= k < tb.len() implies {
                &&& (#[trigger] tb[k]).offset == region_start(tb, k)
                &&& tb[k].offset >= 24
                &&& tb[k].length >= 0
                &&& region_end(tb[k]) % 8 == 0
                &&& region_end(tb[k]) + 16 <= self.position
                &&& b.subrange(region_end(tb[k]), region_end(tb[k]) + 16) == self.section_marker@
            } by {
                if k < n {
                    assert(tb[k] == old(self).tables@[k]);
                    assert(b.subrange(region_end(tb[k]), region_end(tb[k]) + 16) =~= old_buf.subrange(
                        region_end(tb[k]),
                        region_end(tb[k]) + 16,
                    ));
                }
            }
            assert forall|i: int, j: int|
                0 <= i < j < tb.len() && is_mandatory(#[trigger] tb[i].content_type) implies tb[i].content_type
                != (#[trigger] tb[j]).content_type by {
                if j == n && tb[i].content_type == tb[j].content_type {
                    assert(old(self).tables@[i] == tb[i]);
                    assert(listed(old(self).tables@, content_type_of(c)));
                }
            }
        }
        Ok(t)
    }

    /// The footer bytes that finishing this writer produces.
    pub open spec fn footer_spec(&self) -> Seq<u8> {
        footer_bytes(
            encode_utf8(self.file_identifier@),
            encode_utf8(software_name()),
            encode_utf8(pod5_version()),
            self.tables@,
        )
    }

    /// Whether the footer of this writer fits the format.
    pub open spec fn footer_fits(&self) -> bool {
        footer_len(
            encode_utf8(self.file_identifier@).len() as int,
            encode_utf8(software_name()).len() as int,
            encode_utf8(pod5_version()).len() as int,
            self.tables@.len() as int,
        ) <= MAX_FOOTER_LEN
    }

    /// The whole file that finishing this writer produces.
    pub open spec fn finished_spec(&self) -> Seq<u8> {
        let fb = self.footer_spec();
        self.buf@ + footer_magic() + fb + le64(fb.len() as u64) + self.section_marker@
            + file_signature()
    }

    /// Finishes the file: footer magic, footer, footer length, section marker
    /// and signature. Returns the bytes of the whole file.
    pub fn finish(self) -> (r: Result<Vec<u8>, WriteError>)
        requires
            self.wf(),
        ensures
            match r {
                Ok(b) => self.open is None && self.footer_fits() && b@ == self.finished_spec(),
                Err(e) => {
                    &&& (e == WriteError::TableStillOpen || e == WriteError::FileTooLarge)
                    &&& (e == WriteError::TableStillOpen <==> self.open is Some)
                    &&& (e == WriteError::FileTooLarge <==> (self.open is None
                        && !self.footer_fits()))
                },
            },
    {
        if self.open.is_some() {
            return Err(WriteError::TableStillOpen);
        }
        let builder = FooterBuilder::new(
            self.file_identifier.clone(),
            String::from_str("pod5-rs"),
            String::from_str("0.0.40"),
        );
        let fl = builder.file_identifier.as_str().as_bytes().len();
        let sl = builder.software.as_str().as_bytes().len();
        let vl = builder.version.as_str().as_bytes().len();
        let n = self.tables.len();
        if fl > MAX_FOOTER_LEN || sl > MAX_FOOTER_LEN || vl > MAX_FOOTER_LEN || n > MAX_FOOTER_LEN {
            return Err(WriteError::FileTooLarge);
        }
        let size = footer_size(fl, sl, vl, n);
        if size > MAX_FOOTER_LEN as u64 {
            return Err(WriteError::FileTooLarge);
        }
        let mut out = self.buf;
        builder.write_footer(self.tables.as_slice(), &mut out);
        let mut marker = self.section_marker;
        out.append(&mut marker);
        let mut sig = file_signature_bytes();
        out.append(&mut sig);
        Ok(out)
    }
}

/// State of a write guard: before its first batch no schema is fixed; after
/// it, every batch must carry the first batch's schema.
#[derive(Debug, Clone)]
pub enum GuardState {
    PreInit,
    PostInit(Vec<u8>),
}

/// A scope for writing one table. At most one table of each mandatory kind
/// can be opened per file; the guard's `finish` closes the table and records
/// its region.
#[derive(Debug)]
pub struct TableWriteGuard {
    pub content: TableContent,
    pub state: GuardState,
}

impl TableWriteGuard {
    /// Opens a table of kind `content` on `writer`.
    pub fn new(writer: &mut Writer, content: TableContent) -> (r: Result<TableWriteGuard, WriteError>)
        requires
            old(writer).wf(),
        ensures
            final(writer).wf(),
            match r {
                Ok(g) => {
                    &&& g.content == content
                    &&& g.state is PreInit
                    &&& old(writer).open is None
                    &&& !(is_mandatory(content_type_of(content)) && listed(
                        old(writer).tables@,
                        content_type_of(content),
                    ))
                    &&& *final(writer) == Writer { open: Some(content), ..*old(writer) }
                },
                Err(e) => {
                    &&& *final(writer) == *old(writer)
                    &&& (e == WriteError::TableAlreadyOpen || e == WriteError::ContentTypeAlreadyWritten(
                        content_type_of(content),
                    ))
                    &&& (e == WriteError::TableAlreadyOpen <==> old(writer).open is Some)
                    &&& (e == WriteError::ContentTypeAlreadyWritten(content_type_of(content)) <==> (
                    old(writer).open is None && is_mandatory(content_type_of(content)) && listed(
                        old(writer).tables@,
                        content_type_of(content),
                    )))
                },
            },
    {
        match writer.open_table(content) {
            Ok(()) => Ok(TableWriteGuard { content, state: GuardState::PreInit }),
            Err(e) => Err(e),
        }
    }

    /// Writes the bytes of one batch. The first batch fixes the schema; a
    /// later batch with another schema is refused and nothing is written.
    pub fn write_batch(&mut self, writer: &mut Writer, schema: &[u8], batch: &[u8]) -> (r: Result<
        (),
        WriteError,
    >)
        requires
            old(writer).wf(),
            old(writer).open == Some(old(self).content),
        ensures
            final(writer).wf(),
            final(writer).open == old(writer).open,
            final(self).content == old(self).content,
            match r {
                Ok(()) => {
                    &&& final(writer).buf@ == old(writer).buf@ + batch@
                    &&& final(writer).pending@ == old(writer).pending@.push(batch@)
                    &&& *final(writer) == Writer {
                        buf: final(writer).buf,
                        pending: final(writer).pending,
                        ..*old(writer)
                    }
                    &&& final(self).state matches GuardState::PostInit(s) && s@ == schema@
                    &&& old(self).state matches GuardState::PostInit(s) ==> s@ == schema@
                },
                Err(e) => {
                    &&& *final(writer) == *old(writer)
                    &&& final(self).state == old(self).state
                    &&& (e == WriteError::SchemaMismatch <==> (old(self).state matches GuardState::PostInit(
                        s,
                    ) && s@ != schema@))
                    &&& (e == WriteError::FileTooLarge <==> (!(old(self).state matches GuardState::PostInit(
                        s,
                    ) && s@ != schema@) && old(writer).buf@.len() + batch@.len() > MAX_FILE_LEN))
                    &&& (e == WriteError::SchemaMismatch || e == WriteError::FileTooLarge)
                },
            },
    {
        let pre_init = match &self.state {
            GuardState::PreInit => true,
            GuardState::PostInit(s) => {
                if !same_bytes(s.as_slice(), schema) {
                    return Err(WriteError::SchemaMismatch);
                }
                false
            },
        };
        match writer.write_table_bytes(batch) {
            Ok(()) => {},
            Err(e) => {
                assert(e == WriteError::FileTooLarge);
                return Err(e);
            },
        }
        if pre_init {
            self.state = GuardState::PostInit(vstd::slice::slice_to_vec(schema));
        }
        Ok(())
    }

    /// Closes the table: see `Writer::close_table`.
    pub fn finish(self, writer: &mut Writer) -> (r: Result<TableInfo, WriteError>)
        requires
            old(writer).wf(),
            old(writer).open == Some(self.content),
        ensures
            final(writer).wf(),
            match r {
                Ok(t) => {
                    let len = old(writer).buf@.len() as int;
                    &&& t.content_type == content_type_of(self.content)
                    &&& t.offset == old(writer).position
                    &&& t.length == len + pad_len(len) - old(writer).position
                    &&& final(writer).buf@ == old(writer).buf@ + Seq::new(
                        pad_len(len) as nat,
                        |i: int| 0u8,
                    ) + old(writer).section_marker@
                    &&& final(writer).tables@ == old(writer).tables@.push(t)
                    &&& final(writer).open is None
                },
                Err(e) => {
                    &&& *final(writer) == *old(writer)
                    &&& e == WriteError::FileTooLarge
                    &&& old(writer).buf@.len() + pad_len(old(writer).buf@.len() as int) + 16
                        > MAX_FILE_LEN
                },
            },
    {
        writer.close_table()
    }
}

/// Size of a footer with strings of the given lengths and `n` entries.
fn footer_size(fl: usize, sl: usize, vl: usize, n: usize) -> (r: u64)
    requires
        fl <= MAX_FOOTER_LEN,
        sl <= MAX_FOOTER_LEN,
        vl <= MAX_FOOTER_LEN,
        n <= MAX_FOOTER_LEN,
    ensures
        r == footer_len(fl as int, sl as int, vl as int, n as int),
{
    let pad: u64 = if n % 2 == 1 {
        4
    } else {
        0
    };
    let n64 = n as u64;
    let fb = string_block_size(fl) as u64;
    let sb = string_block_size(sl) as u64;
    let vb = string_block_size(vl) as u64;
    52 + 4 * n64 + pad + 24 * n64 + fb + sb + vb
}

proof fn lemma_regions_ordered(w: Writer, i: int, j: int)
    requires
        w.wf(),
        0 <= i < j < w.tables@.len(),
    ensures
        region_end(w.tables@[i]) + 16 <= w.tables@[j].offset,
    decreases j - i,
{
    let t = w.tables@;
    assert(t[j].offset == region_start(t, j));
    if i < j - 1 {
        lemma_regions_ordered(w, i, j - 1);
        assert(t[j - 1].length >= 0);
    }
}

/// In a finished file every section marker is the writer's: after the
/// leading signature, after each table region and before the trailing
/// signature.
pub proof fn lemma_section_markers(w: Writer)
    requires
        w.wf(),
    ensures
        ({
            let b = w.finished_spec();
            &&& b.subrange(8, 24) == w.section_marker@
            &&& b.subrange(b.len() - 24, b.len() - 8) == w.section_marker@
            &&& forall|i: int|
                0 <= i < w.tables@.len() ==> b.subrange(
                    region_end(#[trigger] w.tables@[i]),
                    region_end(w.tables@[i]) + 16,
                ) == w.section_marker@
            &&& markers_consistent(b, w.tables@)
        }),
{
    lemma_le_lengths();
    let b = w.finished_spec();
    let buf = w.buf@;
    assert(b.subrange(8, 24) =~= buf.subrange(8, 24));
    assert(b.subrange(b.len() - 24, b.len() - 8) =~= w.section_marker@);
    assert forall|i: int| 0 <= i < w.tables@.len() implies b.subrange(
        region_end(#[trigger] w.tables@[i]),
        region_end(w.tables@[i]) + 16,
    ) == w.section_marker@ by {
        let e = region_end(w.tables@[i]);
        assert(b.subrange(e, e + 16) =~= buf.subrange(e, e + 16));
    }
}

/// In a finished file every table region starts after the leading signature
/// and section marker, ends at a multiple of eight before the footer magic,
/// and regions follow one another without overlap.
pub proof fn lemma_regions(w: Writer)
    requires
        w.wf(),
    ensures
        ({
            let b = w.finished_spec();
            let fm = b.len() - (24 + 8 + 8 + w.footer_spec().len());
            &&& fm == w.buf@.len()
            &&& forall|i: int|
                0 <= i < w.tables@.len() ==> {
                    &&& 24 <= (#[trigger] w.tables@[i]).offset
                    &&& w.tables@[i].offset <= region_end(w.tables@[i])
                    &&& region_end(w.tables@[i]) < fm
                    &&& region_end(w.tables@[i]) % 8 == 0
                }
            &&& forall|i: int, j: int|
                0 <= i < j < w.tables@.len() ==> region_end(#[trigger] w.tables@[i]) <= (
                #[trigger] w.tables@[j]).offset
        }),
{
    lemma_le_lengths();
    assert forall|i: int, j: int| 0 <= i < j < w.tables@.len() implies region_end(
        #[trigger] w.tables@[i],
    ) <= (#[trigger] w.tables@[j]).offset by {
        lemma_regions_ordered(w, i, j);
    }
}

/// Reading back a finished file finds the footer that the writer wrote,
/// listing the writer's tables in order, and each table's region holds the
/// batches written to that table, in the order they were written, followed
/// by zero padding.
pub proof fn lemma_read_back(w: Writer)
    requires
        w.wf(),
        w.footer_fits(),
    ensures
        open_spec(w.finished_spec()) == Ok::<Seq<u8>, Pod5Error>(w.footer_spec()),
        parse_footer_spec(w.footer_spec()) == Ok::<FooterView, FooterError>(
            FooterView {
                file_identifier: encode_utf8(w.file_identifier@),
                software: encode_utf8(software_name()),
                pod5_version: encode_utf8(pod5_version()),
                contents: w.tables@,
            },
        ),
        forall|i: int|
            0 <= i < w.tables@.len() ==> {
                let t = #[trigger] w.tables@[i];
                let d = joined(w.batches@[i]);
                &&& w.finished_spec().subrange(t.offset as int, t.offset + d.len()) == d
                &&& w.finished_spec().subrange(t.offset + d.len(), region_end(t)) == zeros(
                    t.length - d.len(),
                )
            },
{
    lemma_le_lengths();
    let fb = w.footer_spec();
    let b = w.finished_spec();
    let buf = w.buf@;
    let len = b.len() as int;
    let flen = fb.len() as int;
    vstd::utf8::encode_utf8_valid_utf8(w.file_identifier@);
    vstd::utf8::encode_utf8_valid_utf8(software_name());
    vstd::utf8::encode_utf8_valid_utf8(pod5_version());
    lemma_footer_round_trip(
        encode_utf8(w.file_identifier@),
        encode_utf8(software_name()),
        encode_utf8(pod5_version()),
        w.tables@,
    );
    assert(flen <= MAX_FOOTER_LEN);
    assert(b.subrange(0, 8) =~= buf.subrange(0, 8));
    assert(b.subrange(len - 8, len) =~= file_signature());
    assert(b.subrange(len - 32, len - 24) =~= le64(flen as u64));
    assert(u64_at(b, len - 32) == flen as u64);
    assert((flen as u64) as i64 as int == flen);
    assert(b.subrange(len - 32 - flen, len - 32) =~= fb);
    assert(locate_footer_spec(b) == Ok::<Seq<u8>, Pod5Error>(fb));
    assert forall|i: int| 0 <= i < w.tables@.len() implies {
        let t = #[trigger] w.tables@[i];
        let d = joined(w.batches@[i]);
        &&& b.subrange(t.offset as int, t.offset + d.len()) == d
        &&& b.subrange(t.offset + d.len(), region_end(t)) == zeros(t.length - d.len())
    } by {
        let t = w.tables@[i];
        let d = joined(w.batches@[i]);
        assert(b.subrange(t.offset as int, t.offset + d.len()) =~= buf.subrange(
            t.offset as int,
            t.offset + d.len(),
        ));
        assert(b.subrange(t.offset + d.len(), region_end(t)) =~= buf.subrange(
            t.offset + d.len(),
            region_end(t),
        ));
    }
}

} // verus!
