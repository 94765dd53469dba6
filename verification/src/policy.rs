//! The record grammar of scan reports.
//!
//! A report line holds whitespace-delimited metadata fields, then the
//! separator `" -- "`, then an absolute path.  The path may itself contain
//! the separator text: the line splits at the first occurrence that leaves
//! the expected number of metadata fields before it, and everything after
//! that occurrence is the path.  The compact form carries a byte count and
//! a hard-link count; the extended form adds a mode string and carries both
//! byte accountings.

use vstd::prelude::*;

use crate::digits::{dec_of, parse_u32_spec, parse_u64_spec, parse_u32, parse_u64, u64_to_dec};
use crate::scan::{split_byte, split_byte_vec, SP};

verus! {

/// ASCII `/`.
pub const SLASH: u8 = 0x2f;

/// ASCII `-`.
pub const DASH: u8 = 0x2d;

/// A named metadata field of a report line.
#[derive(Clone, Copy, Debug, PartialEq, Eq, Structural)]
pub enum Field {
    Inode,
    Generation,
    Snapshot,
    Nlink,
    Size,
    FileSize,
    KbAllocated,
}

/// What can go wrong while reducing a report.
#[derive(Clone, Copy, Debug, PartialEq, Eq, Structural)]
pub enum UsageError {
    /// A line does not match the record grammar: missing separator, too few
    /// fields, or a path that is not absolute.
    MalformedRecord,
    /// A metadata field failed numeric parsing; the field is named.
    FieldParseError(Field),
    /// A record was routed into a leaf during tree construction: the same
    /// path was reported both as a file and as a directory.
    InsertIntoLeaf,
}

/// Whether the structural separator `" -- "` stands at position `i`.
pub open spec fn sep_at(s: Seq<u8>, i: int) -> bool {
    &&& 0 <= i
    &&& i + 4 <= s.len()
    &&& s[i] == SP
    &&& s[i + 1] == DASH
    &&& s[i + 2] == DASH
    &&& s[i + 3] == SP
}

/// The first position at or after `i` where the separator stands.
pub open spec fn find_sep_from(s: Seq<u8>, i: int) -> Option<int>
    decreases s.len() - i,
{
    if i < 0 || i + 4 > s.len() {
        None
    } else if sep_at(s, i) {
        Some(i)
    } else {
        find_sep_from(s, i + 1)
    }
}

pub proof fn lemma_find_sep_from(s: Seq<u8>, i: int)
    requires
        0 <= i,
    ensures
        match find_sep_from(s, i) {
            Some(j) => i <= j && sep_at(s, j) && (forall|k: int| i <= k < j ==> !sep_at(s, k)),
            None => forall|k: int| i <= k ==> !sep_at(s, k),
        },
    decreases s.len() - i,
{
    if i + 4 <= s.len() && !sep_at(s, i) {
        lemma_find_sep_from(s, i + 1);
    }
}

/// Scanning from the start finds the first separator.
pub proof fn lemma_find_sep_is(s: Seq<u8>, j: int)
    requires
        sep_at(s, j),
        forall|k: int| 0 <= k < j ==> !sep_at(s, k),
    ensures
        find_sep_from(s, 0) == Some(j),
{
    lemma_find_sep_from(s, 0);
    if find_sep_from(s, 0) is None {
        assert(!sep_at(s, j));
    }
}

/// The first separator at or after `i` with at least `want` metadata fields
/// before it; field count disambiguates when the path itself holds the
/// separator text.
pub open spec fn find_meta_sep(line: Seq<u8>, i: int, want: int) -> Option<int>
    decreases line.len() - i,
{
    match find_sep_from(line, i) {
        None => None,
        Some(j) => if j < i || j + 4 > line.len() {
            None
        } else if split_byte(line.take(j), SP).len() >= want {
            Some(j)
        } else {
            find_meta_sep(line, j + 1, want)
        },
    }
}

/// Finds the separator of a line that leaves `want` metadata fields.
pub fn find_sep(line: &[u8], want: usize) -> (r: Option<usize>)
    ensures
        find_meta_sep(line@, 0, want as int) == (match r {
            Some(j) => Some(j as int),
            None => None::<int>,
        }),
{
    let n = line.len();
    let mut from: usize = 0;
    proof {
        assert(find_meta_sep(line@, 0, want as int) == find_meta_sep(line@, 0, want as int));
    }
    loop
        invariant
            0 <= from <= n,
            n == line@.len(),
            find_meta_sep(line@, 0, want as int) == find_meta_sep(line@, from as int, want as int),
        decreases n - from,
    {
        let j = match find_sep_at(line, from) {
            Some(j) => j,
            None => {
                return None;
            },
        };
        proof {
            lemma_find_sep_from(line@, from as int);
        }
        let meta = vstd::slice::slice_subrange(line, 0, j);
        let pieces = crate::scan::split_byte_vec(meta, SP);
        proof {
            assert(meta@ =~= line@.take(j as int));
            assert(pieces.deep_view().len() == pieces@.len());
        }
        if pieces.len() >= want {
            return Some(j);
        }
        from = j + 1;
    }
}

/// Finds the first separator at or after `from`.
fn find_sep_at(line: &[u8], from: usize) -> (r: Option<usize>)
    requires
        from <= line@.len(),
    ensures
        find_sep_from(line@, from as int) == (match r {
            Some(j) => Some(j as int),
            None => None::<int>,
        }),
        r matches Some(j) ==> from <= j && j + 4 <= line@.len(),
{
    let n = line.len();
    if n < 4 || from > n - 4 {
        return None;
    }
    let mut i: usize = from;
    while i <= n - 4
        invariant
            from <= i <= n - 3,
            n == line@.len(),
            4 <= n,
            find_sep_from(line@, from as int) == find_sep_from(line@, i as int),
        decreases n - i,
    {
        if line[i] == SP && line[i + 1] == DASH && line[i + 2] == DASH && line[i + 3] == SP {
            return Some(i);
        }
        i = i + 1;
    }
    None
}

pub proof fn lemma_find_meta_sep(line: Seq<u8>, i: int, want: int)
    requires
        0 <= i,
    ensures
        match find_meta_sep(line, i, want) {
            Some(j) => i <= j && sep_at(line, j) && split_byte(line.take(j), SP).len() >= want,
            None => true,
        },
    decreases line.len() - i,
{
    lemma_find_sep_from(line, i);
    match find_sep_from(line, i) {
        None => {},
        Some(j) => {
            if split_byte(line.take(j), SP).len() < want {
                lemma_find_meta_sep(line, j + 1, want);
            }
        },
    }
}

/// The mathematical content of a compact record.
pub ghost struct EntryV {
    pub inode: u64,
    pub generation: u64,
    pub snapshot: u64,
    pub bytes: u64,
    pub nlink: u32,
    pub path: Seq<u8>,
}

/// A parsed compact record: inode number, generation, snapshot id, byte
/// count, hard-link count, and the absolute path.
#[derive(Clone, Debug, PartialEq, Eq)]
pub struct Entry {
    pub inode: u64,
    pub generation: u64,
    pub snapshot: u64,
    pub bytes: u64,
    pub nlink: u32,
    pub path: Vec<u8>,
}

impl View for Entry {
    type V = EntryV;

    open spec fn view(&self) -> EntryV {
        EntryV {
            inode: self.inode,
            generation: self.generation,
            snapshot: self.snapshot,
            bytes: self.bytes,
            nlink: self.nlink,
            path: self.path@,
        }
    }
}

impl DeepView for Entry {
    type V = EntryV;

    open spec fn deep_view(&self) -> EntryV {
        self.view()
    }
}

/// What parsing one compact report line yields.
pub open spec fn parse_entry_spec(line: Seq<u8>) -> Result<EntryV, UsageError> {
    match find_meta_sep(line, 0, 6) {
        None => Err(UsageError::MalformedRecord),
        Some(sep) => {
            let path = line.skip(sep + 4);
            let pieces = split_byte(line.take(sep), SP);
            if pieces.len() < 6 {
                Err(UsageError::MalformedRecord)
            } else if path.len() == 0 || path[0] != SLASH {
                Err(UsageError::MalformedRecord)
            } else {
                match parse_u64_spec(pieces[0]) {
                    None => Err(UsageError::FieldParseError(Field::Inode)),
                    Some(inode) => match parse_u64_spec(pieces[1]) {
                        None => Err(UsageError::FieldParseError(Field::Generation)),
                        Some(generation) => match parse_u64_spec(pieces[2]) {
                            None => Err(UsageError::FieldParseError(Field::Snapshot)),
                            Some(snapshot) => match parse_u64_spec(pieces[4]) {
                                None => Err(UsageError::FieldParseError(Field::Size)),
                                Some(bytes) => match parse_u32_spec(pieces[5]) {
                                    None => Err(UsageError::FieldParseError(Field::Nlink)),
                                    Some(nlink) => Ok(
                                        EntryV { inode, generation, snapshot, bytes, nlink, path },
                                    ),
                                },
                            },
                        },
                    },
                }
            }
        },
    }
}

/// The view of a parse result.
pub open spec fn entry_result_view(r: Result<Entry, UsageError>) -> Result<EntryV, UsageError> {
    match r {
        Ok(e) => Ok(e@),
        Err(x) => Err(x),
    }
}

/// The canonical line of a compact record.
pub open spec fn render_entry(e: EntryV) -> Seq<u8> {
    dec_of(e.inode as nat) + seq![SP] + dec_of(e.generation as nat) + seq![SP] + dec_of(
        e.snapshot as nat,
    ) + seq![SP, SP] + dec_of(e.bytes as nat) + seq![SP] + dec_of(e.nlink as nat) + seq![
        SP,
        DASH,
        DASH,
        SP,
    ] + e.path
}

impl Entry {
    /// Parses one compact report line.
    pub fn parse(line: &[u8]) -> (r: Result<Entry, UsageError>)
        ensures
            entry_result_view(r) == parse_entry_spec(line@),
    {
        let n = line.len();
        let sep = match find_sep(line, 6) {
            Some(i) => i,
            None => {
                return Err(UsageError::MalformedRecord);
            },
        };
        proof {
            lemma_find_meta_sep(line@, 0, 6);
        }
        let meta = vstd::slice::slice_subrange(line, 0, sep);
        let path_slice = vstd::slice::slice_subrange(line, sep + 4, n);
        proof {
            assert(meta@ =~= line@.take(sep as int));
            assert(path_slice@ =~= line@.skip(sep as int + 4));
        }
        let pieces = split_byte_vec(meta, SP);
        if pieces.len() < 6 {
            return Err(UsageError::MalformedRecord);
        }
        if path_slice.len() == 0 || path_slice[0] != SLASH {
            return Err(UsageError::MalformedRecord);
        }
        proof {
            assert(pieces[0]@ == pieces.deep_view()[0]);
            assert(pieces[1]@ == pieces.deep_view()[1]);
            assert(pieces[2]@ == pieces.deep_view()[2]);
            assert(pieces[4]@ == pieces.deep_view()[4]);
            assert(pieces[5]@ == pieces.deep_view()[5]);
        }
        let inode = match parse_u64(pieces[0].as_slice()) {
            Some(v) => v,
            None => {
                return Err(UsageError::FieldParseError(Field::Inode));
            },
        };
        let generation = match parse_u64(pieces[1].as_slice()) {
            Some(v) => v,
            None => {
                return Err(UsageError::FieldParseError(Field::Generation));
            },
        };
        let snapshot = match parse_u64(pieces[2].as_slice()) {
            Some(v) => v,
            None => {
                return Err(UsageError::FieldParseError(Field::Snapshot));
            },
        };
        let bytes = match parse_u64(pieces[4].as_slice()) {
            Some(v) => v,
            None => {
                return Err(UsageError::FieldParseError(Field::Size));
            },
        };
        let nlink = match parse_u32(pieces[5].as_slice()) {
            Some(v) => v,
            None => {
                return Err(UsageError::FieldParseError(Field::Nlink));
            },
        };
        let path = vstd::slice::slice_to_vec(path_slice);
        Ok(Entry { inode, generation, snapshot, bytes, nlink, path })
    }

    /// The byte count the record carries.
    pub fn bytes(&self) -> (r: u64)
        ensures
            r == self@.bytes,
    {
        self.bytes
    }

    /// The inode number as a decimal numeral.
    pub fn inode_str(&self) -> (r: Vec<u8>)
        ensures
            r@ == dec_of(self@.inode as nat),
    {
        u64_to_dec(self.inode)
    }

    /// The byte count as a decimal numeral.
    pub fn bytes_str(&self) -> (r: Vec<u8>)
        ensures
            r@ == dec_of(self@.bytes as nat),
    {
        u64_to_dec(self.bytes)
    }

    /// The hard-link count as a decimal numeral.
    pub fn nlink_str(&self) -> (r: Vec<u8>)
        ensures
            r@ == dec_of(self@.nlink as nat),
    {
        u64_to_dec(self.nlink as u64)
    }

    /// The absolute path of the object.
    pub fn path(&self) -> (r: &Vec<u8>)
        ensures
            r@ == self@.path,
    {
        &self.path
    }

    /// Renders the record back as a canonical report line.
    pub fn to_line(&self) -> (r: Vec<u8>)
        ensures
            r@ == render_entry(self@),
    {
        let mut out = u64_to_dec(self.inode);
        out.push(SP);
        let mut part = u64_to_dec(self.generation);
        out.append(&mut part);
        out.push(SP);
        let mut part = u64_to_dec(self.snapshot);
        out.append(&mut part);
        out.push(SP);
        out.push(SP);
        let mut part = u64_to_dec(self.bytes);
        out.append(&mut part);
        out.push(SP);
        let mut part = u64_to_dec(self.nlink as u64);
        out.append(&mut part);
        out.push(SP);
        out.push(DASH);
        out.push(DASH);
        out.push(SP);
        let mut part = vstd::slice::slice_to_vec(self.path.as_slice());
        out.append(&mut part);
        proof {
            assert(out@ =~= render_entry(self@));
        }
        out
    }
}

/// The mathematical content of an extended record.
pub ghost struct NcduEntryV {
    pub inode: u64,
    pub generation: u64,
    pub snapshot: u64,
    pub mode: Seq<u8>,
    pub nlink: u32,
    pub file_size: u64,
    pub kb_allocated: u64,
    pub path: Seq<u8>,
}

/// A parsed extended record, for tree mode: adds the mode string, and both
/// the apparent size and the allocated size.
#[derive(Clone, Debug, PartialEq, Eq)]
pub struct NcduEntry {
    pub inode: u64,
    pub generation: u64,
    pub snapshot: u64,
    pub mode: Vec<u8>,
    pub nlink: u32,
    pub file_size: u64,
    pub kb_allocated: u64,
    pub path: Vec<u8>,
}

impl View for NcduEntry {
    type V = NcduEntryV;

    open spec fn view(&self) -> NcduEntryV {
        NcduEntryV {
            inode: self.inode,
            generation: self.generation,
            snapshot: self.snapshot,
            mode: self.mode@,
            nlink: self.nlink,
            file_size: self.file_size,
            kb_allocated: self.kb_allocated,
            path: self.path@,
        }
    }
}

impl DeepView for NcduEntry {
    type V = NcduEntryV;

    open spec fn deep_view(&self) -> NcduEntryV {
        self.view()
    }
}

/// Whether a mode string marks a directory.
pub open spec fn is_dir_mode(mode: Seq<u8>) -> bool {
    mode.len() > 0 && mode[0] == 0x64
}

/// What parsing one extended report line yields.
pub open spec fn parse_ncdu_spec(line: Seq<u8>) -> Result<NcduEntryV, UsageError> {
    match find_meta_sep(line, 0, 8) {
        None => Err(UsageError::MalformedRecord),
        Some(sep) => {
            let path = line.skip(sep + 4);
            let pieces = split_byte(line.take(sep), SP);
            if pieces.len() < 8 {
                Err(UsageError::MalformedRecord)
            } else if path.len() == 0 || path[0] != SLASH {
                Err(UsageError::MalformedRecord)
            } else {
                match parse_u64_spec(pieces[0]) {
                    None => Err(UsageError::FieldParseError(Field::Inode)),
                    Some(inode) => match parse_u64_spec(pieces[1]) {
                        None => Err(UsageError::FieldParseError(Field::Generation)),
                        Some(generation) => match parse_u64_spec(pieces[2]) {
                            None => Err(UsageError::FieldParseError(Field::Snapshot)),
                            Some(snapshot) => match parse_u32_spec(pieces[5]) {
                                None => Err(UsageError::FieldParseError(Field::Nlink)),
                                Some(nlink) => match parse_u64_spec(pieces[6]) {
                                    None => Err(UsageError::FieldParseError(Field::FileSize)),
                                    Some(file_size) => match parse_u64_spec(pieces[7]) {
                                        None => Err(
                                            UsageError::FieldParseError(Field::KbAllocated),
                                        ),
                                        Some(kb_allocated) => Ok(
                                            NcduEntryV {
                                                inode,
                                                generation,
                                                snapshot,
                                                mode: pieces[4],
                                                nlink,
                                                file_size,
                                                kb_allocated,
                                                path,
                                            },
                                        ),
                                    },
                                },
                            },
                        },
                    },
                }
            }
        },
    }
}

/// The view of an extended parse result.
pub open spec fn ncdu_result_view(r: Result<NcduEntry, UsageError>) -> Result<
    NcduEntryV,
    UsageError,
> {
    match r {
        Ok(e) => Ok(e@),
        Err(x) => Err(x),
    }
}

/// The canonical line of an extended record.
pub open spec fn render_ncdu(e: NcduEntryV) -> Seq<u8> {
    dec_of(e.inode as nat) + seq![SP] + dec_of(e.generation as nat) + seq![SP] + dec_of(
        e.snapshot as nat,
    ) + seq![SP, SP] + e.mode + seq![SP] + dec_of(e.nlink as nat) + seq![SP] + dec_of(
        e.file_size as nat,
    ) + seq![SP] + dec_of(e.kb_allocated as nat) + seq![SP, DASH, DASH, SP] + e.path
}

impl NcduEntry {
    /// Parses one extended report line.
    pub fn parse(line: &[u8]) -> (r: Result<NcduEntry, UsageError>)
        ensures
            ncdu_result_view(r) == parse_ncdu_spec(line@),
    {
        let n = line.len();
        let sep = match find_sep(line, 8) {
            Some(i) => i,
            None => {
                return Err(UsageError::MalformedRecord);
            },
        };
        proof {
            lemma_find_meta_sep(line@, 0, 8);
        }
        let meta = vstd::slice::slice_subrange(line, 0, sep);
        let path_slice = vstd::slice::slice_subrange(line, sep + 4, n);
        proof {
            assert(meta@ =~= line@.take(sep as int));
            assert(path_slice@ =~= line@.skip(sep as int + 4));
        }
        let pieces = split_byte_vec(meta, SP);
        if pieces.len() < 8 {
            return Err(UsageError::MalformedRecord);
        }
        if path_slice.len() == 0 || path_slice[0] != SLASH {
            return Err(UsageError::MalformedRecord);
        }
        proof {
            assert(pieces[0]@ == pieces.deep_view()[0]);
            assert(pieces[1]@ == pieces.deep_view()[1]);
            assert(pieces[2]@ == pieces.deep_view()[2]);
            assert(pieces[4]@ == pieces.deep_view()[4]);
            assert(pieces[5]@ == pieces.deep_view()[5]);
            assert(pieces[6]@ == pieces.deep_view()[6]);
            assert(pieces[7]@ == pieces.deep_view()[7]);
        }
        let inode = match parse_u64(pieces[0].as_slice()) {
            Some(v) => v,
            None => {
                return Err(UsageError::FieldParseError(Field::Inode));
            },
        };
        let generation = match parse_u64(pieces[1].as_slice()) {
            Some(v) => v,
            None => {
                return Err(UsageError::FieldParseError(Field::Generation));
            },
        };
        let snapshot = match parse_u64(pieces[2].as_slice()) {
            Some(v) => v,
            None => {
                return Err(UsageError::FieldParseError(Field::Snapshot));
            },
        };
        let nlink = match parse_u32(pieces[5].as_slice()) {
            Some(v) => v,
            None => {
                return Err(UsageError::FieldParseError(Field::Nlink));
            },
        };
        let file_size = match parse_u64(pieces[6].as_slice()) {
            Some(v) => v,
            None => {
                return Err(UsageError::FieldParseError(Field::FileSize));
            },
        };
        let kb_allocated = match parse_u64(pieces[7].as_slice()) {
            Some(v) => v,
            None => {
                return Err(UsageError::FieldParseError(Field::KbAllocated));
            },
        };
        let mode = vstd::slice::slice_to_vec(pieces[4].as_slice());
        let path = vstd::slice::slice_to_vec(path_slice);
        Ok(NcduEntry { inode, generation, snapshot, mode, nlink, file_size, kb_allocated, path })
    }

    /// Whether the record describes a directory.
    pub fn dir_mode(&self) -> (r: bool)
        ensures
            r == is_dir_mode(self@.mode),
    {
        self.mode.len() > 0 && self.mode[0] == 0x64
    }

    /// Renders the record back as a canonical report line.
    pub fn to_line(&self) -> (r: Vec<u8>)
        ensures
            r@ == render_ncdu(self@),
    {
        let mut out = u64_to_dec(self.inode);
        out.push(SP);
        let mut part = u64_to_dec(self.generation);
        out.append(&mut part);
        out.push(SP);
        let mut part = u64_to_dec(self.snapshot);
        out.append(&mut part);
        out.push(SP);
        out.push(SP);
        let mut part = vstd::slice::slice_to_vec(self.mode.as_slice());
        out.append(&mut part);
        out.push(SP);
        let mut part = u64_to_dec(self.nlink as u64);
        out.append(&mut part);
        out.push(SP);
        let mut part = u64_to_dec(self.file_size);
        out.append(&mut part);
        out.push(SP);
        let mut part = u64_to_dec(self.kb_allocated);
        out.append(&mut part);
        out.push(SP);
        out.push(DASH);
        out.push(DASH);
        out.push(SP);
        let mut part = vstd::slice::slice_to_vec(self.path.as_slice());
        out.append(&mut part);
        proof {
            assert(out@ =~= render_ncdu(self@));
        }
        out
    }
}

} // verus!
