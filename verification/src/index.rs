//! A loaded index: opening the tables and asking them.

use crate::codec::{to_position, u32_at, u32_in, u64_at, u64_in};
use crate::keys::bytes_equal;
use crate::tables::{
    COUNT_OFFSET, ENTRY_LEN, FILES_HEADER, HEADER_LEN, LOOKUP_HEADER, META_HEADER,
    POSTINGS_DATA_OFFSET, POSTINGS_HEADER,
};
use vstd::prelude::*;
use vstd::slice::slice_subrange;

verus! {

/// `"RGXLOOK1"`, the previous lookup magic. Such an index is to be rebuilt;
/// [`Index::open`] rejects it as bad magic.
pub const STALE_LOOKUP_HEADER: [u8; 8] = [82, 71, 88, 76, 79, 79, 75, 49];

/// `data` starts with `magic`.
pub open spec fn has_magic(data: Seq<u8>, magic: Seq<u8>) -> bool {
    data.len() >= 8 && data.take(8) == magic
}

/// Whether `data` starts with the eight bytes of `magic`.
fn starts_with_magic(data: &[u8], magic: &[u8; 8]) -> (yes: bool)
    ensures
        yes == has_magic(data@, magic@),
{
    if data.len() < 8 {
        return false;
    }
    let head = slice_subrange(data, 0, 8);
    assert(data@.subrange(0, 8) =~= data@.take(8));
    bytes_equal(head, magic.as_slice())
}

/// True when the lookup table has the current magic (`RGXLOOK2`).
pub fn index_format_current(lookup: &[u8]) -> (current: bool)
    ensures
        current == has_magic(lookup@, LOOKUP_HEADER@),
{
    starts_with_magic(lookup, &LOOKUP_HEADER)
}

/// True when the lookup table is of a known previous format (`RGXLOOK1`).
///
/// Garbage or truncated tables are **not** stale: the caller must fail closed
/// rather than rebuild over a corrupt index.
pub fn index_format_stale(lookup: &[u8]) -> (stale: bool)
    ensures
        stale == has_magic(lookup@, STALE_LOOKUP_HEADER@),
{
    starts_with_magic(lookup, &STALE_LOOKUP_HEADER)
}

/// Why tables do not make an index.
#[derive(Copy, Clone, PartialEq, Eq, Structural, Debug)]
pub enum IndexError {
    /// A table is shorter than its header or starts with another magic.
    BadMagic,
    /// A number is cut off.
    Truncated,
    /// The lookup table is shorter than its count says.
    LookupTruncated,
    /// The sizes in the postings table do not fit 64 bits.
    Overflow,
    /// The postings table is shorter than its counts say.
    PostingsTruncated,
    /// The lookup table points outside the posting lists.
    OffsetOutOfRange,
    /// A path is longer than any table can be.
    PathLengthOverflow,
    /// The files table ends before its last path.
    FilesTruncated,
    /// The meta table ends before its last record.
    MetaTruncated,
}

/// The words for an error.
pub open spec fn error_message(error: IndexError) -> Seq<char> {
    match error {
        IndexError::BadMagic => "bad magic"@,
        IndexError::Truncated => "truncated index file"@,
        IndexError::LookupTruncated => "lookup table truncated"@,
        IndexError::Overflow => "overflow"@,
        IndexError::PostingsTruncated => "posting list truncated"@,
        IndexError::OffsetOutOfRange => "posting list offset out of range"@,
        IndexError::PathLengthOverflow => "path length overflow"@,
        IndexError::FilesTruncated => "file table truncated"@,
        IndexError::MetaTruncated => "meta table truncated"@,
    }
}

impl IndexError {
    /// The error in words.
    pub fn message(&self) -> (message: &'static str)
        ensures
            message@ == error_message(*self),
    {
        match self {
            IndexError::BadMagic => "bad magic",
            IndexError::Truncated => "truncated index file",
            IndexError::LookupTruncated => "lookup table truncated",
            IndexError::Overflow => "overflow",
            IndexError::PostingsTruncated => "posting list truncated",
            IndexError::OffsetOutOfRange => "posting list offset out of range",
            IndexError::PathLengthOverflow => "path length overflow",
            IndexError::FilesTruncated => "file table truncated",
            IndexError::MetaTruncated => "meta table truncated",
        }
    }
}

/// What an [`Index`] holds: its tables, and where the records of the last two
/// start.
#[verifier::ext_equal]
pub ghost struct IndexView {
    pub lookup: Seq<u8>,
    pub postings: Seq<u8>,
    pub files: Seq<u8>,
    pub meta: Seq<u8>,
    pub file_offsets: Seq<u32>,
    pub meta_offsets: Seq<u32>,
}

/// A table has a full header with this magic.
pub open spec fn is_header(data: Seq<u8>, magic: Seq<u8>) -> bool {
    data.len() >= HEADER_LEN && has_magic(data, magic)
}

/// The count in a table's header.
pub open spec fn table_count(data: Seq<u8>) -> u64 {
    u64_in(data, COUNT_OFFSET as int)
}

/// The key of lookup entry `k`.
pub open spec fn lookup_key(lookup: Seq<u8>, k: int) -> u64 {
    u64_in(lookup, HEADER_LEN + k * ENTRY_LEN)
}

/// The offset of lookup entry `k`.
pub open spec fn lookup_value(lookup: Seq<u8>, k: int) -> u64 {
    u64_in(lookup, HEADER_LEN + k * ENTRY_LEN + 8)
}

/// Where the `left` records of a table start whose first one is at `at`. A
/// record is a `u64` length, so many path bytes, and `extra` bytes more.
pub open spec fn record_offsets(
    data: Seq<u8>,
    at: int,
    left: int,
    extra: int,
    truncated: IndexError,
) -> Result<Seq<u32>, IndexError>
    decreases left,
{
    if left <= 0 {
        Ok(Seq::empty())
    } else if at + 8 > data.len() {
        Err(IndexError::Truncated)
    } else {
        let next = at + 8 + extra + u64_in(data, at);
        if next > usize::MAX {
            Err(IndexError::PathLengthOverflow)
        } else if next > data.len() {
            Err(truncated)
        } else {
            match record_offsets(data, next, left - 1, extra, truncated) {
                Ok(rest) => Ok(seq![at as u32] + rest),
                Err(e) => Err(e),
            }
        }
    }
}

/// What opening four tables gives.
pub open spec fn open_tables(
    lookup: Seq<u8>,
    postings: Seq<u8>,
    files: Seq<u8>,
    meta: Seq<u8>,
) -> Result<IndexView, IndexError> {
    let keys = table_count(lookup);
    if !is_header(lookup, LOOKUP_HEADER@) || !is_header(postings, POSTINGS_HEADER@) || !is_header(
        files,
        FILES_HEADER@,
    ) || !is_header(meta, META_HEADER@) {
        Err(IndexError::BadMagic)
    } else if lookup.len() < HEADER_LEN + keys * ENTRY_LEN {
        Err(IndexError::LookupTruncated)
    } else if postings.len() < POSTINGS_DATA_OFFSET {
        Err(IndexError::Truncated)
    } else {
        let needed = POSTINGS_DATA_OFFSET + 4 * table_count(postings) + 4 * u64_in(postings, 16);
        if needed > u64::MAX {
            Err(IndexError::Overflow)
        } else if postings.len() < needed {
            Err(IndexError::PostingsTruncated)
        } else if keys > 0 && (lookup_value(lookup, 0) < POSTINGS_DATA_OFFSET || lookup_value(
            lookup,
            keys - 1,
        ) >= postings.len()) {
            Err(IndexError::OffsetOutOfRange)
        } else {
            match record_offsets(
                files,
                HEADER_LEN as int,
                table_count(files) as int,
                0,
                IndexError::FilesTruncated,
            ) {
                Err(e) => Err(e),
                Ok(file_offsets) => match record_offsets(
                    meta,
                    HEADER_LEN as int,
                    table_count(meta) as int,
                    16,
                    IndexError::MetaTruncated,
                ) {
                    Err(e) => Err(e),
                    Ok(meta_offsets) => Ok(
                        IndexView { lookup, postings, files, meta, file_offsets, meta_offsets },
                    ),
                },
            }
        }
    }
}

/// The stored path of file `id`.
pub open spec fn path_of(index: IndexView, id: int) -> Option<Seq<u8>> {
    if id >= index.file_offsets.len() {
        None
    } else {
        let at = index.file_offsets[id] as int;
        if at + 8 > index.files.len() || at + 8 + u64_in(index.files, at) > index.files.len() {
            None
        } else {
            Some(index.files.subrange(at + 8, at + 8 + u64_in(index.files, at)))
        }
    }
}

/// The stored modification time and size of file `id`.
pub open spec fn meta_of(index: IndexView, id: int) -> Option<(u64, u64)> {
    if id >= index.meta_offsets.len() {
        None
    } else {
        let at = index.meta_offsets[id] as int;
        if at + 8 > index.meta.len() {
            None
        } else {
            let after = at + 8 + u64_in(index.meta, at);
            if after + 16 > index.meta.len() {
                None
            } else {
                Some((u64_in(index.meta, after), u64_in(index.meta, after + 8)))
            }
        }
    }
}

/// Where a binary search for `key` among the entries `lo..hi` ends: at the
/// first entry that is not less, if they are sorted.
pub open spec fn search_position(lookup: Seq<u8>, key: u64, lo: int, hi: int) -> int
    decreases hi - lo,
{
    if lo >= hi {
        lo
    } else {
        let mid = (lo + hi) / 2;
        if lookup_key(lookup, mid) < key {
            search_position(lookup, key, mid + 1, hi)
        } else {
            search_position(lookup, key, lo, mid)
        }
    }
}

/// The offset that the lookup table gives for `key`.
pub open spec fn offset_of(lookup: Seq<u8>, key: u64) -> Option<u64> {
    let count = table_count(lookup) as int;
    let k = search_position(lookup, key, 0, count);
    if k < count && lookup_key(lookup, k) == key {
        Some(lookup_value(lookup, k))
    } else {
        None
    }
}

/// The posting list at `at`; empty where the table does not hold all of it.
pub open spec fn list_at(postings: Seq<u8>, at: int) -> Seq<u32> {
    if at + 4 > postings.len() {
        Seq::empty()
    } else {
        let count = u32_in(postings, at);
        if at + 4 + 4 * count > postings.len() {
            Seq::empty()
        } else {
            Seq::new(count as nat, |i: int| u32_in(postings, at + 4 + 4 * i))
        }
    }
}

/// The ids of the files that the index lists under `key`.
pub open spec fn postings_of(index: IndexView, key: u64) -> Seq<u32> {
    match offset_of(index.lookup, key) {
        None => Seq::empty(),
        Some(at) => list_at(index.postings, at as int),
    }
}

/// A loaded index. It borrows the bytes of its tables.
pub struct Index<'a> {
    lookup: &'a [u8],
    postings: &'a [u8],
    files: &'a [u8],
    file_offsets: Vec<u32>,
    meta: &'a [u8],
    meta_offsets: Vec<u32>,
}

impl<'a> View for Index<'a> {
    type V = IndexView;

    closed spec fn view(&self) -> IndexView {
        IndexView {
            lookup: self.lookup@,
            postings: self.postings@,
            files: self.files@,
            meta: self.meta@,
            file_offsets: self.file_offsets@,
            meta_offsets: self.meta_offsets@,
        }
    }
}

fn check_header(data: &[u8], magic: &[u8; 8]) -> (ok: bool)
    ensures
        ok == is_header(data@, magic@),
{
    data.len() >= HEADER_LEN && starts_with_magic(data, magic)
}

/// Finds where the records of a table start.
fn read_offsets(data: &[u8], extra: usize, truncated: IndexError) -> (offsets: Result<
    Vec<u32>,
    IndexError,
>)
    requires
        data@.len() >= HEADER_LEN,
        extra <= 16,
    ensures
        match offsets {
            Ok(out) => record_offsets(
                data@,
                HEADER_LEN as int,
                table_count(data@) as int,
                extra as int,
                truncated,
            ) == Ok::<Seq<u32>, IndexError>(out@),
            Err(e) => record_offsets(
                data@,
                HEADER_LEN as int,
                table_count(data@) as int,
                extra as int,
                truncated,
            ) == Err::<Seq<u32>, IndexError>(e),
        },
{
    let count: u64 = match u64_at(data, COUNT_OFFSET) {
        Some(n) => n,
        None => {
            return Err(IndexError::Truncated);
        },
    };
    let ghost goal = record_offsets(
        data@,
        HEADER_LEN as int,
        count as int,
        extra as int,
        truncated,
    );
    let len: usize = data.len();
    let mut out: Vec<u32> = Vec::new();
    let mut p: usize = HEADER_LEN;
    let mut done: u64 = 0;
    assert(match goal {
        Ok(all) => Seq::<u32>::empty() + all =~= all,
        Err(_) => true,
    });
    while done < count
        invariant
            done <= count,
            count == table_count(data@),
            goal == record_offsets(
                data@,
                HEADER_LEN as int,
                count as int,
                extra as int,
                truncated,
            ),
            p <= data@.len(),
            len == data@.len(),
            extra <= 16,
            match record_offsets(data@, p as int, count - done, extra as int, truncated) {
                Ok(rest) => goal == Ok::<Seq<u32>, IndexError>(out@ + rest),
                Err(e) => goal == Err::<Seq<u32>, IndexError>(e),
            },
        decreases count - done,
    {
        let ghost before = out@;
        #[verifier::truncate]
        let short: u32 = p as u32;
        out.push(short);
        let plen: u64 = match u64_at(data, p) {
            Some(n) => n,
            None => {
                return Err(IndexError::Truncated);
            },
        };
        let room: usize = usize::MAX - p - 8;
        if room < extra || plen > (room - extra) as u64 {
            return Err(IndexError::PathLengthOverflow);
        }
        let next: usize = p + 8 + extra + plen as usize;
        if next > len {
            return Err(truncated);
        }
        proof {
            match record_offsets(data@, next as int, count - done - 1, extra as int, truncated) {
                Ok(rest) => {
                    assert(before + (seq![p as u32] + rest) =~= out@ + rest);
                },
                Err(_) => {},
            }
        }
        p = next;
        done += 1;
    }
    assert(out@ + Seq::<u32>::empty() =~= out@);
    Ok(out)
}

/// Binary search the sorted lookup table for `key`.
fn lookup_offset(lookup: &[u8], key: u64) -> (offset: Option<u64>)
    requires
        lookup@.len() >= HEADER_LEN + table_count(lookup@) * ENTRY_LEN,
    ensures
        offset == offset_of(lookup@, key),
{
    let len: usize = lookup.len();
    let count: usize = match u64_at(lookup, COUNT_OFFSET) {
        Some(n) => n as usize,
        None => {
            return None;
        },
    };
    let mut lo: usize = 0;
    let mut hi: usize = count;
    while lo < hi
        invariant
            lo <= hi <= count,
            count == table_count(lookup@),
            len == lookup@.len(),
            lookup@.len() >= HEADER_LEN + count * ENTRY_LEN,
            search_position(lookup@, key, lo as int, hi as int) == search_position(
                lookup@,
                key,
                0,
                count as int,
            ),
        decreases hi - lo,
    {
        let mid: usize = (lo + hi) / 2;
        let h: u64 = match u64_at(lookup, HEADER_LEN + mid * ENTRY_LEN) {
            Some(h) => h,
            None => {
                return None;
            },
        };
        if h < key {
            lo = mid + 1;
        } else {
            hi = mid;
        }
    }
    if lo < count {
        let at: usize = HEADER_LEN + lo * ENTRY_LEN;
        if u64_at(lookup, at) == Some(key) {
            return u64_at(lookup, at + 8);
        }
    }
    None
}

impl<'a> Index<'a> {
    /// The lookup table holds all the entries that it counts, and the postings
    /// table its header.
    #[verifier::type_invariant]
    closed spec fn well_formed(self) -> bool {
        &&& self.lookup@.len() >= HEADER_LEN + table_count(self.lookup@) * ENTRY_LEN
        &&& self.postings@.len() >= POSTINGS_DATA_OFFSET
    }

    /// Load an index from its four tables.
    ///
    /// Validates the structural integrity of every table and returns an error
    /// if any of them is truncated or corrupted.
    pub fn open(
        lookup: &'a [u8],
        postings: &'a [u8],
        files: &'a [u8],
        meta: &'a [u8],
    ) -> (index: Result<Index<'a>, IndexError>)
        ensures
            match index {
                Ok(index) => open_tables(lookup@, postings@, files@, meta@) == Ok::<
                    IndexView,
                    IndexError,
                >(index@),
                Err(e) => open_tables(lookup@, postings@, files@, meta@) == Err::<
                    IndexView,
                    IndexError,
                >(e),
            },
    {
        if !check_header(lookup, &LOOKUP_HEADER) || !check_header(postings, &POSTINGS_HEADER)
            || !check_header(files, &FILES_HEADER) || !check_header(meta, &META_HEADER) {
            return Err(IndexError::BadMagic);
        }
        let keys: u64 = match u64_at(lookup, COUNT_OFFSET) {
            Some(n) => n,
            None => {
                return Err(IndexError::Truncated);
            },
        };
        if keys > ((lookup.len() - HEADER_LEN) / ENTRY_LEN) as u64 {
            return Err(IndexError::LookupTruncated);
        }
        let count: usize = keys as usize;
        let distinct: u64 = match u64_at(postings, COUNT_OFFSET) {
            Some(n) => n,
            None => {
                return Err(IndexError::Truncated);
            },
        };
        let total: u64 = match u64_at(postings, COUNT_OFFSET + 8) {
            Some(n) => n,
            None => {
                return Err(IndexError::Truncated);
            },
        };
        let lists: u64 = match distinct.checked_mul(4) {
            Some(n) => n,
            None => {
                return Err(IndexError::Overflow);
            },
        };
        let ids: u64 = match total.checked_mul(4) {
            Some(n) => n,
            None => {
                return Err(IndexError::Overflow);
            },
        };
        let needed: u64 = match POSTINGS_DATA_OFFSET.checked_add(lists) {
            Some(sum) => match sum.checked_add(ids) {
                Some(n) => n,
                None => {
                    return Err(IndexError::Overflow);
                },
            },
            None => {
                return Err(IndexError::Overflow);
            },
        };
        if (postings.len() as u64) < needed {
            return Err(IndexError::PostingsTruncated);
        }
        if count > 0 {
            let first: u64 = match u64_at(lookup, HEADER_LEN + 8) {
                Some(n) => n,
                None => {
                    return Err(IndexError::Truncated);
                },
            };
            let last: u64 = match u64_at(lookup, HEADER_LEN + (count - 1) * ENTRY_LEN + 8) {
                Some(n) => n,
                None => {
                    return Err(IndexError::Truncated);
                },
            };
            if first < POSTINGS_DATA_OFFSET || last >= postings.len() as u64 {
                return Err(IndexError::OffsetOutOfRange);
            }
        }
        let file_offsets = match read_offsets(files, 0, IndexError::FilesTruncated) {
            Ok(offsets) => offsets,
            Err(e) => {
                return Err(e);
            },
        };
        let meta_offsets = match read_offsets(meta, 16, IndexError::MetaTruncated) {
            Ok(offsets) => offsets,
            Err(e) => {
                return Err(e);
            },
        };
        Ok(Index { lookup, postings, files, file_offsets, meta, meta_offsets })
    }

    /// Number of indexed files.
    pub fn file_count(&self) -> (count: usize)
        ensures
            count == self@.file_offsets.len(),
    {
        self.file_offsets.len()
    }

    /// Distinct n-grams in the lookup table.
    pub fn ngram_count(&self) -> (count: u64)
        ensures
            count == table_count(self@.lookup),
    {
        proof {
            use_type_invariant(self);
        }
        match u64_at(self.lookup, COUNT_OFFSET) {
            Some(n) => n,
            None => 0,
        }
    }

    /// Total posting entries.
    pub fn posting_count(&self) -> (count: u64)
        ensures
            count == u64_in(self@.postings, 16),
    {
        proof {
            use_type_invariant(self);
        }
        match u64_at(self.postings, COUNT_OFFSET + 8) {
            Some(n) => n,
            None => 0,
        }
    }

    /// Stored path of a file id.
    pub fn file_path(&self, id: u32) -> (path: Option<&'a [u8]>)
        ensures
            match path {
                Some(bytes) => path_of(self@, id as int) == Some(bytes@),
                None => path_of(self@, id as int) is None,
            },
    {
        if id as usize >= self.file_offsets.len() {
            return None;
        }
        let at: usize = self.file_offsets[id as usize] as usize;
        let plen: u64 = match u64_at(self.files, at) {
            Some(n) => n,
            None => {
                return None;
            },
        };
        if plen > (self.files.len() - at - 8) as u64 {
            return None;
        }
        Some(slice_subrange(self.files, at + 8, at + 8 + plen as usize))
    }

    /// Stored (mtime, size) for a file id, used for change detection.
    pub fn file_meta(&self, id: u32) -> (meta: Option<(u64, u64)>)
        ensures
            meta == meta_of(self@, id as int),
    {
        if id as usize >= self.meta_offsets.len() {
            return None;
        }
        let at: usize = self.meta_offsets[id as usize] as usize;
        let plen: u64 = match u64_at(self.meta, at) {
            Some(n) => n,
            None => {
                return None;
            },
        };
        let rest: usize = self.meta.len() - at - 8;
        if rest < 16 || plen > (rest - 16) as u64 {
            return None;
        }
        let after: usize = at + 8 + plen as usize;
        match (u64_at(self.meta, after), u64_at(self.meta, after + 8)) {
            (Some(mtime), Some(size)) => Some((mtime, size)),
            _ => None,
        }
    }

    /// The posting list for an n-gram key, put into `out` in place of what it
    /// held, so callers can reuse one buffer.
    ///
    /// Safe against malformed tables: out-of-range data yields an empty list.
    pub fn postings_into(&self, hash: u64, out: &mut Vec<u32>)
        ensures
            final(out)@ == postings_of(self@, hash),
    {
        proof {
            use_type_invariant(self);
        }
        out.clear();
        let len: usize = self.postings.len();
        let found: Option<u64> = lookup_offset(self.lookup, hash);
        let offset: usize = match found {
            Some(at) => match to_position(at) {
                Some(at) => at,
                None => {
                    return;
                },
            },
            None => {
                return;
            },
        };
        let list_len: u32 = match u32_at(self.postings, offset) {
            Some(n) => n,
            None => {
                return;
            },
        };
        let room: usize = (len - offset - 4) / 4;
        if list_len as usize > room {
            return;
        }
        let ghost list = list_at(self.postings@, offset as int);
        let mut i: usize = 0;
        while i < list_len as usize
            invariant
                i <= list_len,
                list == list_at(self.postings@, offset as int),
                list.len() == list_len,
                offset + 4 + 4 * list_len <= self.postings@.len(),
                list_len == u32_in(self.postings@, offset as int),
                len == self.postings@.len(),
                out@ == list.take(i as int),
            decreases list_len - i,
        {
            match u32_at(self.postings, offset + 4 + 4 * i) {
                Some(id) => {
                    out.push(id);
                },
                None => {},
            }
            i += 1;
            assert(out@ =~= list.take(i as int));
        }
        assert(list.take(i as int) =~= list);
    }

    /// The posting list for an n-gram key (empty when absent).
    pub fn postings(&self, hash: u64) -> (ids: Vec<u32>)
        ensures
            ids@ == postings_of(self@, hash),
    {
        let mut out: Vec<u32> = Vec::new();
        self.postings_into(hash, &mut out);
        out
    }

    /// True when `hash` exists in the lookup table.
    pub fn has_ngram(&self, hash: u64) -> (present: bool)
        ensures
            present == (offset_of(self@.lookup, hash) is Some),
    {
        proof {
            use_type_invariant(self);
        }
        lookup_offset(self.lookup, hash).is_some()
    }
}

/// An index is of the current format if its lookup table starts with the bytes
/// of `RGXLOOK2`, and of the previous one if it starts with those of `RGXLOOK1`.
/// Anything else is neither, and nothing is both.
pub proof fn formats_are_told_by_their_first_bytes(lookup: Seq<u8>)
    ensures
        has_magic(lookup, LOOKUP_HEADER@) <==> lookup.len() >= 8 && lookup.take(8) == seq![
            82u8, 71, 88, 76, 79, 79, 75, 50,
        ],
        has_magic(lookup, STALE_LOOKUP_HEADER@) <==> lookup.len() >= 8 && lookup.take(8) == seq![
            82u8, 71, 88, 76, 79, 79, 75, 49,
        ],
        !(has_magic(lookup, LOOKUP_HEADER@) && has_magic(lookup, STALE_LOOKUP_HEADER@)),
{
    assert(LOOKUP_HEADER@ =~= seq![82u8, 71, 88, 76, 79, 79, 75, 50]);
    assert(STALE_LOOKUP_HEADER@ =~= seq![82u8, 71, 88, 76, 79, 79, 75, 49]);
    assert(LOOKUP_HEADER@[7] != STALE_LOOKUP_HEADER@[7]);
}

/// What the errors are called.
pub proof fn errors_say_what_is_wrong()
    ensures
        error_message(IndexError::BadMagic) == "bad magic"@,
        error_message(IndexError::Truncated) == "truncated index file"@,
        error_message(IndexError::LookupTruncated) == "lookup table truncated"@,
        error_message(IndexError::Overflow) == "overflow"@,
        error_message(IndexError::PostingsTruncated) == "posting list truncated"@,
        error_message(IndexError::OffsetOutOfRange) == "posting list offset out of range"@,
        error_message(IndexError::PathLengthOverflow) == "path length overflow"@,
        error_message(IndexError::FilesTruncated) == "file table truncated"@,
        error_message(IndexError::MetaTruncated) == "meta table truncated"@,
{
}

/// All four tables have a header of sixteen bytes that starts with their own
/// magic.
pub open spec fn have_headers(
    lookup: Seq<u8>,
    postings: Seq<u8>,
    files: Seq<u8>,
    meta: Seq<u8>,
) -> bool {
    &&& lookup.len() >= 16 && lookup.take(8) == seq![82u8, 71, 88, 76, 79, 79, 75, 50]
    &&& postings.len() >= 16 && postings.take(8) == seq![82u8, 71, 88, 80, 79, 83, 84, 50]
    &&& files.len() >= 16 && files.take(8) == seq![82u8, 71, 88, 70, 73, 76, 83, 50]
    &&& meta.len() >= 16 && meta.take(8) == seq![82u8, 71, 88, 77, 69, 84, 65, 50]
}

/// Tables open only with a header each, with all the lookup entries and postings
/// that they count, and with offsets that lie in the posting lists; and each
/// defect has its own error, in this order.
pub proof fn each_defect_has_its_error(
    lookup: Seq<u8>,
    postings: Seq<u8>,
    files: Seq<u8>,
    meta: Seq<u8>,
)
    ensures
        ({
            let opened = open_tables(lookup, postings, files, meta);
            let keys = u64_in(lookup, 8);
            let needed = 24 + 4 * u64_in(postings, 8) + 4 * u64_in(postings, 16);
            let first = u64_in(lookup, 24);
            let last = u64_in(lookup, 16 * keys + 8);
            if !have_headers(lookup, postings, files, meta) {
                opened == Err::<IndexView, IndexError>(IndexError::BadMagic)
            } else if lookup.len() < 16 + 16 * keys {
                opened == Err::<IndexView, IndexError>(IndexError::LookupTruncated)
            } else if postings.len() < 24 {
                opened == Err::<IndexView, IndexError>(IndexError::Truncated)
            } else if needed > u64::MAX {
                opened == Err::<IndexView, IndexError>(IndexError::Overflow)
            } else if postings.len() < needed {
                opened == Err::<IndexView, IndexError>(IndexError::PostingsTruncated)
            } else if keys > 0 && (first < 24 || last >= postings.len()) {
                opened == Err::<IndexView, IndexError>(IndexError::OffsetOutOfRange)
            } else {
                match opened {
                    Ok(index) => index.lookup == lookup && index.postings == postings
                        && index.files == files && index.meta == meta && index.file_offsets.len()
                        == u64_in(files, 8) && index.meta_offsets.len() == u64_in(meta, 8),
                    Err(e) => e == IndexError::Truncated || e == IndexError::PathLengthOverflow || e
                        == IndexError::FilesTruncated || e == IndexError::MetaTruncated,
                }
            }
        }),
{
    assert(LOOKUP_HEADER@ =~= seq![82u8, 71, 88, 76, 79, 79, 75, 50]);
    assert(POSTINGS_HEADER@ =~= seq![82u8, 71, 88, 80, 79, 83, 84, 50]);
    assert(FILES_HEADER@ =~= seq![82u8, 71, 88, 70, 73, 76, 83, 50]);
    assert(META_HEADER@ =~= seq![82u8, 71, 88, 77, 69, 84, 65, 50]);
    lemma_record_offsets_count(files, 16, u64_in(files, 8) as int, 0, IndexError::FilesTruncated);
    lemma_record_offsets_count(meta, 16, u64_in(meta, 8) as int, 16, IndexError::MetaTruncated);
}

proof fn lemma_record_offsets_count(
    data: Seq<u8>,
    at: int,
    left: int,
    extra: int,
    truncated: IndexError,
)
    ensures
        match record_offsets(data, at, left, extra, truncated) {
            Ok(offsets) => left >= 0 ==> offsets.len() == left,
            Err(e) => e == IndexError::Truncated || e == IndexError::PathLengthOverflow || e
                == truncated,
        },
    decreases left,
{
    if left > 0 && at + 8 <= data.len() {
        lemma_record_offsets_count(
            data,
            at + 8 + extra + u64_in(data, at),
            left - 1,
            extra,
            truncated,
        );
    }
}

/// Where the records of a table start: one behind another. A record is so long
/// as its path, which its first eight bytes count, with these bytes and `extra`
/// more.
pub proof fn records_stand_one_behind_another(
    data: Seq<u8>,
    at: int,
    left: int,
    extra: int,
    truncated: IndexError,
)
    requires
        left > 0,
    ensures
        record_offsets(data, at, 0, extra, truncated) == Ok::<Seq<u32>, IndexError>(Seq::empty()),
        at + 8 > data.len() ==> record_offsets(data, at, left, extra, truncated) == Err::<
            Seq<u32>,
            IndexError,
        >(IndexError::Truncated),
        at + 8 <= data.len() ==> {
            let next = at + 8 + u64_in(data, at) + extra;
            record_offsets(data, at, left, extra, truncated) == if next > usize::MAX {
                Err(IndexError::PathLengthOverflow)
            } else if next > data.len() {
                Err(truncated)
            } else {
                match record_offsets(data, next, left - 1, extra, truncated) {
                    Ok(rest) => Ok(seq![at as u32] + rest),
                    Err(e) => Err(e),
                }
            }
        },
{
}

/// A posting list is a count and so many ids, four bytes each. Where the table
/// ends before the list does, there are none.
pub proof fn lists_that_are_cut_off_are_empty(postings: Seq<u8>, at: int)
    ensures
        at + 4 > postings.len() ==> list_at(postings, at).len() == 0,
        at + 4 <= postings.len() ==> {
            let count = u32_in(postings, at);
            if at + 4 + 4 * count > postings.len() {
                list_at(postings, at).len() == 0
            } else {
                &&& list_at(postings, at).len() == count
                &&& forall|i: int|
                    0 <= i < count ==> #[trigger] list_at(postings, at)[i] == u32_in(
                        postings,
                        at + 4 + 4 * i,
                    )
            }
        },
{
}

/// The path, and the time and size, of a file are read from its records by the
/// length that they give. There are none for an id that is too large, or where
/// the table ends before the record does.
pub proof fn files_are_read_by_their_lengths(index: IndexView, id: int)
    requires
        0 <= id,
    ensures
        id >= index.file_offsets.len() ==> path_of(index, id) is None,
        id < index.file_offsets.len() ==> {
            let at = index.file_offsets[id] as int;
            let end = at + 8 + u64_in(index.files, at);
            match path_of(index, id) {
                None => at + 8 > index.files.len() || end > index.files.len(),
                Some(path) => end <= index.files.len() && path == index.files.subrange(at + 8, end),
            }
        },
        id >= index.meta_offsets.len() ==> meta_of(index, id) is None,
        id < index.meta_offsets.len() ==> {
            let at = index.meta_offsets[id] as int;
            let end = at + 8 + u64_in(index.meta, at);
            match meta_of(index, id) {
                None => at + 8 > index.meta.len() || end + 16 > index.meta.len(),
                Some((mtime, size)) => end + 16 <= index.meta.len() && mtime == u64_in(
                    index.meta,
                    end,
                ) && size == u64_in(index.meta, end + 8),
            }
        },
{
}

} // verus!
