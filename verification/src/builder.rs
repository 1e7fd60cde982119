//! Building and updating an index from files.
//!
//! Each file becomes one record: its keys, taken from the cache if it did not
//! change and computed from its content otherwise. A builder takes the records
//! in order, gives each file its id, and makes the tables.

use crate::cache::{
    cache_of, cache_record, load_grams_cache, write_cache_header, write_record, CachedGrams,
    CachedView, GramsCache, GRAMS_HEADER,
};
use crate::codec::le_u64;
use crate::fingerprint::{content_hash, fingerprint};
use crate::grams::{content_keys, file_grams};
use crate::paths::path_key;
use crate::sort::{sorted, sorted_is_sorted, sorted_keeps_the_items, stable_sort};
use crate::tables::{
    distinct_grams, entry_views, index_tables, posting_lists, push_bytes,
    sorted_postings_make_a_list_for_each_key, write_tables, EntryView, FileEntry, Posting, Tables,
    TablesView, HEADER_LEN, MAX_POSTINGS,
};
use crate::text::{decimal, push_decimal, texts};
use vstd::prelude::*;
use vstd::slice::slice_to_vec;
use vstd::string::StringExecFns;

verus! {

/// One file as the build finds it.
pub struct SourceFile {
    /// Absolute path of the file.
    pub path: Vec<u8>,
    /// Its modification time (whole seconds since the Unix epoch) and size, if
    /// they could be had.
    pub meta: Option<(u64, u64)>,
    /// Its content, if it could be read.
    pub content: Option<Vec<u8>>,
}

/// What a [`SourceFile`] stands for.
#[verifier::ext_equal]
pub ghost struct SourceView {
    pub path: Seq<u8>,
    pub meta: Option<(u64, u64)>,
    pub content: Option<Seq<u8>>,
}

impl View for SourceFile {
    type V = SourceView;

    open spec fn view(&self) -> SourceView {
        SourceView {
            path: self.path@,
            meta: self.meta,
            content: match self.content {
                Some(c) => Some(c@),
                None => None,
            },
        }
    }
}

/// What a list of files stands for.
pub open spec fn source_views(files: Seq<SourceFile>) -> Seq<SourceView> {
    files.map_values(|f: SourceFile| f@)
}

/// One processed file, on its way into the index.
pub struct ProcessedFile {
    /// Absolute path of the file.
    pub path: Vec<u8>,
    /// Last-modified time in whole seconds since the Unix epoch.
    pub mtime: u64,
    /// File size in bytes.
    pub size: u64,
    /// Content fingerprint for the cache.
    pub content_hash: u128,
    /// Distinct n-gram keys of the file.
    pub grams: Vec<u64>,
    /// How many bytes of it were read.
    pub bytes_read: u64,
    /// Whether it came out of the cache and was not read.
    pub reused: bool,
}

/// What a [`ProcessedFile`] stands for.
#[verifier::ext_equal]
pub ghost struct RecordView {
    pub path: Seq<u8>,
    pub mtime: u64,
    pub size: u64,
    pub content_hash: u128,
    pub grams: Seq<u64>,
    pub bytes_read: u64,
    pub reused: bool,
}

impl View for ProcessedFile {
    type V = RecordView;

    open spec fn view(&self) -> RecordView {
        RecordView {
            path: self.path@,
            mtime: self.mtime,
            size: self.size,
            content_hash: self.content_hash,
            grams: self.grams@,
            bytes_read: self.bytes_read,
            reused: self.reused,
        }
    }
}

/// What the cache, if there is one, holds for `path`.
pub open spec fn cached_for(
    cache: Option<Map<Seq<u8>, CachedView>>,
    path: Seq<u8>,
) -> Option<CachedView> {
    match cache {
        Some(map) => if map.contains_key(path_key(path)) {
            Some(map[path_key(path)])
        } else {
            None
        },
        None => None,
    }
}

/// The map of an optional cache.
pub open spec fn cache_map(cache: Option<&GramsCache>) -> Option<Map<Seq<u8>, CachedView>> {
    match cache {
        Some(c) => Some(c@),
        None => None,
    }
}

/// The record of a file that need not be read: it was cached with the same
/// time and size.
pub open spec fn unread_record(
    path: Seq<u8>,
    mtime: u64,
    size: u64,
    cached: Option<CachedView>,
) -> Option<RecordView> {
    match cached {
        Some(c) => if c.mtime == mtime && c.size == size {
            Some(
                RecordView {
                    path,
                    mtime,
                    size,
                    content_hash: c.content_hash,
                    grams: c.grams,
                    bytes_read: 0,
                    reused: true,
                },
            )
        } else {
            None
        },
        None => None,
    }
}

/// The record of a file that was read. Its cached keys are good if they were
/// computed from content with the same fingerprint; the file still counts as
/// read.
pub open spec fn read_record(
    path: Seq<u8>,
    mtime: u64,
    size: u64,
    content: Seq<u8>,
    cached: Option<CachedView>,
) -> RecordView {
    let hash = fingerprint(content);
    RecordView {
        path,
        mtime,
        size,
        content_hash: hash,
        grams: match cached {
            Some(c) => if hash == c.content_hash {
                c.grams
            } else {
                content_keys(content)
            },
            None => content_keys(content),
        },
        bytes_read: content.len() as u64,
        reused: false,
    }
}

/// The record of a file; none if it cannot be read but would have to be.
pub open spec fn file_record(
    file: SourceView,
    cache: Option<Map<Seq<u8>, CachedView>>,
) -> Option<RecordView> {
    match file.meta {
        None => None,
        Some((mtime, size)) => match unread_record(
            file.path,
            mtime,
            size,
            cached_for(cache, file.path),
        ) {
            Some(r) => Some(r),
            None => match file.content {
                None => None,
                Some(content) => Some(
                    read_record(file.path, mtime, size, content, cached_for(cache, file.path)),
                ),
            },
        },
    }
}

/// The records of the readable files, in order.
pub open spec fn file_records(
    files: Seq<SourceView>,
    cache: Option<Map<Seq<u8>, CachedView>>,
) -> Seq<RecordView>
    decreases files.len(),
{
    if files.len() == 0 {
        Seq::empty()
    } else {
        let rest = file_records(files.drop_last(), cache);
        match file_record(files.last(), cache) {
            Some(r) => rest.push(r),
            None => rest,
        }
    }
}

/// The postings of one file.
pub open spec fn record_postings(grams: Seq<u64>, file_id: u32) -> Seq<Posting> {
    grams.map_values(|gram: u64| Posting { gram, file_id })
}

/// The postings of all files, file by file. The id of a file is its number.
pub open spec fn all_postings(records: Seq<RecordView>) -> Seq<Posting>
    decreases records.len(),
{
    if records.len() == 0 {
        Seq::empty()
    } else {
        all_postings(records.drop_last()) + record_postings(
            records.last().grams,
            (records.len() - 1) as u32,
        )
    }
}

/// The files of the index.
pub open spec fn record_entries(records: Seq<RecordView>) -> Seq<EntryView> {
    records.map_values(
        |r: RecordView| EntryView { path: r.path, mtime: r.mtime, size: r.size },
    )
}

/// What goes into the cache for a record.
pub open spec fn record_cached(record: RecordView) -> CachedView {
    CachedView {
        mtime: record.mtime,
        size: record.size,
        content_hash: record.content_hash,
        grams: record.grams,
    }
}

/// The bytes of all cache records.
pub open spec fn cache_records(records: Seq<RecordView>) -> Seq<u8>
    decreases records.len(),
{
    if records.len() == 0 {
        Seq::empty()
    } else {
        cache_records(records.drop_last()) + cache_record(
            records.last().path,
            record_cached(records.last()),
        )
    }
}

/// The bytes of the cache file.
pub open spec fn cache_file(records: Seq<RecordView>) -> Seq<u8> {
    GRAMS_HEADER@ + le_u64(records.len() as u64) + cache_records(records)
}

/// The tables of the index.
pub open spec fn record_tables(records: Seq<RecordView>) -> TablesView {
    index_tables(sorted(all_postings(records)), record_entries(records))
}

/// How many bytes were read in all.
pub open spec fn total_read(records: Seq<RecordView>) -> nat
    decreases records.len(),
{
    if records.len() == 0 {
        0
    } else {
        total_read(records.drop_last()) + records.last().bytes_read as nat
    }
}

/// How many files were reused.
pub open spec fn total_reused(records: Seq<RecordView>) -> nat
    decreases records.len(),
{
    if records.len() == 0 {
        0
    } else {
        total_reused(records.drop_last()) + if records.last().reused {
            1nat
        } else {
            0
        }
    }
}

/// `n`, or the largest number that fits.
pub open spec fn saturated(n: nat) -> u64 {
    if n <= u64::MAX {
        n as u64
    } else {
        u64::MAX
    }
}

/// Statistics from an index build, printed by `--stats`.
#[derive(Debug, Clone)]
pub struct BuildStats {
    /// Number of files in the index.
    pub files: usize,
    /// Total bytes read from disk during the build.
    pub bytes_read: u64,
    /// Distinct n-grams in the lookup table.
    pub ngrams: usize,
    /// Total posting entries.
    pub postings: u64,
    /// Total on-disk size of all index files.
    pub index_bytes: u64,
    /// Files reused from the cache (not re-read) in an incremental update.
    pub reused_files: usize,
}

impl Default for BuildStats {
    fn default() -> (stats: Self)
        ensures
            stats == (BuildStats {
                files: 0,
                bytes_read: 0,
                ngrams: 0,
                postings: 0,
                index_bytes: 0,
                reused_files: 0,
            }),
    {
        BuildStats {
            files: 0,
            bytes_read: 0,
            ngrams: 0,
            postings: 0,
            index_bytes: 0,
            reused_files: 0,
        }
    }
}

/// The statistics of a build from these records.
pub open spec fn record_stats(records: Seq<RecordView>) -> BuildStats {
    let postings = all_postings(records);
    let tables = record_tables(records);
    BuildStats {
        files: records.len() as usize,
        bytes_read: saturated(total_read(records)),
        ngrams: posting_lists(sorted(postings)).len() as usize,
        postings: postings.len() as u64,
        index_bytes: saturated(
            tables.lookup.len() + tables.postings.len() + tables.files.len() + tables.meta.len()
                + cache_file(records).len(),
        ),
        reused_files: total_reused(records) as usize,
    }
}

/// Why an index cannot be built.
#[derive(Copy, Clone, PartialEq, Eq, Structural, Debug)]
pub enum BuildError {
    /// There are more postings than offsets can address.
    TooManyPostings,
}

/// The record of a file that need not be read, from the cache.
pub fn process_unread(
    path: &[u8],
    mtime: u64,
    size: u64,
    cache: Option<&GramsCache>,
) -> (record: Option<ProcessedFile>)
    ensures
        match record {
            Some(r) => unread_record(path@, mtime, size, cached_for(cache_map(cache), path@))
                == Some(r@),
            None => unread_record(
                path@,
                mtime,
                size,
                cached_for(cache_map(cache), path@),
            ) is None,
        },
{
    match cache {
        None => None,
        Some(c) => match c.get(path) {
            None => None,
            Some(cached) => {
                if cached.mtime == mtime && cached.size == size {
                    Some(
                        ProcessedFile {
                            path: slice_to_vec(path),
                            mtime,
                            size,
                            content_hash: cached.content_hash,
                            grams: slice_to_vec(cached.grams.as_slice()),
                            bytes_read: 0,
                            reused: true,
                        },
                    )
                } else {
                    None
                }
            },
        },
    }
}

/// The record of a file whose content has been read.
pub fn process_content(
    path: &[u8],
    mtime: u64,
    size: u64,
    content: &[u8],
    cache: Option<&GramsCache>,
) -> (record: ProcessedFile)
    ensures
        record@ == read_record(path@, mtime, size, content@, cached_for(cache_map(cache), path@)),
{
    let hash: u128 = content_hash(content);
    let cached: Option<Vec<u64>> = match cache {
        None => None,
        Some(c) => match c.get(path) {
            None => None,
            Some(entry) => {
                if hash == entry.content_hash {
                    Some(slice_to_vec(entry.grams.as_slice()))
                } else {
                    None
                }
            },
        },
    };
    let grams: Vec<u64> = match cached {
        Some(grams) => grams,
        None => file_grams(content),
    };
    ProcessedFile {
        path: slice_to_vec(path),
        mtime,
        size,
        content_hash: hash,
        grams,
        bytes_read: content.len() as u64,
        reused: false,
    }
}

/// Reuse the cached keys of one file or compute them. Unreadable files are
/// skipped.
pub fn process_file(file: &SourceFile, cache: Option<&GramsCache>) -> (record: Option<
    ProcessedFile,
>)
    ensures
        match record {
            Some(r) => file_record(file@, cache_map(cache)) == Some(r@),
            None => file_record(file@, cache_map(cache)) is None,
        },
{
    let (mtime, size) = match file.meta {
        None => {
            return None;
        },
        Some(m) => m,
    };
    let unread = process_unread(file.path.as_slice(), mtime, size, cache);
    if unread.is_some() {
        return unread;
    }
    match &file.content {
        None => None,
        Some(content) => Some(
            process_content(file.path.as_slice(), mtime, size, content.as_slice(), cache),
        ),
    }
}

/// Takes the records of the files in order and makes an index of them.
pub struct IndexBuilder {
    entries: Vec<FileEntry>,
    /// `(key, file)` pairs, sorted when the tables are written.
    postings: Vec<Posting>,
    bytes_read: u64,
    reused: usize,
    cache_bytes: u64,
    records: Ghost<Seq<RecordView>>,
}

impl View for IndexBuilder {
    type V = Seq<RecordView>;

    closed spec fn view(&self) -> Seq<RecordView> {
        self.records@
    }
}

impl IndexBuilder {
    /// Everything agrees with the records taken so far.
    pub closed spec fn well_formed(&self) -> bool {
        &&& entry_views(self.entries@) == record_entries(self.records@)
        &&& self.postings@ == all_postings(self.records@)
        &&& self.postings@.len() <= MAX_POSTINGS
        &&& self.bytes_read == saturated(total_read(self.records@))
        &&& self.reused == total_reused(self.records@)
        &&& self.reused <= self.entries@.len()
        &&& self.cache_bytes == saturated(HEADER_LEN as nat + cache_records(self.records@).len())
    }

    /// A builder without records.
    pub fn new() -> (builder: Self)
        ensures
            builder.well_formed(),
            builder@ == Seq::<RecordView>::empty(),
    {
        let builder = IndexBuilder {
            entries: Vec::new(),
            postings: Vec::new(),
            bytes_read: 0,
            reused: 0,
            cache_bytes: HEADER_LEN as u64,
            records: Ghost(Seq::empty()),
        };
        assert(entry_views(builder.entries@) =~= record_entries(builder.records@));
        builder
    }

    /// The number of files taken so far.
    pub fn file_count(&self) -> (count: usize)
        requires
            self.well_formed(),
        ensures
            count == self@.len(),
    {
        assert(entry_views(self.entries@).len() == record_entries(self.records@).len());
        self.entries.len()
    }

    /// The number of those that were reused.
    pub fn reused_count(&self) -> (count: usize)
        requires
            self.well_formed(),
        ensures
            count == total_reused(self@),
    {
        self.reused
    }

    /// Takes one record and gives the bytes to append to the cache file. The
    /// record is refused when there would be too many postings.
    pub fn push(&mut self, file: ProcessedFile) -> (cache_bytes: Result<Vec<u8>, BuildError>)
        requires
            old(self).well_formed(),
        ensures
            final(self).well_formed(),
            match cache_bytes {
                Ok(bytes) => all_postings(old(self)@.push(file@)).len() <= MAX_POSTINGS
                    && final(self)@ == old(self)@.push(file@) && bytes@ == cache_record(
                    file@.path,
                    record_cached(file@),
                ),
                Err(e) => e == BuildError::TooManyPostings && all_postings(
                    old(self)@.push(file@),
                ).len() > MAX_POSTINGS && final(self)@ == old(self)@,
            },
    {
        let ghost before = self.records@;
        let ghost after = before.push(file@);
        assert(after.drop_last() =~= before);
        let count: usize = file.grams.len();
        if self.postings.len() as u64 > MAX_POSTINGS || count as u64 > MAX_POSTINGS
            - self.postings.len() as u64 {
            return Err(BuildError::TooManyPostings);
        }
        let bytes = write_record(
            file.path.as_slice(),
            file.mtime,
            file.size,
            file.content_hash,
            file.grams.as_slice(),
        );
        assert(entry_views(self.entries@).len() == record_entries(before).len());
        #[verifier::truncate]
        let id: u32 = self.entries.len() as u32;
        let ghost base = self.postings@;
        let mut i: usize = 0;
        assert(self.postings@ =~= base + record_postings(file.grams@.take(0), id));
        while i < count
            invariant
                i <= count,
                count == file.grams@.len(),
                self.entries == old(self).entries,
                self.bytes_read == old(self).bytes_read,
                self.reused == old(self).reused,
                self.cache_bytes == old(self).cache_bytes,
                self.records == old(self).records,
                self.postings@ == base + record_postings(file.grams@.take(i as int), id),
            decreases count - i,
        {
            self.postings.push(Posting::new(file.grams[i], id));
            i += 1;
            assert(self.postings@ =~= base + record_postings(file.grams@.take(i as int), id));
        }
        assert(file.grams@.take(i as int) =~= file.grams@);
        assert(self.postings@ == all_postings(after));
        self.bytes_read = self.bytes_read.saturating_add(file.bytes_read);
        self.cache_bytes = self.cache_bytes.saturating_add(bytes.len() as u64);
        let ghost entries_before = self.entries@;
        self.entries.push(FileEntry { path: file.path, mtime: file.mtime, size: file.size });
        let files: usize = self.entries.len();
        assert(self.reused < files);
        if file.reused {
            self.reused = self.reused + 1;
        }
        self.records = Ghost(after);
        proof {
            assert(entry_views(self.entries@) =~= record_entries(after)) by {
                assert(entry_views(entries_before) == record_entries(before));
                assert(entry_views(self.entries@) =~= entry_views(entries_before).push(
                    EntryView { path: file.path@, mtime: file.mtime, size: file.size },
                ));
                assert(record_entries(after) =~= record_entries(before).push(
                    EntryView { path: file.path@, mtime: file.mtime, size: file.size },
                ));
            }
        }
        Ok(bytes)
    }

    /// The tables and the statistics of the index.
    pub fn finish(self) -> (built: (Tables, BuildStats))
        requires
            self.well_formed(),
        ensures
            built.0@ == record_tables(self@),
            built.1 == record_stats(self@),
    {
        assert(entry_views(self.entries@).len() == record_entries(self.records@).len());
        let ghost records = self.records@;
        let files: usize = self.entries.len();
        let count: usize = self.postings.len();
        proof {
            sorted_keeps_the_items(all_postings(records));
        }
        let postings = stable_sort(self.postings);
        let ngrams: usize = distinct_grams(postings.as_slice());
        let tables = write_tables(postings.as_slice(), self.entries.as_slice());
        let index_bytes: u64 = (tables.lookup.len() as u64).saturating_add(
            tables.postings.len() as u64,
        ).saturating_add(tables.files.len() as u64).saturating_add(
            tables.meta.len() as u64,
        ).saturating_add(self.cache_bytes);
        let stats = BuildStats {
            files,
            bytes_read: self.bytes_read,
            ngrams,
            postings: count as u64,
            index_bytes,
            reused_files: self.reused,
        };
        proof {
            crate::codec::lemma_le_lengths();
            assert(cache_file(records).len() == HEADER_LEN + cache_records(records).len());
        }
        (tables, stats)
    }
}

/// A finished index: its tables, its cache file, and how it was built.
pub struct BuiltIndex {
    pub tables: Tables,
    pub grams: Vec<u8>,
    pub stats: BuildStats,
}

/// The status line at the start of a build.
pub open spec fn scanning_text(files: nat) -> Seq<char> {
    "scanning: "@ + decimal(files) + " files"@
}

/// The status line when all files have been processed.
pub open spec fn update_text(reused: nat, files: nat) -> Seq<char> {
    "update: "@ + decimal(reused) + " files reused, "@ + decimal(
        if files >= reused {
            (files - reused) as nat
        } else {
            0
        },
    ) + " re-read"@
}

/// The status line at the start of a build.
pub fn scanning_line(files: usize) -> (line: String)
    ensures
        line@ == scanning_text(files as nat),
{
    let mut line = "scanning: ".to_owned();
    push_decimal(&mut line, files as u64);
    line.append(" files");
    line
}

/// The status line when all files have been processed.
pub fn update_line(reused: usize, files: usize) -> (line: String)
    ensures
        line@ == update_text(reused as nat, files as nat),
{
    let mut line = "update: ".to_owned();
    push_decimal(&mut line, reused as u64);
    line.append(" files reused, ");
    push_decimal(&mut line, files.saturating_sub(reused) as u64);
    line.append(" re-read");
    line
}

/// The status line before the tables are written.
pub const WRITING_LINE: &'static str = "writing index files";

/// The status line of an update that has to start over.
pub const NO_CACHE_LINE: &'static str = "no usable n-gram cache; full rebuild";

/// Adds a status line.
fn report(progress: &mut Vec<String>, line: String)
    ensures
        texts(final(progress)@) == texts(old(progress)@).push(line@),
{
    let ghost before = progress@;
    progress.push(line);
    assert(texts(progress@) =~= texts(before).push(line@));
}

/// The status lines of a build.
pub open spec fn build_lines(
    files: nat,
    records: Seq<RecordView>,
) -> Seq<Seq<char>> {
    if all_postings(records).len() <= MAX_POSTINGS {
        seq![scanning_text(files), update_text(total_reused(records), files), WRITING_LINE@]
    } else {
        seq![scanning_text(files)]
    }
}

/// More records never have fewer postings.
proof fn lemma_postings_grow(
    files: Seq<SourceView>,
    cache: Option<Map<Seq<u8>, CachedView>>,
    k: int,
)
    requires
        0 <= k <= files.len(),
    ensures
        all_postings(file_records(files.take(k), cache)).len() <= all_postings(
            file_records(files, cache),
        ).len(),
    decreases files.len() - k,
{
    if k < files.len() {
        lemma_postings_grow(files, cache, k + 1);
        let now = file_records(files.take(k), cache);
        assert(files.take(k + 1).drop_last() =~= files.take(k));
        match file_record(files[k], cache) {
            Some(r) => {
                assert(now.push(r).drop_last() =~= now);
            },
            None => {},
        }
    } else {
        assert(files.take(k) =~= files);
    }
}

/// Shared pipeline of builds and updates.
fn run_build(
    files: &[SourceFile],
    cache: Option<&GramsCache>,
    progress: &mut Vec<String>,
) -> (built: Result<BuiltIndex, BuildError>)
    ensures
        ({
            let records = file_records(source_views(files@), cache_map(cache));
            &&& texts(final(progress)@) == texts(old(progress)@) + build_lines(
                files@.len(),
                records,
            )
            &&& match built {
                Ok(b) => all_postings(records).len() <= MAX_POSTINGS && b.tables@ == record_tables(
                    records,
                ) && b.grams@ == cache_file(records) && b.stats == record_stats(records),
                Err(e) => e == BuildError::TooManyPostings && all_postings(records).len()
                    > MAX_POSTINGS,
            }
        }),
{
    let ghost sources = source_views(files@);
    let ghost map = cache_map(cache);
    let ghost told = texts(progress@);
    report(progress, scanning_line(files.len()));
    let mut builder = IndexBuilder::new();
    let mut body: Vec<u8> = Vec::new();
    let mut i: usize = 0;
    while i < files.len()
        invariant
            i <= files@.len(),
            sources == source_views(files@),
            map == cache_map(cache),
            texts(progress@) == told.push(scanning_text(files@.len())),
            told == texts(old(progress)@),
            builder.well_formed(),
            builder@ == file_records(sources.take(i as int), map),
            body@ == cache_records(builder@),
        decreases files@.len() - i,
    {
        assert(sources.take(i + 1).drop_last() =~= sources.take(i as int));
        assert(sources.take(i + 1).last() == files@[i as int]@);
        match process_file(&files[i], cache) {
            None => {},
            Some(record) => {
                let ghost before = builder@;
                let ghost view = record@;
                match builder.push(record) {
                    Ok(bytes) => {
                        push_bytes(&mut body, bytes.as_slice());
                        assert(before.push(view).drop_last() =~= before);
                    },
                    Err(e) => {
                        proof {
                            lemma_postings_grow(sources, map, i + 1);
                            assert(texts(progress@) =~= told + build_lines(
                                files@.len(),
                                file_records(sources, map),
                            ));
                        }
                        return Err(e);
                    },
                }
            },
        }
        i += 1;
    }
    assert(sources.take(i as int) =~= sources);
    let ghost records = builder@;
    report(progress, update_line(builder.reused_count(), files.len()));
    report(progress, WRITING_LINE.to_owned());
    let mut grams = write_cache_header(builder.file_count() as u64);
    push_bytes(&mut grams, body.as_slice());
    let (tables, stats) = builder.finish();
    assert(texts(progress@) =~= told + build_lines(files@.len(), records));
    Ok(BuiltIndex { tables, grams, stats })
}

/// Build an index of `files`. Status lines are added to `progress`.
pub fn build_index(files: &[SourceFile], progress: &mut Vec<String>) -> (built: Result<
    BuiltIndex,
    BuildError,
>)
    ensures
        ({
            let records = file_records(source_views(files@), None);
            &&& texts(final(progress)@) == texts(old(progress)@) + build_lines(
                files@.len(),
                records,
            )
            &&& match built {
                Ok(b) => all_postings(records).len() <= MAX_POSTINGS && b.tables@ == record_tables(
                    records,
                ) && b.grams@ == cache_file(records) && b.stats == record_stats(records),
                Err(e) => e == BuildError::TooManyPostings && all_postings(records).len()
                    > MAX_POSTINGS,
            }
        }),
{
    run_build(files, None, progress)
}

/// Incrementally update an index whose cache file holds `cache_data`.
///
/// Only files whose `(mtime, size)` changed are read. Among those, files whose
/// content fingerprint still matches the cached one reuse their cached keys.
/// Removed files are dropped. A missing or corrupt cache falls back to a full
/// rebuild.
pub fn update_index(
    files: &[SourceFile],
    cache_data: Option<&[u8]>,
    progress: &mut Vec<String>,
) -> (built: Result<BuiltIndex, BuildError>)
    ensures
        ({
            let map = match cache_data {
                Some(data) => cache_of(data@),
                None => None,
            };
            let records = file_records(source_views(files@), map);
            let told = if map is None {
                texts(old(progress)@).push(NO_CACHE_LINE@)
            } else {
                texts(old(progress)@)
            };
            &&& texts(final(progress)@) == told + build_lines(files@.len(), records)
            &&& match built {
                Ok(b) => all_postings(records).len() <= MAX_POSTINGS && b.tables@ == record_tables(
                    records,
                ) && b.grams@ == cache_file(records) && b.stats == record_stats(records),
                Err(e) => e == BuildError::TooManyPostings && all_postings(records).len()
                    > MAX_POSTINGS,
            }
        }),
{
    let cache: Option<GramsCache> = match cache_data {
        Some(data) => load_grams_cache(data),
        None => None,
    };
    match cache {
        None => {
            report(progress, NO_CACHE_LINE.to_owned());
            build_index(files, progress)
        },
        Some(c) => run_build(files, Some(&c), progress),
    }
}

/// A list of files stands for its files, each with its path, its time and size
/// and its content.
pub proof fn source_views_show_every_file(files: Seq<SourceFile>)
    ensures
        source_views(files).len() == files.len(),
        forall|i: int|
            0 <= i < files.len() ==> {
                let f = #[trigger] source_views(files)[i];
                &&& f.path == files[i].path@
                &&& f.meta == files[i].meta
                &&& f.content is Some <==> files[i].content is Some
                &&& files[i].content matches Some(content) ==> f.content == Some(content@)
            },
{
}

/// What becomes of one file. Without a time and size it is left out. With the
/// time and size that are cached for its path it is not read, and keeps its
/// fingerprint and its keys. Otherwise it is left out if it cannot be read, and
/// if it can, it has the fingerprint of its content and the keys of its content,
/// or those cached with the same fingerprint.
pub proof fn files_are_read_unless_cached(
    file: SourceView,
    cache: Option<Map<Seq<u8>, CachedView>>,
)
    ensures
        file.meta is None ==> file_record(file, cache) is None,
        file.meta matches Some((mtime, size)) ==> {
            let known = cache is Some && cache->0.contains_key(path_key(file.path));
            let cached = cache->0[path_key(file.path)];
            let fresh = known && cached.mtime == mtime && cached.size == size;
            match file_record(file, cache) {
                None => !fresh && file.content is None,
                Some(r) => {
                    &&& r.path == file.path && r.mtime == mtime && r.size == size
                    &&& r.reused == fresh
                    &&& fresh ==> r.bytes_read == 0 && r.content_hash == cached.content_hash
                        && r.grams == cached.grams
                    &&& !fresh ==> (file.content matches Some(content) && r.bytes_read
                        == content.len() as u64 && r.content_hash == fingerprint(content)
                        && r.grams == if known && cached.content_hash == fingerprint(content) {
                        cached.grams
                    } else {
                        content_keys(content)
                    })
                },
            }
        },
{
}

/// The records are those of the files, one file after another: one more file
/// adds its record, or nothing if it has none.
pub proof fn one_more_file_adds_its_own_record(
    files: Seq<SourceView>,
    more: SourceView,
    cache: Option<Map<Seq<u8>, CachedView>>,
)
    ensures
        file_records(Seq::empty(), cache).len() == 0,
        file_records(files.push(more), cache) == match file_record(more, cache) {
            Some(r) => file_records(files, cache).push(r),
            None => file_records(files, cache),
        },
{
    assert(files.push(more).drop_last() =~= files);
}

/// One more record adds a posting for each of its keys, under the next file id,
/// and what it says goes to the end of the files and of the cache.
pub proof fn one_more_record_adds_its_own_postings(records: Seq<RecordView>, more: RecordView)
    ensures
        all_postings(Seq::empty()).len() == 0,
        all_postings(records.push(more)).len() == all_postings(records).len() + more.grams.len(),
        all_postings(records.push(more)).take(all_postings(records).len() as int) == all_postings(
            records,
        ),
        forall|k: int|
            0 <= k < more.grams.len() ==> #[trigger] all_postings(records.push(more))[all_postings(
                records,
            ).len() + k] == (Posting { gram: more.grams[k], file_id: records.len() as u32 }),
        record_entries(Seq::empty()).len() == 0,
        record_entries(records.push(more)) == record_entries(records).push(
            EntryView { path: more.path, mtime: more.mtime, size: more.size },
        ),
        cache_records(Seq::empty()).len() == 0,
        cache_records(records.push(more)) == cache_records(records) + cache_record(
            more.path,
            (CachedView {
                mtime: more.mtime,
                size: more.size,
                content_hash: more.content_hash,
                grams: more.grams,
            }),
        ),
        cache_file(records) == seq![82u8, 71, 88, 71, 82, 65, 77, 50] + le_u64(
            records.len() as u64,
        ) + cache_records(records),
{
    let all = records.push(more);
    assert(all.drop_last() =~= records);
    assert(GRAMS_HEADER@ =~= seq![82u8, 71, 88, 71, 82, 65, 77, 50]);
    assert(all_postings(all).take(all_postings(records).len() as int) =~= all_postings(records));
    assert(record_entries(all) =~= record_entries(records).push(
        EntryView { path: more.path, mtime: more.mtime, size: more.size },
    ));
}

proof fn lemma_totals_step(records: Seq<RecordView>, more: RecordView)
    ensures
        total_read(records.push(more)) == total_read(records) + more.bytes_read,
        total_reused(records.push(more)) == total_reused(records) + if more.reused {
            1nat
        } else {
            0
        },
        total_reused(records) <= records.len(),
    decreases records.len(),
{
    assert(records.push(more).drop_last() =~= records);
    if records.len() > 0 {
        lemma_totals_step(records.drop_last(), records.last());
        assert(records.drop_last().push(records.last()) =~= records);
    }
}

/// The statistics count what was built: the files, the bytes of those that were
/// read, the files that were not, one n-gram for each key there is, one posting
/// for each key of each file, and the bytes of all tables and of the cache.
/// Numbers of bytes stop at the largest there is.
pub proof fn statistics_count_what_was_built(records: Seq<RecordView>, more: RecordView)
    requires
        records.len() < u32::MAX,
        all_postings(records.push(more)).len() <= MAX_POSTINGS,
        all_postings(records.push(more)).len() <= usize::MAX,
    ensures
        total_read(Seq::empty()) == 0,
        total_read(records.push(more)) == total_read(records) + more.bytes_read,
        total_reused(Seq::empty()) == 0,
        total_reused(records.push(more)) == total_reused(records) + if more.reused {
            1nat
        } else {
            0
        },
        ({
            let all = records.push(more);
            let stats = record_stats(all);
            let t = record_tables(all);
            let bytes = t.lookup.len() + t.postings.len() + t.files.len() + t.meta.len()
                + cache_file(all).len();
            &&& stats.files == all.len()
            &&& stats.reused_files == total_reused(all)
            &&& stats.bytes_read == if total_read(all) <= u64::MAX {
                total_read(all)
            } else {
                u64::MAX as nat
            }
            &&& stats.index_bytes == if bytes <= u64::MAX {
                bytes
            } else {
                u64::MAX as nat
            }
            &&& stats.postings == all_postings(all).len()
            &&& stats.ngrams == all_postings(all).map_values(
                |p: Posting| p.gram,
            ).to_set().len()
        }),
{
    let all = records.push(more);
    let flat = all_postings(all);
    let s = sorted(flat);
    lemma_totals_step(records, more);
    lemma_totals_step(all, more);
    sorted_keeps_the_items(flat);
    sorted_is_sorted(flat);
    sorted_postings_make_a_list_for_each_key(s);
    let f = |p: Posting| p.gram;
    assert(s.map_values(f).to_set() =~= flat.map_values(f).to_set()) by {
        assert forall|key: u64| s.map_values(f).contains(key) <==> flat.map_values(f).contains(
            key,
        ) by {
            if s.map_values(f).contains(key) {
                let i = s.map_values(f).index_of(key);
                assert(s.contains(s[i]));
                assert(flat.contains(s[i]));
                let j = flat.index_of(s[i]);
                assert(flat.map_values(f)[j] == key);
            }
            if flat.map_values(f).contains(key) {
                let i = flat.map_values(f).index_of(key);
                assert(flat.contains(flat[i]));
                let j = s.index_of(flat[i]);
                assert(s.map_values(f)[j] == key);
            }
        }
    }
    assert(posting_lists(s).len() <= s.len());
}

/// The status lines say how many files there are, how many of them are reused,
/// and how many are not.
pub proof fn status_lines_count_the_files(files: nat, records: Seq<RecordView>)
    ensures
        build_lines(files, records)[0] == "scanning: "@ + decimal(files) + " files"@,
        all_postings(records).len() <= 0x1000_0000_0000_0000 ==> {
            let reused = total_reused(records);
            &&& build_lines(files, records).len() == 3
            &&& reused <= files ==> build_lines(files, records)[1] == "update: "@ + decimal(reused)
                + " files reused, "@ + decimal((files - reused) as nat) + " re-read"@
            &&& build_lines(files, records)[2] == "writing index files"@
        },
        all_postings(records).len() > 0x1000_0000_0000_0000 ==> build_lines(files, records).len()
            == 1,
        NO_CACHE_LINE@ == "no usable n-gram cache; full rebuild"@,
{
}

/// What is processed, and what is taken from the cache, stands for all it holds.
pub proof fn records_show_all_they_hold(file: ProcessedFile, cached: CachedGrams, tables: Tables)
    ensures
        file@.path == file.path@ && file@.mtime == file.mtime && file@.size == file.size,
        file@.content_hash == file.content_hash && file@.grams == file.grams@,
        file@.bytes_read == file.bytes_read && file@.reused == file.reused,
        cached@.mtime == cached.mtime && cached@.size == cached.size,
        cached@.content_hash == cached.content_hash && cached@.grams == cached.grams@,
        tables@.lookup == tables.lookup@ && tables@.postings == tables.postings@,
        tables@.files == tables.files@ && tables@.meta == tables.meta@,
{
}

} // verus!
