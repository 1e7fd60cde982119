//! The tables of an index, as bytes.
//!
//! All integers are little-endian.
//!
//! * lookup: `"RGXLOOK2"` + `u64 count` + sorted entries of `(u64 key,
//!   u64 offset)`, 16 bytes each. The offset is absolute in the postings table.
//! * postings: `"RGXPOST2"` + `u64 count` + `u64 total_ids` + posting lists.
//!   Each list is `u32 id_count` followed by `id_count` sorted `u32` file ids.
//! * files: `"RGXFILS2"` + `u64 count` + `u64 len` + path bytes, repeated. The
//!   id of a file is its place in this sequence.
//! * meta: `"RGXMETA2"` + `u64 count` + `u64 len` + path + `u64 mtime` +
//!   `u64 size`, repeated, in the order of the files table.
//!
//! Collisions of n-gram keys can only broaden a posting list, so they need no
//! handling.

use crate::codec::{le_u32, le_u64, push_u32, push_u64};
use crate::sort::{is_sorted, Ordered, Ranked};
use crate::text::{store_path, stored_path};
use vstd::prelude::*;
use vstd::slice::slice_to_vec;

verus! {

/// `"RGXPOST2"`
pub const POSTINGS_HEADER: [u8; 8] = [82, 71, 88, 80, 79, 83, 84, 50];

/// `"RGXLOOK2"`
pub const LOOKUP_HEADER: [u8; 8] = [82, 71, 88, 76, 79, 79, 75, 50];

/// `"RGXFILS2"`
pub const FILES_HEADER: [u8; 8] = [82, 71, 88, 70, 73, 76, 83, 50];

/// `"RGXMETA2"`
pub const META_HEADER: [u8; 8] = [82, 71, 88, 77, 69, 84, 65, 50];

/// Header layout: 8 magic bytes + 8 count bytes.
pub const HEADER_LEN: usize = 16;

/// Where the count stands in a header.
pub const COUNT_OFFSET: usize = 8;

/// The size of a `(key, offset)` lookup entry.
pub const ENTRY_LEN: usize = 16;

/// The postings table has a third header field (`total_ids`), after which its
/// lists start.
pub const POSTINGS_DATA_OFFSET: u64 = 24;

/// More postings than this cannot be addressed by 64-bit offsets.
pub const MAX_POSTINGS: u64 = 0x1000_0000_0000_0000;

/// A file known to the index.
#[derive(Clone, Debug)]
pub struct FileEntry {
    /// Absolute path of the file.
    pub path: Vec<u8>,
    /// Last-modified time in whole seconds since the Unix epoch.
    pub mtime: u64,
    /// File size in bytes.
    pub size: u64,
}

/// What a [`FileEntry`] stands for.
#[verifier::ext_equal]
pub ghost struct EntryView {
    pub path: Seq<u8>,
    pub mtime: u64,
    pub size: u64,
}

impl View for FileEntry {
    type V = EntryView;

    open spec fn view(&self) -> EntryView {
        EntryView { path: self.path@, mtime: self.mtime, size: self.size }
    }
}

/// What a list of entries stands for.
pub open spec fn entry_views(entries: Seq<FileEntry>) -> Seq<EntryView> {
    entries.map_values(|e: FileEntry| e@)
}

/// The key of an n-gram, and the id of a file that has it.
#[derive(Copy, Clone, PartialEq, Eq, Structural, Debug)]
pub struct Posting {
    pub gram: u64,
    pub file_id: u32,
}

impl Posting {
    pub fn new(gram: u64, file_id: u32) -> (posting: Self)
        ensures
            posting == (Posting { gram, file_id }),
    {
        Posting { gram, file_id }
    }

    pub fn gram(self) -> (gram: u64)
        ensures
            gram == self.gram,
    {
        self.gram
    }

    pub fn file_id(self) -> (file_id: u32)
        ensures
            file_id == self.file_id,
    {
        self.file_id
    }
}

/// Postings are ordered by key, then by file.
impl Ordered for Posting {
    open spec fn before(&self, other: &Self) -> bool {
        self.gram < other.gram || (self.gram == other.gram && self.file_id < other.file_id)
    }

    proof fn before_is_an_order(a: &Self, b: &Self, c: &Self) {
    }
}

impl Ranked for Posting {
    fn is_before(&self, other: &Self) -> (yes: bool) {
        self.gram < other.gram || (self.gram == other.gram && self.file_id < other.file_id)
    }
}

/// The postings of one key after another: each key with its file ids. A run of
/// postings with one key makes one list.
pub open spec fn posting_lists(postings: Seq<Posting>) -> Seq<(u64, Seq<u32>)>
    decreases postings.len(),
{
    if postings.len() == 0 {
        Seq::empty()
    } else {
        let lists = posting_lists(postings.drop_last());
        let last = postings.last();
        if lists.len() > 0 && lists.last().0 == last.gram {
            lists.update(lists.len() - 1, (last.gram, lists.last().1.push(last.file_id)))
        } else {
            lists.push((last.gram, seq![last.file_id]))
        }
    }
}

/// The bytes of a list of file ids.
pub open spec fn ids_bytes(ids: Seq<u32>) -> Seq<u8>
    decreases ids.len(),
{
    if ids.len() == 0 {
        Seq::empty()
    } else {
        ids_bytes(ids.drop_last()) + le_u32(ids.last())
    }
}

/// The bytes of the first `k` posting lists.
pub open spec fn lists_bytes(lists: Seq<(u64, Seq<u32>)>, k: int) -> Seq<u8>
    decreases k,
{
    if k <= 0 {
        Seq::empty()
    } else {
        lists_bytes(lists, k - 1) + (le_u32(lists[k - 1].1.len() as u32) + ids_bytes(
            lists[k - 1].1,
        ))
    }
}

/// Where the list number `k` starts in the postings table.
pub open spec fn list_offset(lists: Seq<(u64, Seq<u32>)>, k: int) -> int
    decreases k,
{
    if k <= 0 {
        POSTINGS_DATA_OFFSET as int
    } else {
        list_offset(lists, k - 1) + 4 + 4 * lists[k - 1].1.len()
    }
}

/// The bytes of the first `k` lookup entries.
pub open spec fn lookup_entries(lists: Seq<(u64, Seq<u32>)>, k: int) -> Seq<u8>
    decreases k,
{
    if k <= 0 {
        Seq::empty()
    } else {
        lookup_entries(lists, k - 1) + (le_u64(lists[k - 1].0) + le_u64(
            list_offset(lists, k - 1) as u64,
        ))
    }
}

/// The bytes of the postings table.
pub open spec fn postings_table(postings: Seq<Posting>) -> Seq<u8> {
    let lists = posting_lists(postings);
    POSTINGS_HEADER@ + le_u64(lists.len() as u64) + le_u64(postings.len() as u64) + lists_bytes(
        lists,
        lists.len() as int,
    )
}

/// The bytes of the lookup table.
pub open spec fn lookup_table(postings: Seq<Posting>) -> Seq<u8> {
    let lists = posting_lists(postings);
    LOOKUP_HEADER@ + le_u64(lists.len() as u64) + lookup_entries(lists, lists.len() as int)
}

/// The bytes of one record of the files table.
pub open spec fn path_record(entry: EntryView) -> Seq<u8> {
    le_u64(stored_path(entry.path).len() as u64) + stored_path(entry.path)
}

/// The bytes of one record of the meta table.
pub open spec fn meta_record(entry: EntryView) -> Seq<u8> {
    le_u64(stored_path(entry.path).len() as u64) + stored_path(entry.path) + le_u64(entry.mtime)
        + le_u64(entry.size)
}

/// The bytes of the first `k` records.
pub open spec fn path_records(entries: Seq<EntryView>, k: int) -> Seq<u8>
    decreases k,
{
    if k <= 0 {
        Seq::empty()
    } else {
        path_records(entries, k - 1) + path_record(entries[k - 1])
    }
}

/// The bytes of the first `k` records.
pub open spec fn meta_records(entries: Seq<EntryView>, k: int) -> Seq<u8>
    decreases k,
{
    if k <= 0 {
        Seq::empty()
    } else {
        meta_records(entries, k - 1) + meta_record(entries[k - 1])
    }
}

/// The bytes of the files table.
pub open spec fn files_table(entries: Seq<EntryView>) -> Seq<u8> {
    FILES_HEADER@ + le_u64(entries.len() as u64) + path_records(entries, entries.len() as int)
}

/// The bytes of the meta table.
pub open spec fn meta_table(entries: Seq<EntryView>) -> Seq<u8> {
    META_HEADER@ + le_u64(entries.len() as u64) + meta_records(entries, entries.len() as int)
}

/// The ids in `postings[i..j]`.
pub open spec fn ids_between(postings: Seq<Posting>, i: int, j: int) -> Seq<u32> {
    Seq::new((j - i) as nat, |k: int| postings[i + k].file_id)
}

proof fn lemma_last_list(postings: Seq<Posting>)
    requires
        postings.len() > 0,
    ensures
        posting_lists(postings).len() > 0,
        posting_lists(postings).last().0 == postings.last().gram,
{
}

/// A run of equal keys, preceded by another key or nothing, is a list.
proof fn lemma_run_is_list(postings: Seq<Posting>, i: int, j: int)
    requires
        0 <= i < j <= postings.len(),
        forall|k: int| i <= k < j ==> (#[trigger] postings[k]).gram == postings[i].gram,
        i > 0 ==> postings[i - 1].gram != postings[i].gram,
    ensures
        posting_lists(postings.take(j)) == posting_lists(postings.take(i)).push(
            (postings[i].gram, ids_between(postings, i, j)),
        ),
    decreases j,
{
    let gram = postings[i].gram;
    let start = posting_lists(postings.take(i));
    assert(postings.take(j).drop_last() =~= postings.take(j - 1));
    assert(postings.take(j).last() == postings[j - 1]);
    if j == i + 1 {
        if i > 0 {
            assert(postings.take(i).last() == postings[i - 1]);
            lemma_last_list(postings.take(i));
        }
        assert(ids_between(postings, i, j) =~= seq![postings[i].file_id]);
    } else {
        lemma_run_is_list(postings, i, j - 1);
        assert(ids_between(postings, i, j) =~= ids_between(postings, i, j - 1).push(
            postings[j - 1].file_id,
        ));
        assert(posting_lists(postings.take(j)) =~= start.push(
            (gram, ids_between(postings, i, j)),
        ));
    }
}

/// Appends `bytes`.
pub fn push_bytes(out: &mut Vec<u8>, bytes: &[u8])
    ensures
        final(out)@ == old(out)@ + bytes@,
{
    let mut copy = slice_to_vec(bytes);
    out.append(&mut copy);
}

/// The end of the run of equal keys that starts at `i`.
fn run_end(postings: &[Posting], i: usize) -> (j: usize)
    requires
        i < postings@.len(),
    ensures
        i < j <= postings@.len(),
        forall|k: int| i <= k < j ==> (#[trigger] postings@[k]).gram == postings@[i as int].gram,
        j < postings@.len() ==> postings@[j - 1].gram != postings@[j as int].gram,
{
    let gram: u64 = postings[i].gram();
    let mut j: usize = i + 1;
    while j < postings.len() && postings[j].gram() == gram
        invariant
            i < j <= postings@.len(),
            gram == postings@[i as int].gram,
            forall|k: int| i <= k < j ==> (#[trigger] postings@[k]).gram == gram,
        decreases postings@.len() - j,
    {
        j += 1;
    }
    assert(postings@[j - 1].gram == gram);
    j
}

/// Number of distinct keys in sorted postings.
pub fn distinct_grams(postings: &[Posting]) -> (count: usize)
    ensures
        count == posting_lists(postings@).len(),
{
    let mut count: usize = 0;
    let mut i: usize = 0;
    while i < postings.len()
        invariant
            i <= postings@.len(),
            count <= i,
            0 < i < postings@.len() ==> postings@[i - 1].gram != postings@[i as int].gram,
            count == posting_lists(postings@.take(i as int)).len(),
        decreases postings@.len() - i,
    {
        let j: usize = run_end(postings, i);
        proof {
            lemma_run_is_list(postings@, i as int, j as int);
        }
        count += 1;
        i = j;
    }
    assert(postings@.take(i as int) =~= postings@);
    count
}

/// Appends the ids of `postings[i..j]`.
fn push_ids(out: &mut Vec<u8>, postings: &[Posting], i: usize, j: usize)
    requires
        i <= j <= postings@.len(),
    ensures
        final(out)@ == old(out)@ + ids_bytes(ids_between(postings@, i as int, j as int)),
{
    let ghost base = out@;
    let mut k: usize = i;
    assert(ids_between(postings@, i as int, i as int) =~= Seq::empty());
    assert(out@ =~= base + ids_bytes(ids_between(postings@, i as int, i as int)));
    while k < j
        invariant
            i <= k <= j <= postings@.len(),
            out@ == base + ids_bytes(ids_between(postings@, i as int, k as int)),
        decreases j - k,
    {
        push_u32(out, postings[k].file_id());
        k += 1;
        proof {
            let ids = ids_between(postings@, i as int, k as int);
            assert(ids.drop_last() =~= ids_between(postings@, i as int, k - 1));
            assert(out@ =~= base + ids_bytes(ids));
        }
    }
}

/// The bytes of the lists before a new one do not change with it.
proof fn lemma_lists_prefix(
    lists: Seq<(u64, Seq<u32>)>,
    more: (u64, Seq<u32>),
    k: int,
)
    requires
        k <= lists.len(),
    ensures
        lists_bytes(lists.push(more), k) == lists_bytes(lists, k),
        lookup_entries(lists.push(more), k) == lookup_entries(lists, k),
        list_offset(lists.push(more), k) == list_offset(lists, k),
    decreases k,
{
    if k > 0 {
        lemma_lists_prefix(lists, more, k - 1);
        assert(lists.push(more)[k - 1] == lists[k - 1]);
    }
}

/// The bytes of the postings table.
fn write_postings_table(postings: &[Posting]) -> (table: Vec<u8>)
    ensures
        table@ == postings_table(postings@),
{
    let distinct: usize = distinct_grams(postings);
    let mut table: Vec<u8> = Vec::new();
    push_bytes(&mut table, &POSTINGS_HEADER);
    push_u64(&mut table, distinct as u64);
    push_u64(&mut table, postings.len() as u64);
    let ghost head = POSTINGS_HEADER@ + le_u64(posting_lists(postings@).len() as u64) + le_u64(
        postings@.len() as u64,
    );
    assert(table@ =~= head);
    assert(posting_lists(postings@.take(0)).len() == 0);
    assert(table@ =~= head + lists_bytes(posting_lists(postings@.take(0)), 0));
    let mut i: usize = 0;
    while i < postings.len()
        invariant
            i <= postings@.len(),
            0 < i < postings@.len() ==> postings@[i - 1].gram != postings@[i as int].gram,
            table@ == head + lists_bytes(
                posting_lists(postings@.take(i as int)),
                posting_lists(postings@.take(i as int)).len() as int,
            ),
        decreases postings@.len() - i,
    {
        let ghost lists = posting_lists(postings@.take(i as int));
        let j: usize = run_end(postings, i);
        #[verifier::truncate]
        let length: u32 = (j - i) as u32;
        push_u32(&mut table, length);
        push_ids(&mut table, postings, i, j);
        proof {
            let ids = ids_between(postings@, i as int, j as int);
            let list = (postings@[i as int].gram, ids);
            let n = lists.len() as int;
            lemma_run_is_list(postings@, i as int, j as int);
            lemma_lists_prefix(lists, list, n);
            assert(lists.push(list)[n] == list);
            assert(table@ =~= head + lists_bytes(lists.push(list), n + 1));
        }
        i = j;
    }
    assert(postings@.take(i as int) =~= postings@);
    table
}

/// Every list takes up at most eight bytes for each of its postings.
proof fn lemma_offset_bound(postings: Seq<Posting>)
    ensures
        list_offset(posting_lists(postings), posting_lists(postings).len() as int)
            <= POSTINGS_DATA_OFFSET + 8 * postings.len(),
        posting_lists(postings).len() <= postings.len(),
    decreases postings.len(),
{
    if postings.len() > 0 {
        let init = postings.drop_last();
        let lists = posting_lists(init);
        let grown = posting_lists(postings);
        let n = lists.len() as int;
        lemma_offset_bound(init);
        if n > 0 && lists.last().0 == postings.last().gram {
            lemma_offset_prefix(lists, grown, n - 1);
        } else {
            lemma_lists_prefix(lists, grown.last(), n);
            assert(grown =~= lists.push(grown.last()));
        }
    }
}

proof fn lemma_offset_prefix(a: Seq<(u64, Seq<u32>)>, b: Seq<(u64, Seq<u32>)>, k: int)
    requires
        forall|i: int| 0 <= i < k ==> a[i] == b[i],
    ensures
        list_offset(a, k) == list_offset(b, k),
    decreases k,
{
    if k > 0 {
        lemma_offset_prefix(a, b, k - 1);
    }
}

/// The bytes of the lookup table.
fn write_lookup_table(postings: &[Posting]) -> (table: Vec<u8>)
    requires
        postings@.len() <= MAX_POSTINGS,
    ensures
        table@ == lookup_table(postings@),
{
    let distinct: usize = distinct_grams(postings);
    let mut table: Vec<u8> = Vec::new();
    push_bytes(&mut table, &LOOKUP_HEADER);
    push_u64(&mut table, distinct as u64);
    let ghost head = LOOKUP_HEADER@ + le_u64(posting_lists(postings@).len() as u64);
    assert(table@ =~= head);
    assert(posting_lists(postings@.take(0)).len() == 0);
    assert(table@ =~= head + lookup_entries(posting_lists(postings@.take(0)), 0));
    let mut offset: u64 = POSTINGS_DATA_OFFSET;
    let mut i: usize = 0;
    while i < postings.len()
        invariant
            i <= postings@.len(),
            postings@.len() <= MAX_POSTINGS,
            0 < i < postings@.len() ==> postings@[i - 1].gram != postings@[i as int].gram,
            offset == list_offset(
                posting_lists(postings@.take(i as int)),
                posting_lists(postings@.take(i as int)).len() as int,
            ),
            table@ == head + lookup_entries(
                posting_lists(postings@.take(i as int)),
                posting_lists(postings@.take(i as int)).len() as int,
            ),
        decreases postings@.len() - i,
    {
        let ghost lists = posting_lists(postings@.take(i as int));
        let j: usize = run_end(postings, i);
        push_u64(&mut table, postings[i].gram());
        push_u64(&mut table, offset);
        proof {
            let ids = ids_between(postings@, i as int, j as int);
            let list = (postings@[i as int].gram, ids);
            let n = lists.len() as int;
            lemma_run_is_list(postings@, i as int, j as int);
            lemma_lists_prefix(lists, list, n);
            assert(lists.push(list)[n] == list);
            assert(table@ =~= head + lookup_entries(lists.push(list), n + 1));
            lemma_offset_bound(postings@.take(j as int));
        }
        offset = offset + (4 + (j - i) as u64 * 4);
        i = j;
    }
    assert(postings@.take(i as int) =~= postings@);
    table
}

/// The bytes of the files table.
fn write_path_table(entries: &[FileEntry]) -> (table: Vec<u8>)
    ensures
        table@ == files_table(entry_views(entries@)),
{
    let ghost views = entry_views(entries@);
    let mut table: Vec<u8> = Vec::new();
    push_bytes(&mut table, &FILES_HEADER);
    push_u64(&mut table, entries.len() as u64);
    let ghost head = FILES_HEADER@ + le_u64(views.len() as u64);
    assert(table@ =~= head + path_records(views, 0));
    let mut i: usize = 0;
    while i < entries.len()
        invariant
            i <= entries@.len(),
            views == entry_views(entries@),
            table@ == head + path_records(views, i as int),
        decreases entries@.len() - i,
    {
        let stored = store_path(entries[i].path.as_slice());
        push_u64(&mut table, stored.len() as u64);
        push_bytes(&mut table, stored.as_slice());
        i += 1;
        assert(table@ =~= head + path_records(views, i as int));
    }
    table
}

/// The bytes of the meta table.
fn write_meta_table(entries: &[FileEntry]) -> (table: Vec<u8>)
    ensures
        table@ == meta_table(entry_views(entries@)),
{
    let ghost views = entry_views(entries@);
    let mut table: Vec<u8> = Vec::new();
    push_bytes(&mut table, &META_HEADER);
    push_u64(&mut table, entries.len() as u64);
    let ghost head = META_HEADER@ + le_u64(views.len() as u64);
    assert(table@ =~= head + meta_records(views, 0));
    let mut i: usize = 0;
    while i < entries.len()
        invariant
            i <= entries@.len(),
            views == entry_views(entries@),
            table@ == head + meta_records(views, i as int),
        decreases entries@.len() - i,
    {
        let stored = store_path(entries[i].path.as_slice());
        push_u64(&mut table, stored.len() as u64);
        push_bytes(&mut table, stored.as_slice());
        push_u64(&mut table, entries[i].mtime);
        push_u64(&mut table, entries[i].size);
        i += 1;
        assert(table@ =~= head + meta_records(views, i as int));
    }
    table
}

/// The four tables of an index.
pub struct Tables {
    pub lookup: Vec<u8>,
    pub postings: Vec<u8>,
    pub files: Vec<u8>,
    pub meta: Vec<u8>,
}

/// What [`Tables`] stand for.
#[verifier::ext_equal]
pub ghost struct TablesView {
    pub lookup: Seq<u8>,
    pub postings: Seq<u8>,
    pub files: Seq<u8>,
    pub meta: Seq<u8>,
}

impl View for Tables {
    type V = TablesView;

    open spec fn view(&self) -> TablesView {
        TablesView {
            lookup: self.lookup@,
            postings: self.postings@,
            files: self.files@,
            meta: self.meta@,
        }
    }
}

/// The four tables for these postings and files.
pub open spec fn index_tables(postings: Seq<Posting>, entries: Seq<EntryView>) -> TablesView {
    TablesView {
        lookup: lookup_table(postings),
        postings: postings_table(postings),
        files: files_table(entries),
        meta: meta_table(entries),
    }
}

/// Write the four tables. `postings` should be sorted by key and file.
pub fn write_tables(postings: &[Posting], entries: &[FileEntry]) -> (tables: Tables)
    requires
        postings@.len() <= MAX_POSTINGS,
    ensures
        tables@ == index_tables(postings@, entry_views(entries@)),
{
    Tables {
        lookup: write_lookup_table(postings),
        postings: write_postings_table(postings),
        files: write_path_table(entries),
        meta: write_meta_table(entries),
    }
}

/// A list of entries stands for its entries, one by one.
pub proof fn entry_views_show_every_file(entries: Seq<FileEntry>)
    ensures
        entry_views(entries).len() == entries.len(),
        forall|i: int|
            0 <= i < entries.len() ==> {
                let e = #[trigger] entry_views(entries)[i];
                e.path == entries[i].path@ && e.mtime == entries[i].mtime && e.size
                    == entries[i].size
            },
{
}

/// Postings in order make one list for each key there is among them.
pub proof fn sorted_postings_make_a_list_for_each_key(postings: Seq<Posting>)
    requires
        is_sorted(postings),
    ensures
        posting_lists(postings).len() == postings.map_values(|p: Posting| p.gram).to_set().len(),
        posting_lists(postings).len() <= postings.len(),
    decreases postings.len(),
{
    let f = |p: Posting| p.gram;
    let keys = postings.map_values(f);
    keys.lemma_cardinality_of_set();
    if postings.len() > 0 {
        let init = postings.drop_last();
        let last = postings.last();
        let rest = init.map_values(f);
        assert forall|i: int, j: int|
            #![trigger init[i], init[j]]
            0 <= i < j < init.len() implies !init[j].before(&init[i]) by {
            assert(!postings[j].before(&postings[i]));
        }
        sorted_postings_make_a_list_for_each_key(init);
        rest.lemma_cardinality_of_set();
        assert(keys =~= rest.push(last.gram));
        assert(keys.to_set() =~= rest.to_set().insert(last.gram)) by {
            assert forall|key: u64| keys.contains(key) <==> rest.contains(key) || key
                == last.gram by {
                if rest.contains(key) {
                    let i = rest.index_of(key);
                    assert(keys[i] == key);
                }
                assert(keys[keys.len() - 1] == last.gram);
                if keys.contains(key) {
                    let i = keys.index_of(key);
                    if i < rest.len() {
                        assert(rest[i] == key);
                    }
                }
            }
        }
        if init.len() > 0 {
            lemma_last_list(init);
            if init.last().gram == last.gram {
                assert(rest[init.len() - 1] == last.gram);
                assert(rest.to_set().insert(last.gram) =~= rest.to_set());
            } else {
                assert(!rest.contains(last.gram)) by {
                    if rest.contains(last.gram) {
                        let i = rest.index_of(last.gram);
                        let n = init.len() - 1;
                        assert(init[i].gram == last.gram);
                        assert(!postings[n + 1].before(&postings[n]));
                        assert(i < n ==> !postings[n].before(&postings[i]));
                    }
                }
            }
        } else {
            assert(posting_lists(init).len() == 0);
            assert(!rest.contains(last.gram));
        }
    } else {
        assert(keys.to_set() =~= Set::empty());
    }
}

proof fn lemma_records_prefix(a: Seq<EntryView>, b: Seq<EntryView>, k: int)
    requires
        k <= a.len(),
        k <= b.len(),
        forall|i: int| 0 <= i < k ==> a[i] == b[i],
    ensures
        path_records(a, k) == path_records(b, k),
        meta_records(a, k) == meta_records(b, k),
    decreases k,
{
    if k > 0 {
        lemma_records_prefix(a, b, k - 1);
        assert(a[k - 1] == b[k - 1]);
    }
}

/// The two file tables start with their magic and the number of files. Then come
/// the files, one after another: the length of the stored path, the path, and in
/// the meta table the time and the size.
pub proof fn file_tables_hold_file_after_file(entries: Seq<EntryView>, more: EntryView)
    ensures
        ({
            let n = entries.len() as int;
            let all = entries.push(more);
            let path = stored_path(more.path);
            &&& files_table(all) == seq![82u8, 71, 88, 70, 73, 76, 83, 50] + le_u64(
                (n + 1) as u64,
            ) + path_records(all, n + 1)
            &&& meta_table(all) == seq![82u8, 71, 88, 77, 69, 84, 65, 50] + le_u64((n + 1) as u64)
                + meta_records(all, n + 1)
            &&& path_records(all, 0).len() == 0 && meta_records(all, 0).len() == 0
            &&& path_records(all, n + 1) == path_records(entries, n) + (le_u64(path.len() as u64)
                + path)
            &&& meta_records(all, n + 1) == meta_records(entries, n) + (le_u64(path.len() as u64)
                + path + le_u64(more.mtime) + le_u64(more.size))
        }),
{
    let n = entries.len() as int;
    let all = entries.push(more);
    lemma_records_prefix(all, entries, n);
    assert(all[n] == more);
    assert(FILES_HEADER@ =~= seq![82u8, 71, 88, 70, 73, 76, 83, 50]);
    assert(META_HEADER@ =~= seq![82u8, 71, 88, 77, 69, 84, 65, 50]);
}

/// The lookup table starts with its magic and the number of keys, and the
/// postings table with its magic, that number and the number of postings. Then
/// come, key by key, in the one the key and where its list starts in the other,
/// and in the other the number of ids and the ids.
pub proof fn key_tables_hold_key_after_key(
    postings: Seq<Posting>,
    lists: Seq<(u64, Seq<u32>)>,
    more: (u64, Seq<u32>),
    id: u32,
)
    ensures
        lookup_table(postings) == seq![82u8, 71, 88, 76, 79, 79, 75, 50] + le_u64(
            posting_lists(postings).len() as u64,
        ) + lookup_entries(posting_lists(postings), posting_lists(postings).len() as int),
        postings_table(postings) == seq![82u8, 71, 88, 80, 79, 83, 84, 50] + le_u64(
            posting_lists(postings).len() as u64,
        ) + le_u64(postings.len() as u64) + lists_bytes(
            posting_lists(postings),
            posting_lists(postings).len() as int,
        ),
        ({
            let n = lists.len() as int;
            let all = lists.push(more);
            &&& lookup_entries(all, 0).len() == 0 && lists_bytes(all, 0).len() == 0
            &&& list_offset(all, 0) == 24
            &&& list_offset(all, n + 1) == list_offset(lists, n) + 4 + 4 * more.1.len()
            &&& lookup_entries(all, n + 1) == lookup_entries(lists, n) + (le_u64(more.0) + le_u64(
                list_offset(lists, n) as u64,
            ))
            &&& lists_bytes(all, n + 1) == lists_bytes(lists, n) + (le_u32(more.1.len() as u32)
                + ids_bytes(more.1))
            &&& ids_bytes(Seq::empty()).len() == 0
            &&& ids_bytes(more.1.push(id)) == ids_bytes(more.1) + le_u32(id)
        }),
{
    let n = lists.len() as int;
    lemma_lists_prefix(lists, more, n);
    assert(lists.push(more)[n] == more);
    assert(more.1.push(id).drop_last() =~= more.1);
    assert(LOOKUP_HEADER@ =~= seq![82u8, 71, 88, 76, 79, 79, 75, 50]);
    assert(POSTINGS_HEADER@ =~= seq![82u8, 71, 88, 80, 79, 83, 84, 50]);
}

/// One more posting goes to the end of the last list if it has the same key, and
/// starts a list of its own otherwise.
pub proof fn postings_of_one_key_make_one_list(postings: Seq<Posting>, more: Posting)
    ensures
        posting_lists(Seq::empty()).len() == 0,
        ({
            let lists = posting_lists(postings);
            posting_lists(postings.push(more)) == if postings.len() > 0 && postings.last().gram
                == more.gram {
                lists.drop_last().push((more.gram, lists.last().1.push(more.file_id)))
            } else {
                lists.push((more.gram, seq![more.file_id]))
            }
        }),
{
    let lists = posting_lists(postings);
    assert(postings.push(more).drop_last() =~= postings);
    if postings.len() > 0 {
        lemma_last_list(postings);
        assert(lists.update(lists.len() - 1, (more.gram, lists.last().1.push(more.file_id)))
            =~= lists.drop_last().push((more.gram, lists.last().1.push(more.file_id))));
    }
}

} // verus!
