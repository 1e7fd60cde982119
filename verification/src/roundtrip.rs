//! What an index gives back of what was built into it.

use crate::builder::{all_postings, record_entries, record_postings, record_tables, RecordView};
use crate::codec::{
    le_u32, le_u64, lemma_le_lengths, lemma_u32_reads_back, lemma_u64_reads_back, u32_in, u64_in,
};
use crate::grams::is_increasing;
use crate::index::{
    has_magic, list_at, lookup_key, lookup_value, meta_of, offset_of, open_tables, path_of, postings_of,
    record_offsets, search_position, table_count, IndexError, IndexView, STALE_LOOKUP_HEADER,
};
use crate::sort::{is_sorted, sorted, sorted_is_sorted, sorted_keeps_the_items, Ordered};
use crate::tables::{
    files_table, ids_bytes, list_offset, lists_bytes, lookup_entries, lookup_table, meta_record,
    meta_records, meta_table, path_record, path_records, posting_lists, postings_table, EntryView,
    Posting, ENTRY_LEN, FILES_HEADER, HEADER_LEN, LOOKUP_HEADER, MAX_POSTINGS, META_HEADER,
    POSTINGS_DATA_OFFSET, POSTINGS_HEADER,
};
use crate::text::stored_path;
use vstd::prelude::*;

verus! {

/// The blocks `f(0)`, ..., `f(k - 1)` one after another.
pub open spec fn blocks(f: spec_fn(int) -> Seq<u8>, k: int) -> Seq<u8>
    decreases k,
{
    if k <= 0 {
        Seq::empty()
    } else {
        blocks(f, k - 1) + f(k - 1)
    }
}

/// A block stands where the ones before it end.
pub proof fn lemma_block_at(f: spec_fn(int) -> Seq<u8>, i: int, k: int)
    requires
        0 <= i < k,
    ensures
        blocks(f, i).len() + f(i).len() <= blocks(f, k).len(),
        blocks(f, i + 1).len() == blocks(f, i).len() + f(i).len(),
        blocks(f, k).subrange(
            blocks(f, i).len() as int,
            (blocks(f, i).len() + f(i).len()) as int,
        ) == f(i),
    decreases k,
{
    if i == k - 1 {
        assert(blocks(f, k).subrange(
            blocks(f, i).len() as int,
            (blocks(f, i).len() + f(i).len()) as int,
        ) =~= f(i));
    } else {
        lemma_block_at(f, i, k - 1);
        let inner = blocks(f, k - 1).subrange(
            blocks(f, i).len() as int,
            (blocks(f, i).len() + f(i).len()) as int,
        );
        assert(blocks(f, k).subrange(
            blocks(f, i).len() as int,
            (blocks(f, i).len() + f(i).len()) as int,
        ) =~= inner);
    }
}

/// Part `x..y` of the block of `data` at `at` is that part of the block.
pub proof fn lemma_part(data: Seq<u8>, at: int, block: Seq<u8>, x: int, y: int)
    requires
        0 <= at,
        at + block.len() <= data.len(),
        data.subrange(at, at + block.len()) == block,
        0 <= x <= y <= block.len(),
    ensures
        data.subrange(at + x, at + y) == block.subrange(x, y),
{
    let found = data.subrange(at, at + block.len());
    assert(data.subrange(at + x, at + y) =~= found.subrange(x, y));
}

/// A block of a table behind its header.
pub proof fn lemma_block_in_table(head: Seq<u8>, f: spec_fn(int) -> Seq<u8>, i: int, k: int)
    requires
        0 <= i < k,
    ensures
        head.len() + blocks(f, i).len() + f(i).len() <= (head + blocks(f, k)).len(),
        blocks(f, i + 1).len() == blocks(f, i).len() + f(i).len(),
        (head + blocks(f, k)).subrange(
            (head.len() + blocks(f, i).len()) as int,
            (head.len() + blocks(f, i).len() + f(i).len()) as int,
        ) == f(i),
{
    lemma_block_at(f, i, k);
    let from = blocks(f, i).len() as int;
    let inner = blocks(f, k).subrange(from, from + f(i).len());
    assert((head + blocks(f, k)).subrange(head.len() + from, head.len() + from + f(i).len())
        =~= inner);
}

/// The header of a table reads back.
proof fn lemma_header(magic: Seq<u8>, count: u64, rest: Seq<u8>)
    requires
        magic.len() == 8,
    ensures
        (magic + le_u64(count) + rest).len() == 16 + rest.len(),
        (magic + le_u64(count) + rest).take(8) == magic,
        table_count(magic + le_u64(count) + rest) == count,
{
    lemma_le_lengths();
    let data = magic + le_u64(count) + rest;
    assert(data.take(8) =~= magic);
    assert(data.subrange(8, 16) =~= le_u64(count));
    lemma_u64_reads_back(data, 8, count);
}

/// A block of a length, so many bytes, and `extra` bytes more.
spec fn is_record(block: Seq<u8>, plen: int, extra: int) -> bool {
    &&& 0 <= plen
    &&& block.len() == 8 + plen + extra
    &&& block.take(8) == le_u64(plen as u64)
}

/// Where the records of a table start whose record `i` is `f(i)`: the length
/// `plen(i)`, and `plen(i) + extra` bytes more.
proof fn lemma_record_offsets(
    head: Seq<u8>,
    f: spec_fn(int) -> Seq<u8>,
    plen: spec_fn(int) -> int,
    n: int,
    i: int,
    extra: int,
    truncated: IndexError,
)
    requires
        head.len() == HEADER_LEN,
        0 <= i <= n,
        (head + blocks(f, n)).len() <= usize::MAX,
        extra >= 0,
        forall|k: int| 0 <= k < n ==> #[trigger] is_record(f(k), plen(k), extra),
    ensures
        record_offsets(
            head + blocks(f, n),
            (HEADER_LEN + blocks(f, i).len()) as int,
            n - i,
            extra,
            truncated,
        ) == Ok::<Seq<u32>, IndexError>(
            Seq::new((n - i) as nat, |j: int| (HEADER_LEN + blocks(f, i + j).len()) as u32),
        ),
    decreases n - i,
{
    let data = head + blocks(f, n);
    let at = (HEADER_LEN + blocks(f, i).len()) as int;
    let offsets = Seq::new((n - i) as nat, |j: int| (HEADER_LEN + blocks(f, i + j).len()) as u32);
    if i == n {
        assert(offsets =~= Seq::empty());
    } else {
        assert(is_record(f(i), plen(i), extra));
        lemma_block_in_table(head, f, i, n);
        lemma_part(data, at, f(i), 0, 8);
        assert(f(i).subrange(0, 8) =~= f(i).take(8));
        assert(plen(i) <= usize::MAX);
        lemma_u64_reads_back(data, at, plen(i) as u64);
        lemma_record_offsets(head, f, plen, n, i + 1, extra, truncated);
        let rest = Seq::new(
            (n - i - 1) as nat,
            |j: int| (HEADER_LEN + blocks(f, i + 1 + j).len()) as u32,
        );
        assert(offsets =~= seq![at as u32] + rest);
    }
}

spec fn path_block(entries: Seq<EntryView>) -> spec_fn(int) -> Seq<u8> {
    |i: int| path_record(entries[i])
}

spec fn meta_block(entries: Seq<EntryView>) -> spec_fn(int) -> Seq<u8> {
    |i: int| meta_record(entries[i])
}

spec fn path_length(entries: Seq<EntryView>) -> spec_fn(int) -> int {
    |i: int| stored_path(entries[i].path).len() as int
}

proof fn lemma_entry_blocks(entries: Seq<EntryView>, k: int)
    ensures
        path_records(entries, k) == blocks(path_block(entries), k),
        meta_records(entries, k) == blocks(meta_block(entries), k),
    decreases k,
{
    if k > 0 {
        lemma_entry_blocks(entries, k - 1);
    }
}

/// The file tables are small enough for 32-bit offsets.
pub open spec fn entries_fit(entries: Seq<EntryView>) -> bool {
    files_table(entries).len() <= u32::MAX && meta_table(entries).len() <= u32::MAX
}

/// The offsets of the records of the two file tables.
spec fn path_offsets(entries: Seq<EntryView>) -> Seq<u32> {
    Seq::new(entries.len(), |j: int| (HEADER_LEN + blocks(path_block(entries), j).len()) as u32)
}

spec fn meta_offsets(entries: Seq<EntryView>) -> Seq<u32> {
    Seq::new(entries.len(), |j: int| (HEADER_LEN + blocks(meta_block(entries), j).len()) as u32)
}

/// The two file tables can be held in memory.
pub open spec fn entries_can_be_held(entries: Seq<EntryView>) -> bool {
    files_table(entries).len() <= usize::MAX && meta_table(entries).len() <= usize::MAX
}

/// The two file tables open.
proof fn lemma_file_tables_open(entries: Seq<EntryView>)
    requires
        entries_can_be_held(entries),
    ensures
        record_offsets(
            files_table(entries),
            HEADER_LEN as int,
            table_count(files_table(entries)) as int,
            0,
            IndexError::FilesTruncated,
        ) == Ok::<Seq<u32>, IndexError>(path_offsets(entries)),
        record_offsets(
            meta_table(entries),
            HEADER_LEN as int,
            table_count(meta_table(entries)) as int,
            16,
            IndexError::MetaTruncated,
        ) == Ok::<Seq<u32>, IndexError>(meta_offsets(entries)),
{
    let n = entries.len() as int;
    let (pf, mf, plen) = (path_block(entries), meta_block(entries), path_length(entries));
    let phead = FILES_HEADER@ + le_u64(entries.len() as u64);
    let mhead = META_HEADER@ + le_u64(entries.len() as u64);
    lemma_le_lengths();
    lemma_entry_blocks(entries, n);
    lemma_header(FILES_HEADER@, entries.len() as u64, path_records(entries, n));
    lemma_header(META_HEADER@, entries.len() as u64, meta_records(entries, n));
    assert forall|k: int| 0 <= k < n implies #[trigger] is_record(pf(k), plen(k), 0) by {
        assert(pf(k).take(8) =~= le_u64(plen(k) as u64));
    }
    assert forall|k: int| 0 <= k < n implies #[trigger] is_record(mf(k), plen(k), 16) by {
        assert(mf(k).take(8) =~= le_u64(plen(k) as u64));
    }
    lemma_entries_count(entries, n);
    lemma_record_offsets(phead, pf, plen, n, 0, 0, IndexError::FilesTruncated);
    lemma_record_offsets(mhead, mf, plen, n, 0, 16, IndexError::MetaTruncated);
    assert(path_offsets(entries) =~= Seq::new(
        (n - 0) as nat,
        |j: int| (HEADER_LEN + blocks(pf, 0 + j).len()) as u32,
    ));
    assert(meta_offsets(entries) =~= Seq::new(
        (n - 0) as nat,
        |j: int| (HEADER_LEN + blocks(mf, 0 + j).len()) as u32,
    ));
}

/// The two file tables give each entry back.
proof fn lemma_file_tables(entries: Seq<EntryView>, index: IndexView)
    requires
        entries_fit(entries),
        index.files == files_table(entries),
        index.meta == meta_table(entries),
        index.file_offsets == path_offsets(entries),
        index.meta_offsets == meta_offsets(entries),
    ensures
        forall|i: int|
            0 <= i < entries.len() ==> #[trigger] path_of(index, i) == Some(
                stored_path(entries[i].path),
            ),
        forall|i: int|
            0 <= i < entries.len() ==> #[trigger] meta_of(index, i) == Some(
                (entries[i].mtime, entries[i].size),
            ),
{
    let n = entries.len() as int;
    let (pf, mf) = (path_block(entries), meta_block(entries));
    let phead = FILES_HEADER@ + le_u64(entries.len() as u64);
    let mhead = META_HEADER@ + le_u64(entries.len() as u64);
    lemma_le_lengths();
    lemma_entry_blocks(entries, n);
    lemma_header(FILES_HEADER@, entries.len() as u64, path_records(entries, n));
    lemma_header(META_HEADER@, entries.len() as u64, meta_records(entries, n));
    assert forall|i: int| 0 <= i < n implies #[trigger] path_of(index, i) == Some(
        stored_path(entries[i].path),
    ) by {
        let at = HEADER_LEN + blocks(pf, i).len();
        let stored = stored_path(entries[i].path);
        lemma_block_in_table(phead, pf, i, n);
        lemma_part(index.files, at, pf(i), 0, 8);
        lemma_part(index.files, at, pf(i), 8, 8 + stored.len() as int);
        assert(pf(i).subrange(0, 8) =~= le_u64(stored.len() as u64));
        assert(pf(i).subrange(8, 8 + stored.len() as int) =~= stored);
        lemma_u64_reads_back(index.files, at, stored.len() as u64);
    }
    assert forall|i: int| 0 <= i < n implies #[trigger] meta_of(index, i) == Some(
        (entries[i].mtime, entries[i].size),
    ) by {
        let at = HEADER_LEN + blocks(mf, i).len();
        let stored = stored_path(entries[i].path);
        let after = 8 + stored.len() as int;
        lemma_block_in_table(mhead, mf, i, n);
        lemma_part(index.meta, at, mf(i), 0, 8);
        lemma_part(index.meta, at, mf(i), after, after + 8);
        lemma_part(index.meta, at, mf(i), after + 8, after + 16);
        assert(mf(i).subrange(0, 8) =~= le_u64(stored.len() as u64));
        assert(mf(i).subrange(after, after + 8) =~= le_u64(entries[i].mtime));
        assert(mf(i).subrange(after + 8, after + 16) =~= le_u64(entries[i].size));
        lemma_u64_reads_back(index.meta, at, stored.len() as u64);
        lemma_u64_reads_back(index.meta, at + after, entries[i].mtime);
        lemma_u64_reads_back(index.meta, at + after + 8, entries[i].size);
    }
}

/// Each record has at least eight bytes.
proof fn lemma_entries_count(entries: Seq<EntryView>, k: int)
    requires
        0 <= k <= entries.len(),
    ensures
        path_records(entries, k).len() >= 8 * k,
    decreases k,
{
    lemma_le_lengths();
    if k > 0 {
        lemma_entries_count(entries, k - 1);
    }
}

spec fn id_block(ids: Seq<u32>) -> spec_fn(int) -> Seq<u8> {
    |i: int| le_u32(ids[i])
}

spec fn list_block(lists: Seq<(u64, Seq<u32>)>) -> spec_fn(int) -> Seq<u8> {
    |i: int| le_u32(lists[i].1.len() as u32) + ids_bytes(lists[i].1)
}

spec fn lookup_block(lists: Seq<(u64, Seq<u32>)>) -> spec_fn(int) -> Seq<u8> {
    |i: int| le_u64(lists[i].0) + le_u64(list_offset(lists, i) as u64)
}

proof fn lemma_id_blocks(ids: Seq<u32>, k: int)
    requires
        0 <= k <= ids.len(),
    ensures
        ids_bytes(ids.take(k)) == blocks(id_block(ids), k),
        blocks(id_block(ids), k).len() == 4 * k,
    decreases k,
{
    lemma_le_lengths();
    if k > 0 {
        lemma_id_blocks(ids, k - 1);
        assert(ids.take(k).drop_last() =~= ids.take(k - 1));
    }
}

proof fn lemma_list_blocks(lists: Seq<(u64, Seq<u32>)>, k: int)
    requires
        0 <= k <= lists.len(),
    ensures
        lists_bytes(lists, k) == blocks(list_block(lists), k),
        lookup_entries(lists, k) == blocks(lookup_block(lists), k),
        blocks(lookup_block(lists), k).len() == ENTRY_LEN * k,
        list_offset(lists, k) == POSTINGS_DATA_OFFSET + blocks(list_block(lists), k).len(),
    decreases k,
{
    lemma_le_lengths();
    if k > 0 {
        lemma_list_blocks(lists, k - 1);
        let ids = lists[k - 1].1;
        lemma_id_blocks(ids, ids.len() as int);
        assert(ids.take(ids.len() as int) =~= ids);
    }
}

/// A posting list reads back from where the lookup table says it is.
proof fn lemma_list_reads_back(postings: Seq<Posting>, k: int)
    requires
        0 <= k < posting_lists(postings).len(),
        posting_lists(postings)[k].1.len() <= u32::MAX,
    ensures
        list_at(postings_table(postings), list_offset(posting_lists(postings), k))
            == posting_lists(postings)[k].1,
        POSTINGS_DATA_OFFSET <= list_offset(posting_lists(postings), k),
        list_offset(posting_lists(postings), k) < postings_table(postings).len(),
{
    let lists = posting_lists(postings);
    let n = lists.len() as int;
    let ids = lists[k].1;
    let f = list_block(lists);
    let g = id_block(ids);
    let head = POSTINGS_HEADER@ + le_u64(lists.len() as u64) + le_u64(postings.len() as u64);
    let data = postings_table(postings);
    let at = list_offset(lists, k);
    lemma_le_lengths();
    lemma_list_blocks(lists, n);
    lemma_list_blocks(lists, k);
    lemma_block_in_table(head, f, k, n);
    lemma_id_blocks(ids, ids.len() as int);
    assert(ids.take(ids.len() as int) =~= ids);
    assert(f(k).len() == 4 + 4 * ids.len());
    lemma_part(data, at, f(k), 0, 4);
    assert(f(k).subrange(0, 4) =~= le_u32(ids.len() as u32));
    lemma_u32_reads_back(data, at, ids.len() as u32);
    assert forall|i: int| 0 <= i < ids.len() implies u32_in(data, at + 4 + 4 * i) == #[trigger] ids[i] by {
        lemma_id_blocks(ids, i);
        lemma_block_at(g, i, ids.len() as int);
        lemma_part(data, at, f(k), 4 + 4 * i, 8 + 4 * i);
        assert(f(k).subrange(4 + 4 * i, 8 + 4 * i) =~= ids_bytes(ids).subrange(4 * i, 4 * i + 4));
        lemma_u32_reads_back(data, at + 4 + 4 * i, ids[i]);
    }
    assert(list_at(data, at) =~= ids);
}

/// A lookup entry reads back.
proof fn lemma_lookup_reads_back(postings: Seq<Posting>, k: int)
    requires
        0 <= k < posting_lists(postings).len(),
        list_offset(posting_lists(postings), k) <= u64::MAX,
    ensures
        lookup_key(lookup_table(postings), k) == posting_lists(postings)[k].0,
        lookup_value(lookup_table(postings), k) == list_offset(posting_lists(postings), k),
{
    let lists = posting_lists(postings);
    let n = lists.len() as int;
    let f = lookup_block(lists);
    let head = LOOKUP_HEADER@ + le_u64(lists.len() as u64);
    let data = lookup_table(postings);
    let at = HEADER_LEN + k * ENTRY_LEN;
    lemma_le_lengths();
    lemma_list_blocks(lists, n);
    lemma_list_blocks(lists, k);
    lemma_block_in_table(head, f, k, n);
    lemma_part(data, at, f(k), 0, 8);
    lemma_part(data, at, f(k), 8, 16);
    assert(f(k).subrange(0, 8) =~= le_u64(lists[k].0));
    assert(f(k).subrange(8, 16) =~= le_u64(list_offset(lists, k) as u64));
    lemma_list_blocks(lists, k);
    lemma_u64_reads_back(data, at, lists[k].0);
    lemma_u64_reads_back(data, at + 8, list_offset(lists, k) as u64);
}

/// Ids in a list are increasing.
pub open spec fn ids_increasing(ids: Seq<u32>) -> bool {
    forall|i: int, j: int| 0 <= i < j < ids.len() ==> #[trigger] ids[i] < #[trigger] ids[j]
}

/// The posting lists of sorted postings without repeats: keys increase from
/// list to list and ids within each, and the lists hold just the postings.
proof fn lemma_lists_of_sorted(s: Seq<Posting>)
    requires
        is_sorted(s),
        s.no_duplicates(),
    ensures
        forall|i: int, j: int|
            0 <= i < j < posting_lists(s).len() ==> (#[trigger] posting_lists(s)[i]).0 < (
            #[trigger] posting_lists(s)[j]).0,
        forall|k: int|
            0 <= k < posting_lists(s).len() ==> ids_increasing(
                (#[trigger] posting_lists(s)[k]).1,
            ),
        forall|k: int, id: u32|
            0 <= k < posting_lists(s).len() ==> ((#[trigger] posting_lists(s)[k].1.contains(id))
                <==> s.contains(Posting { gram: posting_lists(s)[k].0, file_id: id })),
        forall|p: Posting|
            #[trigger] s.contains(p) ==> exists|k: int|
                0 <= k < posting_lists(s).len() && (#[trigger] posting_lists(s)[k]).0 == p.gram,
    decreases s.len(),
{
    if s.len() > 0 {
        let init = s.drop_last();
        let last = s.last();
        let before = posting_lists(init);
        let lists = posting_lists(s);
        let n = before.len() as int;
        lemma_lists_of_sorted(init);
        assert forall|p: Posting| init.contains(p) implies p.before(&last) by {
            let i = init.index_of(p);
            assert(s[i] == p);
            assert(!s[s.len() - 1].before(&s[i]));
            assert(s[i] != s[s.len() - 1]);
        }
        assert forall|p: Posting| s.contains(p) <==> (init.contains(p) || p == last) by {
            if s.contains(p) {
                let i = s.index_of(p);
                if i < init.len() {
                    assert(init[i] == p);
                }
            }
            if init.contains(p) {
                assert(s[init.index_of(p)] == p);
            }
            if p == last {
                assert(s[s.len() - 1] == p);
            }
        }
        // Every list so far has at least one posting.
        lemma_lists_not_empty(init);
        assert forall|k: int| 0 <= k < n implies (#[trigger] before[k]).0 <= last.gram by {
            let id = before[k].1[0];
            assert(before[k].1.contains(id));
            assert(init.contains(Posting { gram: before[k].0, file_id: id }));
        }
        if n > 0 && before.last().0 == last.gram {
            let ids = before.last().1;
            assert forall|i: int| 0 <= i < ids.len() implies #[trigger] ids[i] < last.file_id by {
                assert(ids.contains(ids[i]));
                assert(before[n - 1].1.contains(ids[i]));
                assert(init.contains(Posting { gram: before[n - 1].0, file_id: ids[i] }));
            }
            assert forall|k: int, id: u32|
                0 <= k < lists.len() implies ((#[trigger] lists[k].1.contains(id)) <==> s.contains(
                Posting { gram: lists[k].0, file_id: id },
            )) by {
                assert(before[k].1.contains(id) <==> init.contains(
                    Posting { gram: before[k].0, file_id: id },
                ));
                if k == n - 1 {
                    let grown = ids.push(last.file_id);
                    assert(grown[ids.len() as int] == last.file_id);
                    if ids.contains(id) {
                        assert(grown[ids.index_of(id)] == id);
                    }
                    if grown.contains(id) && id != last.file_id {
                        assert(ids[grown.index_of(id)] == id);
                    }
                } else {
                    assert(before[k].0 < before[n - 1].0);
                }
            }
            assert forall|p: Posting| #[trigger] s.contains(p) implies exists|k: int|
                0 <= k < lists.len() && (#[trigger] lists[k]).0 == p.gram by {
                if p == last {
                    assert(lists[n - 1].0 == p.gram);
                } else {
                    assert(init.contains(p));
                    let k = choose|k: int| 0 <= k < n && (#[trigger] before[k]).0 == p.gram;
                    assert(lists[k].0 == p.gram);
                }
            }
        } else {
            assert forall|k: int| 0 <= k < n implies (#[trigger] before[k]).0 < last.gram by {
                if before[k].0 == last.gram && k < n - 1 {
                    assert(before[k].0 < before[n - 1].0);
                }
            }
            assert forall|k: int, id: u32|
                0 <= k < lists.len() implies ((#[trigger] lists[k].1.contains(id)) <==> s.contains(
                Posting { gram: lists[k].0, file_id: id },
            )) by {
                if k < n {
                    assert(lists[k] == before[k]);
                    assert(before[k].1.contains(id) <==> init.contains(
                        Posting { gram: before[k].0, file_id: id },
                    ));
                } else {
                    let one = seq![last.file_id];
                    assert(one[0] == last.file_id);
                    if init.contains(Posting { gram: last.gram, file_id: id }) {
                        let p = Posting { gram: last.gram, file_id: id };
                        let j = choose|j: int| 0 <= j < n && (#[trigger] before[j]).0 == p.gram;
                        assert(before[j].0 < last.gram);
                    }
                }
            }
            assert forall|p: Posting| #[trigger] s.contains(p) implies exists|k: int|
                0 <= k < lists.len() && (#[trigger] lists[k]).0 == p.gram by {
                if p == last {
                    assert(lists[n].0 == p.gram);
                } else {
                    assert(init.contains(p));
                    let k = choose|k: int| 0 <= k < n && (#[trigger] before[k]).0 == p.gram;
                    assert(lists[k].0 == p.gram);
                }
            }
        }
    }
}

proof fn lemma_lists_not_empty(s: Seq<Posting>)
    ensures
        forall|k: int|
            0 <= k < posting_lists(s).len() ==> (#[trigger] posting_lists(s)[k]).1.len() > 0,
        posting_lists(s).len() <= s.len(),
    decreases s.len(),
{
    if s.len() > 0 {
        lemma_lists_not_empty(s.drop_last());
    }
}

/// Where a search ends among increasing keys.
proof fn lemma_search_sorted(lookup: Seq<u8>, key: u64, lo: int, hi: int)
    requires
        0 <= lo <= hi,
        forall|i: int, j: int|
            lo <= i < j < hi ==> #[trigger] lookup_key(lookup, i) < #[trigger] lookup_key(
                lookup,
                j,
            ),
    ensures
        lo <= search_position(lookup, key, lo, hi) <= hi,
        forall|i: int|
            lo <= i < search_position(lookup, key, lo, hi) ==> #[trigger] lookup_key(lookup, i)
                < key,
        forall|i: int|
            search_position(lookup, key, lo, hi) <= i < hi ==> #[trigger] lookup_key(lookup, i)
                >= key,
    decreases hi - lo,
{
    if lo < hi {
        let mid = (lo + hi) / 2;
        if lookup_key(lookup, mid) < key {
            lemma_search_sorted(lookup, key, mid + 1, hi);
            assert forall|i: int| lo <= i <= mid implies #[trigger] lookup_key(lookup, i) < key by {
                if i < mid {
                    assert(lookup_key(lookup, i) < lookup_key(lookup, mid));
                }
            }
        } else {
            lemma_search_sorted(lookup, key, lo, mid);
            assert forall|i: int| mid <= i < hi implies #[trigger] lookup_key(lookup, i) >= key by {
                if mid < i {
                    assert(lookup_key(lookup, mid) < lookup_key(lookup, i));
                }
            }
        }
    }
}

/// The records fit the limits of the tables: file ids and counts 32 bits,
/// offsets 32 bits in the file tables and 64 bits in the postings table. The
/// keys of each are increasing, as those of every processed file are.
pub open spec fn records_fit(records: Seq<RecordView>) -> bool {
    &&& records.len() <= u32::MAX
    &&& all_postings(records).len() <= MAX_POSTINGS
    &&& entries_fit(record_entries(records))
    &&& forall|i: int| 0 <= i < records.len() ==> is_increasing((#[trigger] records[i]).grams)
}

/// The index knows exactly these files: their stored paths, times and sizes,
/// and for each key the increasing ids of the files that have it.
pub open spec fn holds_records(index: IndexView, records: Seq<RecordView>) -> bool {
    &&& index.file_offsets.len() == records.len()
    &&& forall|i: int|
        0 <= i < records.len() ==> #[trigger] path_of(index, i) == Some(
            stored_path(records[i].path),
        )
    &&& forall|i: int|
        0 <= i < records.len() ==> #[trigger] meta_of(index, i) == Some(
            (records[i].mtime, records[i].size),
        )
    &&& forall|key: u64| ids_increasing(#[trigger] postings_of(index, key))
    &&& forall|key: u64, id: u32| #[trigger]
        postings_of(index, key).contains(id) <==> id < records.len()
            && records[id as int].grams.contains(key)
    &&& forall|key: u64|
        (#[trigger] offset_of(index.lookup, key)) is Some <==> postings_of(index, key).len() > 0
    &&& table_count(index.lookup) == posting_lists(sorted(all_postings(records))).len()
    &&& u64_in(index.postings, 16) == all_postings(records).len()
}

/// What the postings of all files are.
proof fn lemma_all_postings(records: Seq<RecordView>)
    requires
        records.len() <= u32::MAX,
        forall|i: int| 0 <= i < records.len() ==> is_increasing((#[trigger] records[i]).grams),
    ensures
        all_postings(records).no_duplicates(),
        forall|p: Posting| #[trigger]
            all_postings(records).contains(p) <==> p.file_id < records.len()
                && records[p.file_id as int].grams.contains(p.gram),
    decreases records.len(),
{
    if records.len() > 0 {
        let init = records.drop_last();
        let last = records.last();
        let id = (records.len() - 1) as u32;
        let a = all_postings(init);
        let b = record_postings(last.grams, id);
        let all = all_postings(records);
        assert forall|i: int| 0 <= i < init.len() implies is_increasing(
            (#[trigger] init[i]).grams,
        ) by {
            assert(init[i] == records[i]);
        }
        lemma_all_postings(init);
        assert(all == a + b);
        assert(is_increasing(records[records.len() - 1].grams));
        assert forall|p: Posting| #[trigger] all.contains(p) <==> p.file_id < records.len()
            && records[p.file_id as int].grams.contains(p.gram) by {
            if all.contains(p) {
                let k = all.index_of(p);
                if k < a.len() {
                    assert(a[k] == p);
                    assert(a.contains(p));
                    assert(records[p.file_id as int] == init[p.file_id as int]);
                } else {
                    assert(b[k - a.len()] == p);
                    assert(last.grams[k - a.len()] == p.gram);
                }
            }
            if p.file_id < records.len() && records[p.file_id as int].grams.contains(p.gram) {
                if p.file_id < init.len() {
                    assert(init[p.file_id as int] == records[p.file_id as int]);
                    assert(a.contains(p));
                    assert(all[a.index_of(p)] == p);
                } else {
                    let k = last.grams.index_of(p.gram);
                    assert(b[k] == p);
                    assert(all[a.len() + k] == p);
                }
            }
        }
        assert forall|i: int, j: int| 0 <= i < all.len() && 0 <= j < all.len() && i != j implies all[i]
            != all[j] by {
            if i < a.len() && j < a.len() {
                assert(all[i] == a[i] && all[j] == a[j]);
            } else if i >= a.len() && j >= a.len() {
                let (x, y) = (i - a.len(), j - a.len());
                assert(all[i] == b[x] && all[j] == b[y]);
                if x < y {
                    assert(last.grams[x] < last.grams[y]);
                } else {
                    assert(last.grams[y] < last.grams[x]);
                }
            } else {
                let k = if i < a.len() {
                    i
                } else {
                    j
                };
                assert(all[k] == a[k]);
                assert(a.contains(a[k]));
            }
        }
    }
}

proof fn lemma_increasing_ids_few(ids: Seq<u32>, n: int, k: int)
    requires
        ids_increasing(ids),
        forall|i: int| 0 <= i < ids.len() ==> (#[trigger] ids[i]) < n,
        0 <= k <= ids.len(),
        0 <= n,
    ensures
        k > 0 ==> ids[k - 1] >= k - 1,
        k == ids.len() ==> ids.len() <= n,
    decreases k,
{
    if k > 1 {
        lemma_increasing_ids_few(ids, n, k - 1);
        assert(ids[k - 2] < ids[k - 1]);
    }
    if k > 0 {
        assert(ids[k - 1] < n);
    }
}

/// What was built opens, and the opened index knows exactly the files that
/// went in. A key leads to a file if and only if the file has it: a collision
/// of keys can only add files to a list, never take one away.
pub proof fn built_index_opens(records: Seq<RecordView>)
    requires
        records_fit(records),
    ensures
        ({
            let t = record_tables(records);
            match open_tables(t.lookup, t.postings, t.files, t.meta) {
                Ok(index) => holds_records(index, records) && index.lookup == t.lookup
                    && index.postings == t.postings && index.files == t.files && index.meta
                    == t.meta,
                Err(_) => false,
            }
        }),
{
    let entries = record_entries(records);
    let flat = all_postings(records);
    let s = sorted(flat);
    let lists = posting_lists(s);
    let n = lists.len() as int;
    let t = record_tables(records);
    let index = IndexView {
        lookup: t.lookup,
        postings: t.postings,
        files: t.files,
        meta: t.meta,
        file_offsets: path_offsets(entries),
        meta_offsets: meta_offsets(entries),
    };
    lemma_all_postings(records);
    sorted_is_sorted(flat);
    sorted_keeps_the_items(flat);
    flat.lemma_multiset_has_no_duplicates();
    s.lemma_multiset_has_no_duplicates_conv();
    lemma_lists_of_sorted(s);
    lemma_lists_not_empty(s);
    lemma_file_tables_open(entries);
    lemma_file_tables(entries, index);
    lemma_le_lengths();
    // Each list is short, so its count fits.
    assert forall|k: int| 0 <= k < n implies (#[trigger] lists[k]).1.len() <= u32::MAX by {
        let ids = lists[k].1;
        assert forall|i: int| 0 <= i < ids.len() implies (#[trigger] ids[i]) < records.len() by {
            assert(ids.contains(ids[i]));
            assert(lists[k].1.contains(ids[i]));
            assert(s.contains(Posting { gram: lists[k].0, file_id: ids[i] }));
            assert(flat.contains(Posting { gram: lists[k].0, file_id: ids[i] }));
        }
        lemma_increasing_ids_few(ids, records.len() as int, ids.len() as int);
    }
    lemma_offsets_fit(s);
    // The headers.
    lemma_list_blocks(lists, n);
    lemma_header(LOOKUP_HEADER@, lists.len() as u64, lookup_entries(lists, n));
    let rest = le_u64(s.len() as u64) + lists_bytes(lists, n);
    lemma_header(POSTINGS_HEADER@, lists.len() as u64, rest);
    assert(t.postings =~= POSTINGS_HEADER@ + le_u64(lists.len() as u64) + rest);
    assert(t.postings.subrange(16, 24) =~= le_u64(s.len() as u64));
    lemma_u64_reads_back(t.postings, 16, s.len() as u64);
    lemma_header(FILES_HEADER@, entries.len() as u64, path_records(entries, entries.len() as int));
    lemma_header(META_HEADER@, entries.len() as u64, meta_records(entries, entries.len() as int));
    assert forall|k: int| 0 <= k < n implies #[trigger] lookup_key(t.lookup, k) == lists[k].0
        && lookup_value(t.lookup, k) == list_offset(lists, k) && list_at(
        t.postings,
        list_offset(lists, k),
    ) == lists[k].1 && POSTINGS_DATA_OFFSET <= list_offset(lists, k) < t.postings.len() by {
        assert(lists[k].1.len() <= u32::MAX);
        lemma_offset_monotone(lists, k, n);
        lemma_list_reads_back(s, k);
        lemma_lookup_reads_back(s, k);
    }
    if n > 0 {
        assert(lookup_key(t.lookup, 0) == lists[0].0);
        assert(lookup_key(t.lookup, n - 1) == lists[n - 1].0);
    }
    assert(index.file_offsets.len() == records.len());
    assert(open_tables(t.lookup, t.postings, t.files, t.meta) == Ok::<IndexView, IndexError>(index));
    assert forall|i: int| 0 <= i < records.len() implies #[trigger] path_of(index, i) == Some(
        stored_path(records[i].path),
    ) by {
        assert(entries[i].path == records[i].path);
    }
    assert forall|i: int| 0 <= i < records.len() implies #[trigger] meta_of(index, i) == Some(
        (records[i].mtime, records[i].size),
    ) by {
        assert(entries[i].mtime == records[i].mtime);
    }
    assert forall|p: Posting| #[trigger]
        s.contains(p) <==> p.file_id < records.len() && records[p.file_id as int].grams.contains(
            p.gram,
        ) by {
        assert(s.contains(p) <==> flat.contains(p));
    }
    assert forall|key: u64|
        #![trigger postings_of(index, key)]
        ids_increasing(postings_of(index, key)) && (offset_of(index.lookup, key) is Some
            <==> postings_of(index, key).len() > 0) && forall|id: u32| #[trigger]
            postings_of(index, key).contains(id) <==> id < records.len()
                && records[id as int].grams.contains(key) by {
        lemma_key_found(index, records, s, key);
    }
}

/// The offsets of the lists of so few postings fit 64 bits.
proof fn lemma_offsets_fit(s: Seq<Posting>)
    requires
        s.len() <= MAX_POSTINGS,
    ensures
        list_offset(posting_lists(s), posting_lists(s).len() as int) <= u64::MAX,
        postings_table(s).len() == list_offset(posting_lists(s), posting_lists(s).len() as int),
        POSTINGS_DATA_OFFSET + 4 * posting_lists(s).len() + 4 * s.len() <= u64::MAX,
        postings_table(s).len() >= POSTINGS_DATA_OFFSET + 4 * posting_lists(s).len() + 4 * s.len(),
{
    let lists = posting_lists(s);
    lemma_le_lengths();
    lemma_list_blocks(lists, lists.len() as int);
    lemma_lists_not_empty(s);
    lemma_total_offset(s);
}

/// The lists take four bytes each and four for each posting.
proof fn lemma_total_offset(s: Seq<Posting>)
    ensures
        list_offset(posting_lists(s), posting_lists(s).len() as int) == POSTINGS_DATA_OFFSET + 4
            * posting_lists(s).len() + 4 * s.len(),
    decreases s.len(),
{
    if s.len() > 0 {
        let init = s.drop_last();
        let before = posting_lists(init);
        let lists = posting_lists(s);
        let n = before.len() as int;
        lemma_total_offset(init);
        if n > 0 && before.last().0 == s.last().gram {
            lemma_same_offset(before, lists, n - 1);
        } else {
            lemma_same_offset(before, lists, n);
        }
    }
}

proof fn lemma_same_offset(a: Seq<(u64, Seq<u32>)>, b: Seq<(u64, Seq<u32>)>, k: int)
    requires
        forall|i: int| 0 <= i < k ==> #[trigger] a[i] == b[i],
    ensures
        list_offset(a, k) == list_offset(b, k),
    decreases k,
{
    if k > 0 {
        lemma_same_offset(a, b, k - 1);
        assert(a[k - 1] == b[k - 1]);
    }
}

proof fn lemma_offset_monotone(lists: Seq<(u64, Seq<u32>)>, i: int, j: int)
    requires
        i <= j,
    ensures
        list_offset(lists, i) <= list_offset(lists, j),
    decreases j - i,
{
    if i < j {
        lemma_offset_monotone(lists, i, j - 1);
    }
}

/// What the opened index says of one key.
proof fn lemma_key_found(
    index: IndexView,
    records: Seq<RecordView>,
    s: Seq<Posting>,
    key: u64,
)
    requires
        records.len() <= u32::MAX,
        is_sorted(s),
        s.no_duplicates(),
        forall|p: Posting| #[trigger]
            s.contains(p) <==> p.file_id < records.len() && records[p.file_id as int].grams.contains(
                p.gram,
            ),
        table_count(index.lookup) == posting_lists(s).len(),
        forall|k: int|
            0 <= k < posting_lists(s).len() ==> #[trigger] lookup_key(index.lookup, k)
                == posting_lists(s)[k].0 && list_at(
                index.postings,
                lookup_value(index.lookup, k) as int,
            ) == posting_lists(s)[k].1,
    ensures
        ids_increasing(postings_of(index, key)),
        offset_of(index.lookup, key) is Some <==> postings_of(index, key).len() > 0,
        forall|id: u32| #[trigger]
            postings_of(index, key).contains(id) <==> id < records.len()
                && records[id as int].grams.contains(key),
{
    let lists = posting_lists(s);
    let n = lists.len() as int;
    let k = search_position(index.lookup, key, 0, n);
    lemma_lists_of_sorted(s);
    lemma_lists_not_empty(s);
    assert forall|i: int, j: int| 0 <= i < j < n implies #[trigger] lookup_key(index.lookup, i)
        < #[trigger] lookup_key(index.lookup, j) by {
        assert(lists[i].0 < lists[j].0);
    }
    lemma_search_sorted(index.lookup, key, 0, n);
    assert forall|id: u32| #[trigger]
        postings_of(index, key).contains(id) <==> id < records.len()
            && records[id as int].grams.contains(key) by {
        let p = Posting { gram: key, file_id: id };
        if k < n && lookup_key(index.lookup, k) == key {
            assert(lists[k].1.contains(id) <==> s.contains(p));
        } else {
            if s.contains(p) {
                let j = choose|j: int| 0 <= j < n && (#[trigger] lists[j]).0 == p.gram;
                assert(lookup_key(index.lookup, j) == key);
                if k < j {
                    assert(lookup_key(index.lookup, k) < lookup_key(index.lookup, j));
                }
            }
        }
    }
}

/// A table cut off before its end has no complete list of records.
proof fn lemma_record_offsets_cut(
    head: Seq<u8>,
    f: spec_fn(int) -> Seq<u8>,
    plen: spec_fn(int) -> int,
    n: int,
    i: int,
    extra: int,
    truncated: IndexError,
    m: int,
)
    requires
        head.len() == HEADER_LEN,
        0 <= i <= n,
        HEADER_LEN + blocks(f, i).len() <= m < (head + blocks(f, n)).len() <= u64::MAX,
        extra >= 0,
        forall|k: int| 0 <= k < n ==> #[trigger] is_record(f(k), plen(k), extra),
    ensures
        record_offsets(
            (head + blocks(f, n)).take(m),
            (HEADER_LEN + blocks(f, i).len()) as int,
            n - i,
            extra,
            truncated,
        ) is Err,
    decreases n - i,
{
    let data = head + blocks(f, n);
    let cut = data.take(m);
    let at = (HEADER_LEN + blocks(f, i).len()) as int;
    if i < n && at + 8 <= m {
        assert(is_record(f(i), plen(i), extra));
        lemma_block_in_table(head, f, i, n);
        lemma_part(data, at, f(i), 0, 8);
        assert(f(i).subrange(0, 8) =~= f(i).take(8));
        assert(cut.subrange(at, at + 8) =~= data.subrange(at, at + 8));
        lemma_u64_reads_back(cut, at, plen(i) as u64);
        if at + f(i).len() <= m {
            lemma_record_offsets_cut(head, f, plen, n, i + 1, extra, truncated, m);
        }
    }
}

/// Tables of which one starts with anything but its magic, the previous lookup
/// magic included, do not open.
pub proof fn other_magic_is_rejected(
    lookup: Seq<u8>,
    postings: Seq<u8>,
    files: Seq<u8>,
    meta: Seq<u8>,
)
    ensures
        lookup.take(8) != LOOKUP_HEADER@ || postings.take(8) != POSTINGS_HEADER@ || files.take(8)
            != FILES_HEADER@ || meta.take(8) != META_HEADER@ ==> open_tables(
            lookup,
            postings,
            files,
            meta,
        ) == Err::<IndexView, IndexError>(IndexError::BadMagic),
        has_magic(lookup, STALE_LOOKUP_HEADER@) ==> open_tables(lookup, postings, files, meta)
            == Err::<IndexView, IndexError>(IndexError::BadMagic),
{
    assert(LOOKUP_HEADER@[7] == 50 && STALE_LOOKUP_HEADER@[7] == 49);
}

/// The tables of the records can be held in memory, and offsets into the
/// postings table fit 64 bits.
pub open spec fn tables_can_be_held(records: Seq<RecordView>) -> bool {
    &&& all_postings(records).len() <= MAX_POSTINGS
    &&& entries_can_be_held(record_entries(records))
}

/// Whatever was built opens.
pub proof fn built_index_is_accepted(records: Seq<RecordView>)
    requires
        tables_can_be_held(records),
    ensures
        ({
            let t = record_tables(records);
            open_tables(t.lookup, t.postings, t.files, t.meta) is Ok
        }),
{
    let entries = record_entries(records);
    let flat = all_postings(records);
    let s = sorted(flat);
    let lists = posting_lists(s);
    let n = lists.len() as int;
    let e = entries.len() as int;
    let t = record_tables(records);
    lemma_le_lengths();
    sorted_keeps_the_items(flat);
    lemma_file_tables_open(entries);
    lemma_list_blocks(lists, n);
    lemma_offsets_fit(s);
    lemma_lists_not_empty(s);
    lemma_header(LOOKUP_HEADER@, lists.len() as u64, lookup_entries(lists, n));
    let rest = le_u64(s.len() as u64) + lists_bytes(lists, n);
    lemma_header(POSTINGS_HEADER@, lists.len() as u64, rest);
    assert(t.postings =~= POSTINGS_HEADER@ + le_u64(lists.len() as u64) + rest);
    assert(t.postings.subrange(16, 24) =~= le_u64(s.len() as u64));
    lemma_u64_reads_back(t.postings, 16, s.len() as u64);
    lemma_header(FILES_HEADER@, entries.len() as u64, path_records(entries, e));
    lemma_header(META_HEADER@, entries.len() as u64, meta_records(entries, e));
    if n > 0 {
        lemma_offset_monotone(lists, 0, n - 1);
        lemma_offset_monotone(lists, n - 1, n);
        lemma_lookup_reads_back(s, 0);
        lemma_lookup_reads_back(s, n - 1);
    }
}

/// A table that was cut off short, anywhere, does not open.
pub proof fn truncated_index_is_rejected(records: Seq<RecordView>, m: int)
    requires
        tables_can_be_held(records),
        0 <= m,
    ensures
        ({
            let t = record_tables(records);
            &&& m < t.lookup.len() ==> open_tables(
                t.lookup.take(m),
                t.postings,
                t.files,
                t.meta,
            ) is Err
            &&& m < t.postings.len() ==> open_tables(
                t.lookup,
                t.postings.take(m),
                t.files,
                t.meta,
            ) is Err
            &&& m < t.files.len() ==> open_tables(
                t.lookup,
                t.postings,
                t.files.take(m),
                t.meta,
            ) is Err
            &&& m < t.meta.len() ==> open_tables(
                t.lookup,
                t.postings,
                t.files,
                t.meta.take(m),
            ) is Err
        }),
{
    let entries = record_entries(records);
    let flat = all_postings(records);
    let s = sorted(flat);
    let lists = posting_lists(s);
    let n = lists.len() as int;
    let e = entries.len() as int;
    let t = record_tables(records);
    lemma_le_lengths();
    sorted_keeps_the_items(flat);
    lemma_list_blocks(lists, n);
    lemma_offsets_fit(s);
    lemma_entry_blocks(entries, e);
    lemma_lists_not_empty(s);
    lemma_header(LOOKUP_HEADER@, lists.len() as u64, lookup_entries(lists, n));
    let rest = le_u64(s.len() as u64) + lists_bytes(lists, n);
    lemma_header(POSTINGS_HEADER@, lists.len() as u64, rest);
    assert(t.postings =~= POSTINGS_HEADER@ + le_u64(lists.len() as u64) + rest);
    assert(t.postings.subrange(16, 24) =~= le_u64(s.len() as u64));
    lemma_u64_reads_back(t.postings, 16, s.len() as u64);
    lemma_header(FILES_HEADER@, entries.len() as u64, path_records(entries, e));
    lemma_header(META_HEADER@, entries.len() as u64, meta_records(entries, e));
    lemma_entries_count(entries, e);
    lemma_total_offset(s);
    if HEADER_LEN <= m < t.lookup.len() {
        lemma_cut_count(t.lookup, m);
    }
    if POSTINGS_DATA_OFFSET <= m < t.postings.len() {
        lemma_cut_count(t.postings, m);
        assert(t.postings.take(m).subrange(16, 24) =~= t.postings.subrange(16, 24));
    }
    let (pf, mf, plen) = (path_block(entries), meta_block(entries), path_length(entries));
    if HEADER_LEN <= m < t.files.len() {
        lemma_cut_count(t.files, m);
        assert forall|k: int| 0 <= k < e implies #[trigger] is_record(pf(k), plen(k), 0) by {
            assert(pf(k).take(8) =~= le_u64(plen(k) as u64));
        }
        lemma_record_offsets_cut(
            FILES_HEADER@ + le_u64(entries.len() as u64),
            pf,
            plen,
            e,
            0,
            0,
            IndexError::FilesTruncated,
            m,
        );
    }
    if HEADER_LEN <= m < t.meta.len() {
        lemma_cut_count(t.meta, m);
        assert forall|k: int| 0 <= k < e implies #[trigger] is_record(mf(k), plen(k), 16) by {
            assert(mf(k).take(8) =~= le_u64(plen(k) as u64));
        }
        lemma_record_offsets_cut(
            META_HEADER@ + le_u64(entries.len() as u64),
            mf,
            plen,
            e,
            0,
            16,
            IndexError::MetaTruncated,
            m,
        );
    }
}

/// Cutting a table behind its header leaves the header as it is.
proof fn lemma_cut_count(data: Seq<u8>, m: int)
    requires
        HEADER_LEN <= m <= data.len(),
    ensures
        table_count(data.take(m)) == table_count(data),
        data.take(m).take(8) == data.take(8),
{
    assert(data.take(m).subrange(8, 16) =~= data.subrange(8, 16));
    assert(data.take(m).take(8) =~= data.take(8));
}

} // verus!
