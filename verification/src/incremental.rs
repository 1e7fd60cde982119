//! What an incremental update promises.

use crate::builder::{
    all_postings, cache_file, cache_records, file_record, file_records, record_cached,
    record_entries, record_tables, total_read, total_reused, RecordView, SourceView,
};
use crate::cache::{
    cache_from, cache_of, cache_record, keys_bytes, record_at, CachedView, GRAMS_HEADER,
};
use crate::codec::{
    le_u128, le_u64, lemma_le_lengths, lemma_u128_reads_back, lemma_u64_reads_back, u64_in,
};
use crate::fingerprint::{fingerprint, fingerprints_agree_as_fnv1a_does, FNV_ALT_OFFSET};
use crate::grams::content_keys;
use crate::ngram::{fnv1a, FNV_OFFSET};
use crate::paths::path_key;
use crate::roundtrip::{blocks, lemma_block_at, lemma_block_in_table, lemma_part};
use crate::tables::HEADER_LEN;
use crate::text::{stored_path, stored_path_is_stable};
use vstd::prelude::*;

verus! {

/// The key under which a cache of records holds what it says of `path`.
pub open spec fn stored_key(path: Seq<u8>) -> Seq<u8> {
    path_key(stored_path(path))
}

/// What a cache of these records holds: for each stored path what the last
/// record with it says.
pub open spec fn cached_records(records: Seq<RecordView>) -> Map<Seq<u8>, CachedView>
    decreases records.len(),
{
    if records.len() == 0 {
        Map::empty()
    } else {
        cached_records(records.drop_last()).insert(
            stored_key(records.last().path),
            record_cached(records.last()),
        )
    }
}

spec fn key_block(keys: Seq<u64>) -> spec_fn(int) -> Seq<u8> {
    |i: int| le_u64(keys[i])
}

spec fn record_block(records: Seq<RecordView>) -> spec_fn(int) -> Seq<u8> {
    |i: int| cache_record(records[i].path, record_cached(records[i]))
}

proof fn lemma_key_blocks(keys: Seq<u64>, k: int)
    requires
        0 <= k <= keys.len(),
    ensures
        keys_bytes(keys.take(k)) == blocks(key_block(keys), k),
        blocks(key_block(keys), k).len() == 8 * k,
    decreases k,
{
    lemma_le_lengths();
    if k > 0 {
        lemma_key_blocks(keys, k - 1);
        assert(keys.take(k).drop_last() =~= keys.take(k - 1));
    }
}

proof fn lemma_record_blocks(records: Seq<RecordView>, k: int)
    requires
        0 <= k <= records.len(),
    ensures
        cache_records(records.take(k)) == blocks(record_block(records), k),
        blocks(record_block(records), k).len() >= 48 * k,
    decreases k,
{
    lemma_le_lengths();
    if k > 0 {
        lemma_record_blocks(records, k - 1);
        assert(records.take(k).drop_last() =~= records.take(k - 1));
    }
}

/// A cache record reads back.
proof fn lemma_record_reads_back(data: Seq<u8>, at: int, path: Seq<u8>, cached: CachedView)
    requires
        0 <= at,
        at + cache_record(path, cached).len() <= data.len(),
        data.len() <= u64::MAX,
        data.subrange(at, at + cache_record(path, cached).len()) == cache_record(path, cached),
    ensures
        record_at(data, at) == Some(
            (stored_path(path), cached, at + cache_record(path, cached).len()),
        ),
{
    let block = cache_record(path, cached);
    let stored = stored_path(path);
    let keys = cached.grams;
    let g = key_block(keys);
    let q = 8 + stored.len() as int;
    lemma_le_lengths();
    lemma_key_blocks(keys, keys.len() as int);
    assert(keys.take(keys.len() as int) =~= keys);
    assert(block.len() == q + 40 + 8 * keys.len());
    lemma_part(data, at, block, 0, 8);
    lemma_part(data, at, block, 8, q);
    lemma_part(data, at, block, q, q + 8);
    lemma_part(data, at, block, q + 8, q + 16);
    lemma_part(data, at, block, q + 16, q + 32);
    lemma_part(data, at, block, q + 32, q + 40);
    assert(block.subrange(0, 8) =~= le_u64(stored.len() as u64));
    assert(block.subrange(8, q) =~= stored);
    assert(block.subrange(q, q + 8) =~= le_u64(cached.mtime));
    assert(block.subrange(q + 8, q + 16) =~= le_u64(cached.size));
    assert(block.subrange(q + 16, q + 32) =~= le_u128(cached.content_hash));
    assert(block.subrange(q + 32, q + 40) =~= le_u64(keys.len() as u64));
    lemma_u64_reads_back(data, at, stored.len() as u64);
    lemma_u64_reads_back(data, at + q, cached.mtime);
    lemma_u64_reads_back(data, at + q + 8, cached.size);
    lemma_u128_reads_back(data, at + q + 16, cached.content_hash);
    lemma_u64_reads_back(data, at + q + 32, keys.len() as u64);
    let found = Seq::new(keys.len(), |i: int| u64_in(data, at + q + 40 + 8 * i));
    assert forall|i: int| 0 <= i < keys.len() implies found[i] == #[trigger] keys[i] by {
        lemma_key_blocks(keys, i);
        lemma_block_at(g, i, keys.len() as int);
        lemma_part(data, at, block, q + 40 + 8 * i, q + 48 + 8 * i);
        assert(block.subrange(q + 40 + 8 * i, q + 48 + 8 * i) =~= keys_bytes(keys).subrange(
            8 * i,
            8 * i + 8,
        ));
        lemma_u64_reads_back(data, at + q + 40 + 8 * i, keys[i]);
    }
    assert(found =~= keys);
    assert(data.subrange(at + 8, at + q) == stored);
}

proof fn lemma_cache_from(records: Seq<RecordView>, i: int)
    requires
        0 <= i <= records.len(),
        cache_file(records).len() <= u64::MAX,
    ensures
        cache_from(
            cache_file(records),
            (HEADER_LEN + blocks(record_block(records), i).len()) as int,
            records.len() - i,
            cached_records(records.take(i)),
        ) == Some(cached_records(records)),
    decreases records.len() - i,
{
    let n = records.len() as int;
    let f = record_block(records);
    let head = GRAMS_HEADER@ + le_u64(records.len() as u64);
    let data = cache_file(records);
    let at = (HEADER_LEN + blocks(f, i).len()) as int;
    lemma_le_lengths();
    lemma_record_blocks(records, n);
    assert(records.take(n) =~= records);
    if i < n {
        lemma_block_in_table(head, f, i, n);
        lemma_record_reads_back(data, at, records[i].path, record_cached(records[i]));
        stored_path_is_stable(records[i].path);
        assert(records.take(i + 1).drop_last() =~= records.take(i));
        lemma_cache_from(records, i + 1);
    }
}

/// A cache file gives back, for each path, what was written of it last.
pub proof fn cache_file_reads_back(records: Seq<RecordView>)
    requires
        cache_file(records).len() <= u64::MAX,
    ensures
        cache_of(cache_file(records)) == Some(cached_records(records)),
{
    let data = cache_file(records);
    lemma_le_lengths();
    lemma_record_blocks(records, records.len() as int);
    assert(records.take(records.len() as int) =~= records);
    assert(data.take(8) =~= GRAMS_HEADER@);
    assert(data.subrange(8, 16) =~= le_u64(records.len() as u64));
    lemma_u64_reads_back(data, 8, records.len() as u64);
    assert(records.take(0) =~= Seq::empty());
    lemma_cache_from(records, 0);
}

/// A cache record of which the end is missing does not read back.
proof fn lemma_record_cut(data: Seq<u8>, at: int, path: Seq<u8>, cached: CachedView, m: int)
    requires
        0 <= at,
        at + cache_record(path, cached).len() <= data.len() <= u64::MAX,
        data.subrange(at, at + cache_record(path, cached).len()) == cache_record(path, cached),
        0 <= m < at + cache_record(path, cached).len(),
    ensures
        record_at(data.take(m), at) is None,
{
    let block = cache_record(path, cached);
    let stored = stored_path(path);
    let keys = cached.grams;
    let cut = data.take(m);
    let q = 8 + stored.len() as int;
    lemma_le_lengths();
    lemma_key_blocks(keys, keys.len() as int);
    assert(keys.take(keys.len() as int) =~= keys);
    assert(block.len() == q + 40 + 8 * keys.len());
    if at + 8 <= m {
        lemma_part(data, at, block, 0, 8);
        assert(block.subrange(0, 8) =~= le_u64(stored.len() as u64));
        assert(cut.subrange(at, at + 8) =~= data.subrange(at, at + 8));
        lemma_u64_reads_back(cut, at, stored.len() as u64);
        if at + q + 40 <= m {
            lemma_part(data, at, block, q + 32, q + 40);
            assert(block.subrange(q + 32, q + 40) =~= le_u64(keys.len() as u64));
            assert(cut.subrange(at + q + 32, at + q + 40) =~= data.subrange(
                at + q + 32,
                at + q + 40,
            ));
            lemma_u64_reads_back(cut, at + q + 32, keys.len() as u64);
        }
    }
}

proof fn lemma_cache_from_cut(
    records: Seq<RecordView>,
    i: int,
    m: int,
    known: Map<Seq<u8>, CachedView>,
)
    requires
        0 <= i <= records.len(),
        cache_file(records).len() <= u64::MAX,
        HEADER_LEN + blocks(record_block(records), i).len() <= m < cache_file(records).len(),
    ensures
        cache_from(
            cache_file(records).take(m),
            (HEADER_LEN + blocks(record_block(records), i).len()) as int,
            records.len() - i,
            known,
        ) is None,
    decreases records.len() - i,
{
    let n = records.len() as int;
    let f = record_block(records);
    let head = GRAMS_HEADER@ + le_u64(records.len() as u64);
    let data = cache_file(records);
    let cut = data.take(m);
    let at = (HEADER_LEN + blocks(f, i).len()) as int;
    lemma_le_lengths();
    lemma_record_blocks(records, n);
    assert(records.take(n) =~= records);
    if i < n {
        let (path, cached) = (records[i].path, record_cached(records[i]));
        lemma_block_in_table(head, f, i, n);
        if at + f(i).len() <= m {
            assert(cut.subrange(at, at + f(i).len()) =~= data.subrange(at, at + f(i).len()));
            lemma_record_reads_back(cut, at, path, cached);
            lemma_cache_from_cut(
                records,
                i + 1,
                m,
                known.insert(stored_key(stored_path(path)), cached),
            );
        } else {
            lemma_record_cut(data, at, path, cached, m);
        }
    }
}

/// A cache file that was cut off short, anywhere, is not used.
pub proof fn truncated_cache_is_rejected(records: Seq<RecordView>, m: int)
    requires
        cache_file(records).len() <= u64::MAX,
        0 <= m < cache_file(records).len(),
    ensures
        cache_of(cache_file(records).take(m)) is None,
{
    let data = cache_file(records);
    let cut = data.take(m);
    lemma_le_lengths();
    lemma_record_blocks(records, records.len() as int);
    assert(records.take(records.len() as int) =~= records);
    if m >= HEADER_LEN {
        assert(cut.subrange(8, 16) =~= le_u64(records.len() as u64));
        lemma_u64_reads_back(cut, 8, records.len() as u64);
        lemma_cache_from_cut(records, 0, m, Map::empty());
    }
}

/// What is cached for a file with this time, size and content can be trusted:
/// the same time and size mean the same content, and the same fingerprint means
/// the same keys.
pub open spec fn is_faithful(cached: CachedView, mtime: u64, size: u64, content: Seq<u8>) -> bool {
    &&& cached.mtime == mtime && cached.size == size ==> cached.content_hash == fingerprint(
        content,
    ) && cached.grams == content_keys(content)
    &&& cached.content_hash == fingerprint(content) ==> cached.grams == content_keys(content)
}

/// A file that has a time and a size can be read, and what is cached for it
/// can be trusted.
pub open spec fn is_cached_faithfully(
    file: SourceView,
    cache: Map<Seq<u8>, CachedView>,
) -> bool {
    file.meta matches Some((mtime, size)) ==> file.content matches Some(content) && (
    cache.contains_key(path_key(file.path)) ==> is_faithful(
        cache[path_key(file.path)],
        mtime,
        size,
        content,
    ))
}

/// Two lists of records make the same index.
pub open spec fn same_index(a: Seq<RecordView>, b: Seq<RecordView>) -> bool {
    &&& record_tables(a) == record_tables(b)
    &&& cache_file(a) == cache_file(b)
}

/// Records that agree in all that is stored make the same index.
proof fn lemma_same_index(a: Seq<RecordView>, b: Seq<RecordView>)
    requires
        a.len() == b.len(),
        forall|i: int|
            0 <= i < a.len() ==> (#[trigger] a[i]).path == b[i].path && record_cached(a[i])
                == record_cached(b[i]),
    ensures
        all_postings(a) == all_postings(b),
        cache_records(a) == cache_records(b),
        same_index(a, b),
    decreases a.len(),
{
    if a.len() > 0 {
        let (c, d) = (a.drop_last(), b.drop_last());
        assert forall|i: int| 0 <= i < c.len() implies (#[trigger] c[i]).path == d[i].path
            && record_cached(c[i]) == record_cached(d[i]) by {
            assert(c[i] == a[i] && d[i] == b[i]);
        }
        lemma_same_index(c, d);
        assert(a[a.len() - 1].path == b[b.len() - 1].path);
        assert(record_cached(a.last()) == record_cached(b.last()));
        assert(record_cached(a.last()).grams == record_cached(b.last()).grams);
    }
    assert forall|i: int| 0 <= i < a.len() implies record_entries(a)[i] == record_entries(b)[i] by {
        assert(a[i].path == b[i].path);
        assert(record_cached(a[i]).mtime == record_cached(b[i]).mtime);
        assert(record_cached(a[i]).size == record_cached(b[i]).size);
    }
    assert(record_entries(a) =~= record_entries(b));
}

proof fn lemma_records_agree(files: Seq<SourceView>, cache: Map<Seq<u8>, CachedView>)
    requires
        forall|i: int| 0 <= i < files.len() ==> is_cached_faithfully(#[trigger] files[i], cache),
    ensures
        file_records(files, Some(cache)).len() == file_records(files, None).len(),
        forall|i: int|
            0 <= i < file_records(files, None).len() ==> (#[trigger] file_records(
                files,
                Some(cache),
            )[i]).path == file_records(files, None)[i].path && record_cached(
                file_records(files, Some(cache))[i],
            ) == record_cached(file_records(files, None)[i]),
    decreases files.len(),
{
    if files.len() > 0 {
        let init = files.drop_last();
        let last = files.last();
        assert forall|i: int| 0 <= i < init.len() implies is_cached_faithfully(
            #[trigger] init[i],
            cache,
        ) by {
            assert(init[i] == files[i]);
        }
        lemma_records_agree(init, cache);
        assert(is_cached_faithfully(files[files.len() - 1], cache));
        let (a, b) = (file_record(last, Some(cache)), file_record(last, None));
        if last.meta is Some {
            assert(a is Some && b is Some);
            assert(a->0.path == b->0.path);
            assert(record_cached(a->0) =~= record_cached(b->0));
        }
    }
}

/// With a cache that can be trusted, an update makes the same index, byte for
/// byte, as a build from nothing.
pub proof fn update_equals_fresh_build(files: Seq<SourceView>, cache: Map<Seq<u8>, CachedView>)
    requires
        forall|i: int| 0 <= i < files.len() ==> is_cached_faithfully(#[trigger] files[i], cache),
    ensures
        same_index(file_records(files, Some(cache)), file_records(files, None)),
{
    lemma_records_agree(files, cache);
    lemma_same_index(file_records(files, Some(cache)), file_records(files, None));
}

/// What a build without a cache knows of each file.
proof fn lemma_fresh_records(files: Seq<SourceView>, k: int)
    requires
        0 <= k < file_records(files, None).len(),
    ensures
        exists|i: int|
            0 <= i < files.len() && #[trigger] file_record(files[i], None) == Some(
                file_records(files, None)[k],
            ),
    decreases files.len(),
{
    if files.len() > 0 {
        let init = files.drop_last();
        let rest = file_records(init, None);
        if k < rest.len() {
            lemma_fresh_records(init, k);
            let i = choose|i: int|
                0 <= i < init.len() && #[trigger] file_record(init[i], None) == Some(rest[k]);
            assert(file_record(files[i], None) == Some(file_records(files, None)[k]));
        } else {
            assert(file_record(files[files.len() - 1], None) == Some(
                file_records(files, None)[k],
            ));
        }
    }
}

/// What is cached under a key comes from a record whose stored path has it.
proof fn lemma_cached_from_record(records: Seq<RecordView>, key: Seq<u8>)
    requires
        cached_records(records).contains_key(key),
    ensures
        exists|k: int|
            0 <= k < records.len() && stored_key((#[trigger] records[k]).path) == key
                && cached_records(records)[key] == record_cached(records[k]),
    decreases records.len(),
{
    if records.len() > 0 {
        let init = records.drop_last();
        if stored_key(records.last().path) == key {
            assert(stored_key(records[records.len() - 1].path) == key);
        } else {
            lemma_cached_from_record(init, key);
            let k = choose|k: int|
                0 <= k < init.len() && stored_key((#[trigger] init[k]).path) == key
                    && cached_records(init)[key] == record_cached(init[k]);
            assert(records[k] == init[k]);
        }
    }
}

/// `later` is a version of the file `earlier`: stored under the same path, the
/// same time and size mean the same content, and contents that FNV-1a takes to
/// the same value from both offset bases have the same keys.
pub open spec fn is_honest_version(earlier: SourceView, later: SourceView) -> bool {
    stored_key(earlier.path) == path_key(later.path) ==> {
        &&& earlier.meta == later.meta ==> earlier.content == later.content
        &&& match (earlier.content, later.content) {
            (Some(a), Some(b)) => fnv1a(FNV_OFFSET, a) == fnv1a(FNV_OFFSET, b) && fnv1a(
                FNV_ALT_OFFSET,
                a,
            ) == fnv1a(FNV_ALT_OFFSET, b) ==> content_keys(a) == content_keys(b),
            _ => true,
        }
    }
}

/// An index built from `earlier` files and updated to `later` ones, with files
/// added, changed and removed, is the one built from the later files, as long
/// as no file changes its content but not its time and size, and no two
/// versions of a file share a fingerprint but not their keys.
pub proof fn update_after_build_equals_fresh_build(
    earlier: Seq<SourceView>,
    later: Seq<SourceView>,
)
    requires
        cache_file(file_records(earlier, None)).len() <= u64::MAX,
        forall|i: int|
            0 <= i < later.len() ==> ((#[trigger] later[i]).meta is Some ==> later[i].content is Some),
        forall|i: int, j: int|
            0 <= i < earlier.len() && 0 <= j < later.len() ==> is_honest_version(
                #[trigger] earlier[i],
                #[trigger] later[j],
            ),
    ensures
        same_index(
            file_records(later, cache_of(cache_file(file_records(earlier, None)))),
            file_records(later, None),
        ),
{
    let records = file_records(earlier, None);
    let cache = cached_records(records);
    cache_file_reads_back(records);
    assert forall|j: int| 0 <= j < later.len() implies is_cached_faithfully(
        #[trigger] later[j],
        cache,
    ) by {
        let file = later[j];
        let key = path_key(file.path);
        if file.meta is Some && cache.contains_key(key) {
            lemma_cached_from_record(records, key);
            let k = choose|k: int|
                0 <= k < records.len() && stored_key((#[trigger] records[k]).path) == key
                    && cache[key] == record_cached(records[k]);
            lemma_fresh_records(earlier, k);
            let i = choose|i: int|
                0 <= i < earlier.len() && #[trigger] file_record(earlier[i], None) == Some(
                    records[k],
                );
            assert(is_honest_version(earlier[i], later[j]));
            fingerprints_agree_as_fnv1a_does(earlier[i].content->0, later[j].content->0);
        }
    }
    update_equals_fresh_build(later, cache);
}

/// Every readable file has its record, in order.
pub proof fn lemma_all_records(files: Seq<SourceView>, cache: Option<Map<Seq<u8>, CachedView>>)
    requires
        forall|i: int|
            0 <= i < files.len() ==> (#[trigger] files[i]).meta is Some && files[i].content is Some,
    ensures
        file_records(files, cache).len() == files.len(),
        forall|i: int|
            0 <= i < files.len() ==> Some(#[trigger] file_records(files, cache)[i]) == file_record(
                files[i],
                cache,
            ),
    decreases files.len(),
{
    if files.len() > 0 {
        let init = files.drop_last();
        assert forall|i: int| 0 <= i < init.len() implies (#[trigger] init[i]).meta is Some
            && init[i].content is Some by {
            assert(init[i] == files[i]);
        }
        lemma_all_records(init, cache);
        assert(files[files.len() - 1].meta is Some && files[files.len() - 1].content is Some);
        assert forall|i: int| 0 <= i < files.len() implies Some(
            #[trigger] file_records(files, cache)[i],
        ) == file_record(files[i], cache) by {
            if i < init.len() {
                assert(file_records(files, cache)[i] == file_records(init, cache)[i]);
                assert(init[i] == files[i]);
            }
        }
    }
}

proof fn lemma_cached_at(records: Seq<RecordView>, k: int)
    requires
        0 <= k < records.len(),
        forall|i: int, j: int|
            0 <= i < j < records.len() ==> stored_key((#[trigger] records[i]).path) != stored_key(
                (#[trigger] records[j]).path,
            ),
    ensures
        cached_records(records).contains_key(stored_key(records[k].path)),
        cached_records(records)[stored_key(records[k].path)] == record_cached(records[k]),
    decreases records.len(),
{
    let init = records.drop_last();
    if k < init.len() {
        assert forall|i: int, j: int| 0 <= i < j < init.len() implies stored_key(
            (#[trigger] init[i]).path,
        ) != stored_key((#[trigger] init[j]).path) by {
            assert(init[i] == records[i] && init[j] == records[j]);
        }
        lemma_cached_at(init, k);
        assert(init[k] == records[k]);
        assert(stored_key(records[k].path) != stored_key(records[records.len() - 1].path));
    }
}

proof fn lemma_cached_count(records: Seq<RecordView>)
    requires
        forall|i: int, j: int|
            0 <= i < j < records.len() ==> stored_key((#[trigger] records[i]).path) != stored_key(
                (#[trigger] records[j]).path,
            ),
    ensures
        cached_records(records).dom().finite(),
        cached_records(records).dom().len() == records.len(),
    decreases records.len(),
{
    if records.len() > 0 {
        let init = records.drop_last();
        assert forall|i: int, j: int| 0 <= i < j < init.len() implies stored_key(
            (#[trigger] init[i]).path,
        ) != stored_key((#[trigger] init[j]).path) by {
            assert(init[i] == records[i] && init[j] == records[j]);
        }
        lemma_cached_count(init);
        let key = stored_key(records.last().path);
        if cached_records(init).contains_key(key) {
            lemma_cached_from_record(init, key);
            let k = choose|k: int|
                0 <= k < init.len() && stored_key((#[trigger] init[k]).path) == key
                    && cached_records(init)[key] == record_cached(init[k]);
            assert(stored_key(records[k].path) != stored_key(records[records.len() - 1].path));
        }
        assert(cached_records(records).dom() =~= cached_records(init).dom().insert(key));
    }
}

/// A cache file of records whose stored paths differ in their components gives
/// back exactly these: as many, and for each path what its record says.
pub proof fn cache_gives_back_each_record(records: Seq<RecordView>)
    requires
        cache_file(records).len() <= u64::MAX,
        forall|i: int, j: int|
            0 <= i < j < records.len() ==> stored_key((#[trigger] records[i]).path) != stored_key(
                (#[trigger] records[j]).path,
            ),
    ensures
        match cache_of(cache_file(records)) {
            Some(map) => map.dom().len() == records.len() && forall|k: int|
                0 <= k < records.len() ==> map.contains_key(
                    stored_key((#[trigger] records[k]).path),
                ) && map[stored_key(records[k].path)] == record_cached(records[k]),
            None => false,
        },
{
    cache_file_reads_back(records);
    lemma_cached_count(records);
    assert forall|k: int| 0 <= k < records.len() implies cached_records(records).contains_key(
        stored_key((#[trigger] records[k]).path),
    ) && cached_records(records)[stored_key(records[k].path)] == record_cached(records[k]) by {
        lemma_cached_at(records, k);
    }
}

proof fn lemma_totals(records: Seq<RecordView>)
    requires
        forall|i: int|
            0 <= i < records.len() ==> (#[trigger] records[i]).reused && records[i].bytes_read == 0,
    ensures
        total_reused(records) == records.len(),
        total_read(records) == 0,
    decreases records.len(),
{
    if records.len() > 0 {
        let init = records.drop_last();
        assert forall|i: int| 0 <= i < init.len() implies (#[trigger] init[i]).reused
            && init[i].bytes_read == 0 by {
            assert(init[i] == records[i]);
        }
        lemma_totals(init);
        assert(records[records.len() - 1].reused);
    }
}

/// Updating an index whose files did not change reads none of them, reuses all
/// of them, and makes the same index again.
pub proof fn update_without_changes_reads_nothing(files: Seq<SourceView>)
    requires
        cache_file(file_records(files, None)).len() <= u64::MAX,
        forall|i: int|
            0 <= i < files.len() ==> (#[trigger] files[i]).meta is Some && files[i].content is Some
                && stored_path(files[i].path) == files[i].path,
        forall|i: int, j: int|
            0 <= i < j < files.len() ==> path_key((#[trigger] files[i]).path) != path_key(
                (#[trigger] files[j]).path,
            ),
    ensures
        ({
            let records = file_records(files, cache_of(cache_file(file_records(files, None))));
            &&& total_reused(records) == files.len()
            &&& total_read(records) == 0
            &&& same_index(records, file_records(files, None))
        }),
{
    let fresh = file_records(files, None);
    let cache = cached_records(fresh);
    let again = file_records(files, Some(cache));
    cache_file_reads_back(fresh);
    lemma_all_records(files, None);
    lemma_all_records(files, Some(cache));
    assert forall|i: int| 0 <= i < files.len() implies (#[trigger] fresh[i]).path
        == files[i].path by {
        assert(Some(fresh[i]) == file_record(files[i], None));
    }
    assert forall|i: int, j: int| 0 <= i < j < fresh.len() implies stored_key(
        (#[trigger] fresh[i]).path,
    ) != stored_key((#[trigger] fresh[j]).path) by {
        assert(path_key(files[i].path) != path_key(files[j].path));
    }
    assert forall|i: int| 0 <= i < files.len() implies (#[trigger] again[i]).reused
        && again[i].bytes_read == 0 && again[i].path == fresh[i].path && record_cached(again[i])
        == record_cached(fresh[i]) by {
        lemma_cached_at(fresh, i);
        assert(Some(fresh[i]) == file_record(files[i], None));
        assert(Some(again[i]) == file_record(files[i], Some(cache)));
        assert(record_cached(again[i]) =~= record_cached(fresh[i]));
    }
    lemma_totals(again);
    lemma_same_index(again, fresh);
}

} // verus!
