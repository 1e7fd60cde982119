//! The per-file n-gram cache, which makes updates incremental.
//!
//! `"RGXGRAM2"` + `u64 count` + per-file records of `(u64 len, path, u64 mtime,
//! u64 size, u128 content_hash, u64 key_count, keys...)`. A corrupt or missing
//! cache simply triggers a full rebuild.

use crate::codec::{
    le_u128, le_u64, push_u128, push_u64, u128_at, u128_in, u64_at, u64_in,
};
use crate::index::has_magic;
use crate::keys::{bytes_equal, KeyTable};
use crate::paths::{key_of_path, path_key};
use crate::tables::{push_bytes, COUNT_OFFSET, HEADER_LEN};
use crate::text::{store_path, stored_path};
use vstd::prelude::*;
use vstd::slice::slice_subrange;

verus! {

/// `"RGXGRAM2"`
pub const GRAMS_HEADER: [u8; 8] = [82, 71, 88, 71, 82, 65, 77, 50];

/// A cached entry, used to skip re-reading an unchanged file.
pub struct CachedGrams {
    /// Last-modified time in whole seconds since the Unix epoch.
    pub mtime: u64,
    /// File size in bytes.
    pub size: u64,
    /// Content fingerprint; unchanged files reuse their cached keys.
    pub content_hash: u128,
    /// Distinct n-gram keys of the file.
    pub grams: Vec<u64>,
}

/// What [`CachedGrams`] stand for.
#[verifier::ext_equal]
pub ghost struct CachedView {
    pub mtime: u64,
    pub size: u64,
    pub content_hash: u128,
    pub grams: Seq<u64>,
}

impl View for CachedGrams {
    type V = CachedView;

    open spec fn view(&self) -> CachedView {
        CachedView {
            mtime: self.mtime,
            size: self.size,
            content_hash: self.content_hash,
            grams: self.grams@,
        }
    }
}

/// The bytes of a list of keys.
pub open spec fn keys_bytes(keys: Seq<u64>) -> Seq<u8>
    decreases keys.len(),
{
    if keys.len() == 0 {
        Seq::empty()
    } else {
        keys_bytes(keys.drop_last()) + le_u64(keys.last())
    }
}

/// The bytes of one cache record.
pub open spec fn cache_record(path: Seq<u8>, cached: CachedView) -> Seq<u8> {
    le_u64(stored_path(path).len() as u64) + stored_path(path) + le_u64(cached.mtime) + le_u64(
        cached.size,
    ) + le_u128(cached.content_hash) + le_u64(cached.grams.len() as u64) + keys_bytes(
        cached.grams,
    )
}

/// The record at `at`: its path bytes, what it says, and where it ends.
pub open spec fn record_at(data: Seq<u8>, at: int) -> Option<(Seq<u8>, CachedView, int)> {
    if at + 8 > data.len() {
        None
    } else {
        let q = at + 8 + u64_in(data, at);
        if q + 40 > data.len() {
            None
        } else {
            let count = u64_in(data, q + 32);
            let end = q + 40 + 8 * count;
            if end > data.len() {
                None
            } else {
                Some(
                    (
                        data.subrange(at + 8, q),
                        CachedView {
                            mtime: u64_in(data, q),
                            size: u64_in(data, q + 8),
                            content_hash: u128_in(data, q + 16),
                            grams: Seq::new(count as nat, |i: int| u64_in(data, q + 40 + 8 * i)),
                        },
                        end,
                    ),
                )
            }
        }
    }
}

/// The `left` records from `at` on, in front of which `known` has been read:
/// what is cached for each path, under its key. A later record replaces an
/// earlier one of the same path.
pub open spec fn cache_from(
    data: Seq<u8>,
    at: int,
    left: int,
    known: Map<Seq<u8>, CachedView>,
) -> Option<Map<Seq<u8>, CachedView>>
    decreases left,
{
    if left <= 0 {
        Some(known)
    } else {
        match record_at(data, at) {
            None => None,
            Some((path, cached, end)) => cache_from(
                data,
                end,
                left - 1,
                known.insert(path_key(stored_path(path)), cached),
            ),
        }
    }
}

/// What a cache file says of each path, under its key, or nothing if it is
/// corrupt.
pub open spec fn cache_of(data: Seq<u8>) -> Option<Map<Seq<u8>, CachedView>> {
    if data.len() < HEADER_LEN || !has_magic(data, GRAMS_HEADER@) {
        None
    } else {
        cache_from(
            data,
            HEADER_LEN as int,
            u64_in(data, COUNT_OFFSET as int) as int,
            Map::empty(),
        )
    }
}

/// A loaded cache.
pub struct GramsCache {
    table: KeyTable,
    entries: Vec<CachedGrams>,
}

/// The map from the distinct `keys` to the entries with the same number.
spec fn cache_view(keys: Seq<Seq<u8>>, entries: Seq<CachedGrams>) -> Map<Seq<u8>, CachedView> {
    Map::new(|key: Seq<u8>| keys.contains(key), |key: Seq<u8>| entries[keys.index_of(key)]@)
}

impl View for GramsCache {
    type V = Map<Seq<u8>, CachedView>;

    closed spec fn view(&self) -> Map<Seq<u8>, CachedView> {
        cache_view(self.table@, self.entries@)
    }
}

/// Putting an entry under the number of its key, or after all others.
proof fn lemma_cache_insert(
    keys: Seq<Seq<u8>>,
    entries: Seq<CachedGrams>,
    key: Seq<u8>,
    entry: CachedGrams,
    new_keys: Seq<Seq<u8>>,
    number: int,
    new_entries: Seq<CachedGrams>,
)
    requires
        keys.no_duplicates(),
        keys.len() == entries.len(),
        new_keys == if keys.contains(key) {
            keys
        } else {
            keys.push(key)
        },
        0 <= number < new_keys.len(),
        new_keys[number] == key,
        new_entries == if number < entries.len() {
            entries.update(number, entry)
        } else {
            entries.push(entry)
        },
    ensures
        new_keys.no_duplicates(),
        new_keys.len() == new_entries.len(),
        cache_view(new_keys, new_entries) == cache_view(keys, entries).insert(key, entry@),
{
    if keys.contains(key) {
        let k = keys.index_of(key);
        assert(k == number);
    } else {
        assert(number == keys.len()) by {
            if number < keys.len() {
                assert(keys[number] == key);
            }
        }
    }
    let (a, b) = (cache_view(new_keys, new_entries), cache_view(keys, entries).insert(key, entry@));
    assert forall|k: Seq<u8>| a.contains_key(k) <==> b.contains_key(k) by {
        if keys.contains(k) {
            assert(new_keys[keys.index_of(k)] == k);
        }
        if new_keys.contains(k) && k != key {
            let i = new_keys.index_of(k);
            assert(keys[i] == k);
        }
    }
    assert forall|k: Seq<u8>| #[trigger] a.contains_key(k) implies a[k] == b[k] by {
        let i = new_keys.index_of(k);
        if k == key {
            assert(i == number);
        } else {
            assert(i != number);
            assert(keys[i] == k);
            assert(keys.contains(k));
            assert(keys.index_of(k) == i);
            assert(new_entries[i] == entries[i]);
        }
    }
    assert(a =~= b);
}

impl GramsCache {
    #[verifier::type_invariant]
    closed spec fn well_formed(self) -> bool {
        &&& self.table.well_formed()
        &&& self.table@.no_duplicates()
        &&& self.table@.len() == self.entries@.len()
    }

    /// What is cached for `path`, however it is written.
    pub fn get(&self, path: &[u8]) -> (cached: Option<&CachedGrams>)
        ensures
            match cached {
                Some(c) => self@.contains_key(path_key(path@)) && c@ == self@[path_key(path@)],
                None => !self@.contains_key(path_key(path@)),
            },
    {
        proof {
            use_type_invariant(self);
        }
        let key = key_of_path(path);
        match self.table.find(key.as_slice()) {
            Some(i) => {
                assert(self.table@.contains(key@));
                assert(self.table@.index_of(key@) == i);
                Some(&self.entries[i])
            },
            None => None,
        }
    }
}

/// The record at `at` of a cache file, with the key of its path.
fn read_record(data: &[u8], at: usize) -> (record: Option<(Vec<u8>, CachedGrams, usize)>)
    ensures
        match record {
            Some((key, cached, end)) => match record_at(data@, at as int) {
                Some((path, view, after)) => key@ == path_key(stored_path(path)) && cached@ == view
                    && end == after && end <= data@.len(),
                None => false,
            },
            None => record_at(data@, at as int) is None,
        },
{
    let len: usize = data.len();
    let plen: u64 = match u64_at(data, at) {
        Some(n) => n,
        None => {
            return None;
        },
    };
    let room: usize = len - at - 8;
    if room < 40 || plen > (room - 40) as u64 {
        return None;
    }
    let q: usize = at + 8 + plen as usize;
    let (mtime, size, content_hash, count) = match (
        u64_at(data, q),
        u64_at(data, q + 8),
        u128_at(data, q + 16),
        u64_at(data, q + 32),
    ) {
        (Some(mtime), Some(size), Some(hash), Some(count)) => (mtime, size, hash, count),
        _ => {
            return None;
        },
    };
    if count > ((len - q - 40) / 8) as u64 {
        return None;
    }
    let count: usize = count as usize;
    let mut grams: Vec<u64> = Vec::new();
    let mut i: usize = 0;
    while i < count
        invariant
            i <= count,
            q + 40 + 8 * count <= len,
            len == data@.len(),
            grams@ == Seq::new(i as nat, |i: int| u64_in(data@, q + 40 + 8 * i)),
        decreases count - i,
    {
        match u64_at(data, q + 40 + 8 * i) {
            Some(key) => {
                grams.push(key);
            },
            None => {},
        }
        i += 1;
        assert(grams@ =~= Seq::new(i as nat, |i: int| u64_in(data@, q + 40 + 8 * i)));
    }
    let stored = store_path(slice_subrange(data, at + 8, q));
    let key = key_of_path(stored.as_slice());
    Some((key, CachedGrams { mtime, size, content_hash, grams }, q + 40 + 8 * count))
}

/// Load the cache. `None` when it is corrupt.
pub fn load_grams_cache(data: &[u8]) -> (cache: Option<GramsCache>)
    ensures
        match cache {
            Some(c) => cache_of(data@) == Some(c@),
            None => cache_of(data@) is None,
        },
{
    if data.len() < HEADER_LEN {
        return None;
    }
    let head = slice_subrange(data, 0, 8);
    assert(data@.subrange(0, 8) =~= data@.take(8));
    if !bytes_equal(head, GRAMS_HEADER.as_slice()) {
        return None;
    }
    let count: u64 = match u64_at(data, COUNT_OFFSET) {
        Some(n) => n,
        None => {
            return None;
        },
    };
    let mut table = KeyTable::new();
    let mut entries: Vec<CachedGrams> = Vec::new();
    let mut at: usize = HEADER_LEN;
    let mut done: u64 = 0;
    assert(cache_view(table@, entries@) =~= Map::empty());
    while done < count
        invariant
            done <= count,
            at <= data@.len(),
            table.well_formed(),
            table@.no_duplicates(),
            table@.len() == entries@.len(),
            cache_of(data@) == cache_from(
                data@,
                at as int,
                count - done,
                cache_view(table@, entries@),
            ),
        decreases count - done,
    {
        match read_record(data, at) {
            None => {
                return None;
            },
            Some((key, cached, end)) => {
                let ghost keys_before = table@;
                let ghost entries_before = entries@;
                let number: usize = table.insert(key.as_slice());
                if number < entries.len() {
                    entries.set(number, cached);
                } else {
                    entries.push(cached);
                }
                proof {
                    lemma_cache_insert(
                        keys_before,
                        entries_before,
                        key@,
                        cached,
                        table@,
                        number as int,
                        entries@,
                    );
                }
                at = end;
            },
        }
        done += 1;
    }
    Some(GramsCache { table, entries })
}

/// Appends the bytes of a list of keys.
fn push_keys(out: &mut Vec<u8>, keys: &[u64])
    ensures
        final(out)@ == old(out)@ + keys_bytes(keys@),
{
    let ghost base = out@;
    let mut i: usize = 0;
    assert(out@ =~= base + keys_bytes(keys@.take(0)));
    while i < keys.len()
        invariant
            i <= keys@.len(),
            out@ == base + keys_bytes(keys@.take(i as int)),
        decreases keys@.len() - i,
    {
        push_u64(out, keys[i]);
        i += 1;
        assert(keys@.take(i as int).drop_last() =~= keys@.take(i - 1));
        assert(out@ =~= base + keys_bytes(keys@.take(i as int)));
    }
    assert(keys@.take(i as int) =~= keys@);
}

/// The bytes of one cache record.
pub fn write_record(
    path: &[u8],
    mtime: u64,
    size: u64,
    content_hash: u128,
    grams: &[u64],
) -> (record: Vec<u8>)
    ensures
        record@ == cache_record(
            path@,
            (CachedView { mtime, size, content_hash, grams: grams@ }),
        ),
{
    let stored = store_path(path);
    let mut record: Vec<u8> = Vec::new();
    push_u64(&mut record, stored.len() as u64);
    push_bytes(&mut record, stored.as_slice());
    push_u64(&mut record, mtime);
    push_u64(&mut record, size);
    push_u128(&mut record, content_hash);
    push_u64(&mut record, grams.len() as u64);
    push_keys(&mut record, grams);
    assert(record@ =~= cache_record(
        path@,
        CachedView { mtime, size, content_hash, grams: grams@ },
    ));
    record
}

/// The header of a cache file that holds `count` records. It is written with
/// none at first, and again when all are there.
pub fn write_cache_header(count: u64) -> (header: Vec<u8>)
    ensures
        header@ == GRAMS_HEADER@ + le_u64(count),
{
    let mut header: Vec<u8> = Vec::new();
    push_bytes(&mut header, &GRAMS_HEADER);
    push_u64(&mut header, count);
    assert(header@ =~= GRAMS_HEADER@ + le_u64(count));
    header
}

/// A cache record is the length of the stored path, the path, the time, the
/// size, the fingerprint, the number of keys, and the keys. A cache file starts
/// with its own magic.
pub proof fn cache_records_have_this_layout(path: Seq<u8>, cached: CachedView, key: u64)
    ensures
        GRAMS_HEADER@ == seq![82u8, 71, 88, 71, 82, 65, 77, 50],
        cache_record(path, cached) == le_u64(stored_path(path).len() as u64) + stored_path(path)
            + le_u64(cached.mtime) + le_u64(cached.size) + le_u128(cached.content_hash) + le_u64(
            cached.grams.len() as u64,
        ) + keys_bytes(cached.grams),
        keys_bytes(Seq::empty()).len() == 0,
        keys_bytes(cached.grams.push(key)) == keys_bytes(cached.grams) + le_u64(key),
{
    assert(GRAMS_HEADER@ =~= seq![82u8, 71, 88, 71, 82, 65, 77, 50]);
    assert(cached.grams.push(key).drop_last() =~= cached.grams);
}

/// A cache is read record by record: each one replaces what was known under the
/// key of its path, and a record that is cut off spoils the whole.
pub proof fn caches_are_read_record_by_record(
    data: Seq<u8>,
    at: int,
    left: int,
    known: Map<Seq<u8>, CachedView>,
)
    requires
        left > 0,
    ensures
        cache_from(data, at, 0, known) == Some(known),
        record_at(data, at) is None ==> cache_from(data, at, left, known) is None,
        record_at(data, at) matches Some((path, cached, end)) ==> cache_from(data, at, left, known)
            == cache_from(
            data,
            end,
            left - 1,
            known.insert(path_key(stored_path(path)), cached),
        ),
        data.len() < 16 || data.take(8) != seq![82u8, 71, 88, 71, 82, 65, 77, 50] ==> cache_of(
            data,
        ) is None,
{
    assert(GRAMS_HEADER@ =~= seq![82u8, 71, 88, 71, 82, 65, 77, 50]);
}

/// A record is read by the lengths that it gives. It is cut off if the data end
/// before its length, before its numbers, or before its last key.
pub proof fn cache_records_are_read_by_their_lengths(data: Seq<u8>, at: int)
    ensures
        at + 8 > data.len() ==> record_at(data, at) is None,
        at + 8 <= data.len() ==> {
            let q = at + 8 + u64_in(data, at);
            match record_at(data, at) {
                None => q + 40 > data.len() || q + 40 + 8 * u64_in(data, q + 32) > data.len(),
                Some((path, cached, end)) => {
                    let count = u64_in(data, q + 32);
                    &&& end == q + 40 + 8 * count && end <= data.len()
                    &&& path == data.subrange(at + 8, q)
                    &&& cached.mtime == u64_in(data, q) && cached.size == u64_in(data, q + 8)
                    &&& cached.content_hash == u128_in(data, q + 16)
                    &&& cached.grams.len() == count
                    &&& forall|i: int|
                        0 <= i < count ==> #[trigger] cached.grams[i] == u64_in(
                            data,
                            q + 40 + 8 * i,
                        )
                },
            }
        },
{
}

} // verus!
