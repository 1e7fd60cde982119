use rgx::builder::{
    build_index, update_index, BuildStats, BuiltIndex, IndexBuilder, ProcessedFile, SourceFile,
};
use rgx::cache::load_grams_cache;
use rgx::grams::file_grams;
use rgx::index::{index_format_current, index_format_stale, Index, IndexError};
use rgx::ngram::{covering_ngrams, ngram_hash, DEFAULT_MAX_NGRAM_LENGTH};
use rgx::paths::key_of_path;
use rgx::scanner::{indexable_file, FileFacts, ScanOptions};
use std::path::Path;

fn source(path: &str, mtime: u64, content: &[u8]) -> SourceFile {
    SourceFile {
        path: path.as_bytes().to_vec(),
        meta: Some((mtime, content.len() as u64)),
        content: Some(content.to_vec()),
    }
}

/// The files that a scan with default options lets through.
fn scanned(files: &[(&str, &[u8])]) -> Vec<SourceFile> {
    let mut out = Vec::new();
    for (path, content) in files {
        let name = path.rsplit('/').next().unwrap().to_string();
        let extension = name.rsplit_once('.').map(|(_, e)| e.to_string());
        let facts = FileFacts {
            name: Some(name),
            extension,
            size: Some(content.len() as u64),
        };
        if indexable_file(&facts, Some(content), &ScanOptions::default()) {
            out.push(source(path, 1, content));
        }
    }
    out
}

fn build(files: &[SourceFile]) -> BuiltIndex {
    let mut progress = Vec::new();
    match build_index(files, &mut progress) {
        Ok(b) => b,
        Err(e) => panic!("{e:?}"),
    }
}

fn open(built: &BuiltIndex) -> Index<'_> {
    match Index::open(
        &built.tables.lookup,
        &built.tables.postings,
        &built.tables.files,
        &built.tables.meta,
    ) {
        Ok(i) => i,
        Err(e) => panic!("{e:?}"),
    }
}

fn path_ends_with(index: &Index, id: u32, end: &str) -> bool {
    index.file_path(id).unwrap().ends_with(end.as_bytes())
}

#[test]
fn roundtrip_build_and_load() {
    let files = scanned(&[
        ("/r/a.txt", b"the quick brown fox jumps over the lazy dog"),
        ("/r/b.rs", b"fn main() { println!(\"hello world\"); }"),
        ("/r/c.bin", &[0u8, 1, 2, 0, 5, 0, 0, 3]),
    ]);
    let built = build(&files);
    assert_eq!(built.stats.files, 2, "binary file with nul bytes must be skipped");

    let index = open(&built);
    assert_eq!(index.file_count(), 2);

    for gram in covering_ngrams(b"hello", DEFAULT_MAX_NGRAM_LENGTH) {
        let h = ngram_hash(&gram);
        assert!(
            index.has_ngram(h),
            "missing ngram {:?}",
            String::from_utf8_lossy(&gram)
        );
        let post = index.postings(h);
        assert!(post.iter().any(|&id| path_ends_with(&index, id, "b.rs")));
    }

    let absent = covering_ngrams(b"zzzqqqxxxyyy", DEFAULT_MAX_NGRAM_LENGTH);
    for g in &absent {
        assert!(!index.has_ngram(ngram_hash(g)));
    }
}

#[test]
fn mixed_case_content_indexes_folded_grams() {
    let files = scanned(&[
        ("/r/hit.txt", b"needle_token_UNIQUE_1 sits here\n"),
        ("/r/miss.txt", b"nothing interesting\n"),
    ]);
    let built = build(&files);
    let index = open(&built);
    assert!(index_format_current(&built.tables.lookup));
    assert!(!index_format_stale(&built.tables.lookup));

    let folded = b"needle_token_unique_1";
    for gram in covering_ngrams(folded, DEFAULT_MAX_NGRAM_LENGTH) {
        let post = index.postings(ngram_hash(&gram));
        assert!(
            !post.is_empty(),
            "folded gram {:?} must be indexed",
            String::from_utf8_lossy(&gram)
        );
        assert!(post.iter().any(|&id| path_ends_with(&index, id, "hit.txt")));
        assert!(
            !post.iter().any(|&id| path_ends_with(&index, id, "miss.txt")),
            "unique folded grams must not post miss.txt"
        );
    }
}

#[test]
fn index_format_stale_detects_look1_only() {
    let stale = b"RGXLOOK1\x00\x00\x00\x00\x00\x00\x00\x00";
    assert!(index_format_stale(stale));
    assert!(!index_format_current(stale));

    let garbage = b"garbage-not-a-lookup";
    assert!(!index_format_stale(garbage));
    assert!(!index_format_current(garbage));
    assert!(!index_format_stale(b"RGXLOOK"));
    assert!(index_format_current(b"RGXLOOK2"));
}

#[test]
fn postings_sorted_and_complete() {
    let contents: Vec<(String, String)> = (0..5)
        .map(|i| (format!("/r/f{i}.txt"), format!("shared token number {i}\n")))
        .collect();
    let files: Vec<SourceFile> = contents
        .iter()
        .map(|(p, c)| source(p, 1, c.as_bytes()))
        .collect();
    let built = build(&files);
    let index = open(&built);

    let shared = b"shared";
    for gram in covering_ngrams(shared, DEFAULT_MAX_NGRAM_LENGTH) {
        let post = index.postings(ngram_hash(&gram));
        assert_eq!(post.len(), 5, "gram {:?} should appear in all 5 files", gram);
        let mut sorted = post.clone();
        sorted.sort_unstable();
        assert_eq!(post, sorted, "posting list must be sorted");
    }
}

#[test]
fn empty_tree_produces_empty_index() {
    let built = build(&[]);
    let index = open(&built);
    assert_eq!(index.file_count(), 0);
    assert_eq!(index.ngram_count(), 0);
    assert_eq!(index.posting_count(), 0);
    assert_eq!(built.tables.lookup, b"RGXLOOK2\0\0\0\0\0\0\0\0".to_vec());
    assert_eq!(built.stats.index_bytes, 16 + 24 + 16 + 16 + 16);
}

#[test]
fn corrupt_index_is_rejected_not_panicked() {
    let files = scanned(&[("/r/a.txt", b"the quick brown fox jumps over the lazy dog")]);
    let built = build(&files);
    let t = &built.tables;
    assert!(Index::open(&t.lookup, &t.postings, &t.files, &t.meta).is_ok());

    assert!(Index::open(b"not-a-lookup", &t.postings, &t.files, &t.meta).is_err());

    let cut = &t.postings[..t.postings.len() - 4];
    assert!(Index::open(&t.lookup, cut, &t.files, &t.meta).is_err());
}

#[test]
fn every_cut_of_every_table_is_rejected() {
    let files = scanned(&[("/r/a.txt", b"alpha beta"), ("/r/b.txt", b"alpha gamma")]);
    let built = build(&files);
    let t = &built.tables;
    for m in 0..t.lookup.len() {
        assert!(Index::open(&t.lookup[..m], &t.postings, &t.files, &t.meta).is_err());
    }
    for m in 0..t.postings.len() {
        assert!(Index::open(&t.lookup, &t.postings[..m], &t.files, &t.meta).is_err());
    }
    for m in 0..t.files.len() {
        assert!(Index::open(&t.lookup, &t.postings, &t.files[..m], &t.meta).is_err());
    }
    for m in 0..t.meta.len() {
        assert!(Index::open(&t.lookup, &t.postings, &t.files, &t.meta[..m]).is_err());
    }
}

fn error_of(lookup: &[u8], postings: &[u8], files: &[u8], meta: &[u8]) -> IndexError {
    match Index::open(lookup, postings, files, meta) {
        Ok(_) => panic!("opened"),
        Err(e) => e,
    }
}

#[test]
fn each_corruption_has_its_error() {
    let built = build(&scanned(&[("/r/a.txt", b"alpha beta")]));
    let t = &built.tables;

    assert_eq!(
        error_of(b"RGXLOOK1\0\0\0\0\0\0\0\0", &t.postings, &t.files, &t.meta),
        IndexError::BadMagic
    );
    assert_eq!(IndexError::BadMagic.message(), "bad magic");

    let mut lookup = t.lookup.clone();
    lookup[8] += 1;
    assert_eq!(
        error_of(&lookup, &t.postings, &t.files, &t.meta),
        IndexError::LookupTruncated
    );
    lookup[15] = 0xff;
    assert_eq!(
        error_of(&lookup, &t.postings, &t.files, &t.meta),
        IndexError::LookupTruncated
    );

    assert_eq!(
        error_of(&t.lookup, &t.postings[..20], &t.files, &t.meta),
        IndexError::Truncated
    );

    let mut postings = t.postings.clone();
    postings[15] = 0xff;
    assert_eq!(
        error_of(&t.lookup, &postings, &t.files, &t.meta),
        IndexError::Overflow
    );
    let mut postings = t.postings.clone();
    postings[9] = 1;
    assert_eq!(
        error_of(&t.lookup, &postings, &t.files, &t.meta),
        IndexError::PostingsTruncated
    );

    let mut lookup = t.lookup.clone();
    lookup[24] = 0;
    assert_eq!(
        error_of(&lookup, &t.postings, &t.files, &t.meta),
        IndexError::OffsetOutOfRange
    );

    let mut files = t.files.clone();
    for b in &mut files[16..24] {
        *b = 0xff;
    }
    assert_eq!(
        error_of(&t.lookup, &t.postings, &files, &t.meta),
        IndexError::PathLengthOverflow
    );
    let mut files = t.files.clone();
    files[16] += 1;
    assert_eq!(
        error_of(&t.lookup, &t.postings, &files, &t.meta),
        IndexError::FilesTruncated
    );
    let mut meta = t.meta.clone();
    meta[16] += 1;
    assert_eq!(
        error_of(&t.lookup, &t.postings, &t.files, &meta),
        IndexError::MetaTruncated
    );
    assert_eq!(IndexError::MetaTruncated.message(), "meta table truncated");
}

#[test]
fn an_index_gives_back_paths_times_and_sizes() {
    let files = vec![
        source("/r/a.txt", 11, b"alpha"),
        source("/r/\u{e4}.txt", 12, b"beta!"),
    ];
    let built = build(&files);
    let index = open(&built);
    assert_eq!(index.file_path(0), Some(&b"/r/a.txt"[..]));
    assert_eq!(index.file_path(1), Some("/r/\u{e4}.txt".as_bytes()));
    assert_eq!(index.file_path(2), None);
    assert_eq!(index.file_meta(0), Some((11, 5)));
    assert_eq!(index.file_meta(1), Some((12, 5)));
    assert_eq!(index.file_meta(2), None);
    assert_eq!(index.posting_count(), built.stats.postings);
    assert_eq!(index.ngram_count(), built.stats.ngrams as u64);
}

#[test]
fn paths_that_are_not_utf8_are_stored_with_replacements() {
    let files = vec![SourceFile {
        path: vec![b'/', 0xff, b'x'],
        meta: Some((1, 5)),
        content: Some(b"alpha".to_vec()),
    }];
    let built = build(&files);
    let index = open(&built);
    assert_eq!(index.file_path(0), Some("/\u{fffd}x".as_bytes()));
}

#[test]
fn the_tables_of_one_small_file() {
    let built = build(&[source("/a", 7, b"abc")]);
    let key = ngram_hash(b"abc");
    let mut lookup = b"RGXLOOK2".to_vec();
    lookup.extend_from_slice(&1u64.to_le_bytes());
    lookup.extend_from_slice(&key.to_le_bytes());
    lookup.extend_from_slice(&24u64.to_le_bytes());
    assert_eq!(built.tables.lookup, lookup);

    let mut postings = b"RGXPOST2".to_vec();
    postings.extend_from_slice(&1u64.to_le_bytes());
    postings.extend_from_slice(&1u64.to_le_bytes());
    postings.extend_from_slice(&1u32.to_le_bytes());
    postings.extend_from_slice(&0u32.to_le_bytes());
    assert_eq!(built.tables.postings, postings);

    let mut files = b"RGXFILS2".to_vec();
    files.extend_from_slice(&1u64.to_le_bytes());
    files.extend_from_slice(&2u64.to_le_bytes());
    files.extend_from_slice(b"/a");
    assert_eq!(built.tables.files, files);

    let mut meta = b"RGXMETA2".to_vec();
    meta.extend_from_slice(&1u64.to_le_bytes());
    meta.extend_from_slice(&2u64.to_le_bytes());
    meta.extend_from_slice(b"/a");
    meta.extend_from_slice(&7u64.to_le_bytes());
    meta.extend_from_slice(&3u64.to_le_bytes());
    assert_eq!(built.tables.meta, meta);

    let mut grams = b"RGXGRAM2".to_vec();
    grams.extend_from_slice(&1u64.to_le_bytes());
    grams.extend_from_slice(&2u64.to_le_bytes());
    grams.extend_from_slice(b"/a");
    grams.extend_from_slice(&7u64.to_le_bytes());
    grams.extend_from_slice(&3u64.to_le_bytes());
    grams.extend_from_slice(&rgx::fingerprint::content_hash(b"abc").to_le_bytes());
    grams.extend_from_slice(&1u64.to_le_bytes());
    grams.extend_from_slice(&key.to_le_bytes());
    assert_eq!(built.grams, grams);

    let total = lookup.len() + postings.len() + files.len() + meta.len() + grams.len();
    assert_eq!(built.stats.index_bytes, total as u64);
    assert_eq!(built.stats.bytes_read, 3);
    assert_eq!(built.stats.ngrams, 1);
    assert_eq!(built.stats.postings, 1);
    assert_eq!(built.stats.reused_files, 0);
}

fn all_tables(b: &BuiltIndex) -> Vec<Vec<u8>> {
    vec![
        b.tables.lookup.clone(),
        b.tables.postings.clone(),
        b.tables.files.clone(),
        b.tables.meta.clone(),
        b.grams.clone(),
    ]
}

fn update(files: &[SourceFile], cache: Option<&[u8]>) -> (BuiltIndex, Vec<String>) {
    let mut progress = Vec::new();
    match update_index(files, cache, &mut progress) {
        Ok(b) => (b, progress),
        Err(e) => panic!("{e:?}"),
    }
}

#[test]
fn no_op_update_reuses_everything_and_matches_fresh_build() {
    let files = scanned(&[
        ("/r/a.txt", b"the quick brown fox jumps over the lazy dog"),
        ("/r/b.rs", b"fn main() { println!(\"hello world\"); }"),
        ("/r/c.md", b"# heading\nsome tokens here\n"),
    ]);
    let fresh = build(&files);
    let (updated, progress) = update(&files, Some(&fresh.grams));
    assert_eq!(updated.stats.reused_files, 3, "no changes must reuse every file");
    assert_eq!(updated.stats.bytes_read, 0, "unchanged files must not be re-read");
    assert_eq!(all_tables(&fresh), all_tables(&updated));
    assert_eq!(
        progress,
        vec![
            "scanning: 3 files".to_string(),
            "update: 3 files reused, 0 re-read".to_string(),
            "writing index files".to_string(),
        ]
    );
}

#[test]
fn unchanged_files_are_reused_even_if_unreadable() {
    let mut files = scanned(&[("/r/a.txt", b"alpha token")]);
    let fresh = build(&files);
    files[0].content = None;
    let (updated, _) = update(&files, Some(&fresh.grams));
    assert_eq!(all_tables(&fresh), all_tables(&updated));
}

#[test]
fn touched_files_with_the_same_content_are_read_again() {
    let before = vec![source("/r/a.txt", 1, b"alpha token")];
    let after = vec![source("/r/a.txt", 2, b"alpha token")];
    let (updated, lines) = update(&after, Some(&build(&before).grams));
    assert_eq!(updated.stats.files, 1);
    assert_eq!(updated.stats.reused_files, 0);
    assert_eq!(updated.stats.bytes_read, 11);
    assert!(lines.contains(&"update: 0 files reused, 1 re-read".to_string()));
    assert_eq!(all_tables(&updated), all_tables(&build(&after)));
}

#[test]
fn update_reflects_add_modify_remove() {
    let before = vec![
        source("/r/a.txt", 1, b"alpha token"),
        source("/r/b.txt", 1, b"bravo token"),
    ];
    let built = build(&before);
    let after = vec![
        source("/r/a.txt", 2, b"alpha token extra content"),
        source("/r/c.txt", 2, b"charlie token"),
    ];
    let (updated, _) = update(&after, Some(&built.grams));
    let fresh = build(&after);
    assert_eq!(all_tables(&fresh), all_tables(&updated));

    let index = open(&updated);
    assert_eq!(index.file_count(), 2);
    let alpha_grams = covering_ngrams(b"alpha", DEFAULT_MAX_NGRAM_LENGTH);
    for g in &alpha_grams {
        assert!(
            !index.postings(ngram_hash(g)).is_empty(),
            "gram {:?} of modified file must be present",
            String::from_utf8_lossy(g)
        );
    }
    let bravo_grams = covering_ngrams(b"bravo", DEFAULT_MAX_NGRAM_LENGTH);
    for g in &bravo_grams {
        assert!(
            index.postings(ngram_hash(g)).is_empty(),
            "gram {:?} of removed file must be gone",
            String::from_utf8_lossy(g)
        );
    }
}

#[test]
fn corrupt_or_missing_grams_cache_falls_back_to_full() {
    let files = vec![source("/r/a.txt", 1, b"alpha token")];
    let (updated, progress) = update(&files, Some(b"junk"));
    assert_eq!(
        updated.stats.reused_files, 0,
        "corrupt cache must force a full rebuild"
    );
    assert_eq!(progress[0], "no usable n-gram cache; full rebuild");
    assert_eq!(open(&updated).file_count(), 1);

    let (updated, _) = update(&files, None);
    assert_eq!(updated.stats.reused_files, 0);
    assert_eq!(open(&updated).file_count(), 1);
}

#[test]
fn parallel_build_and_update_many_files() {
    let mut contents: Vec<(String, u64, String)> = (0..50)
        .map(|i| {
            (
                format!("/r/file_{i:03}.txt"),
                1,
                format!("content for file number {i} with unique_token_{i} and common_keyword\n"),
            )
        })
        .collect();
    let sources = |list: &[(String, u64, String)]| -> Vec<SourceFile> {
        list.iter().map(|(p, m, c)| source(p, *m, c.as_bytes())).collect()
    };
    let built = build(&sources(&contents));
    assert_eq!(built.stats.files, 50);

    let index = open(&built);
    assert_eq!(index.file_count(), 50);

    let common_grams = covering_ngrams(b"common_keyword", DEFAULT_MAX_NGRAM_LENGTH);
    for g in &common_grams {
        let post = index.postings(ngram_hash(g));
        assert_eq!(post.len(), 50, "all 50 files should contain common_keyword");
    }

    contents[25].1 = 2;
    contents[25].2 = "modified content with modified_token_25 and common_keyword\n".to_string();
    contents.push((
        "/r/file_050.txt".to_string(),
        2,
        "brand new file with brand_new_token and common_keyword\n".to_string(),
    ));
    let (updated, _) = update(&sources(&contents), Some(&built.grams));
    assert_eq!(updated.stats.files, 51);
    assert_eq!(updated.stats.reused_files, 49);
    assert_eq!(open(&updated).file_count(), 51);
}

#[test]
fn unreadable_files_are_skipped_and_the_rest_is_indexed() {
    let mut files = vec![
        source("/r/a.txt", 1, b"alpha"),
        source("/r/b.txt", 1, b"bravo"),
        source("/r/c.txt", 1, b"charlie"),
    ];
    files[0].meta = None;
    files[1].content = None;
    let built = build(&files);
    let index = open(&built);
    assert_eq!(index.file_count(), 1);
    assert_eq!(index.file_path(0), Some(&b"/r/c.txt"[..]));
}

#[test]
fn the_builder_streams_cache_records() {
    let mut builder = IndexBuilder::new();
    let file = ProcessedFile {
        path: b"/x".to_vec(),
        mtime: 1,
        size: 2,
        content_hash: 3,
        grams: vec![4, 5],
        bytes_read: 2,
        reused: true,
    };
    let bytes = match builder.push(file) {
        Ok(b) => b,
        Err(e) => panic!("{e:?}"),
    };
    assert_eq!(bytes.len(), 8 + 2 + 8 + 8 + 16 + 8 + 16);
    assert_eq!(builder.file_count(), 1);
    assert_eq!(builder.reused_count(), 1);
    let (_, stats) = builder.finish();
    assert_eq!(stats.postings, 2);
    assert_eq!(stats.bytes_read, 2);
    assert_eq!(stats.reused_files, 1);
}

#[test]
fn the_last_cache_record_of_a_path_counts() {
    let first = build(&[source("/x", 1, b"abc")]);
    let second = build(&[source("/x", 2, b"abcd")]);
    let mut data = first.grams.clone();
    data[8] = 2;
    data.extend_from_slice(&second.grams[16..]);
    let cache = load_grams_cache(&data).unwrap();
    let cached = cache.get(b"/x").unwrap();
    assert_eq!(cached.mtime, 2);
    assert_eq!(cached.grams, file_grams(b"abcd"));
    assert_ne!(cached.grams, file_grams(b"abc"));
    assert!(cache.get(b"/y").is_none());
    for m in 0..data.len() {
        assert!(load_grams_cache(&data[..m]).is_none());
    }
}

#[test]
fn paths_have_one_key_if_they_have_the_same_components() {
    let paths = [
        "", "/", "//", ".", "./", "./.", "..", "a", "./a", "a/", "a/.", "/a", "//a", "/./a", "/a/",
        "a/b", "a//b", "a/./b", "a/b/", "a/b/.", "a/b//", "./a/b", "a/../b", "a/.b", "a/..", "ab",
        "/a/b", "/a//b/", "/a/./b", "/.", "...", "a b",
    ];
    for a in paths {
        for b in paths {
            let same = key_of_path(a.as_bytes()) == key_of_path(b.as_bytes());
            assert_eq!(same, Path::new(a) == Path::new(b), "{a:?} {b:?}");
        }
    }
    assert_eq!(key_of_path(b"/r//a/./b/"), b"/r/a/b".to_vec());
    assert_eq!(key_of_path(b"./a/."), b"./a".to_vec());
    assert_eq!(key_of_path(b"///"), b"/".to_vec());
    assert_eq!(key_of_path(b""), b"".to_vec());
}

#[test]
fn a_cached_file_is_found_however_its_path_is_written() {
    let built = build(&[source("/r/a//b", 1, b"abc")]);
    let cache = load_grams_cache(&built.grams).unwrap();
    for path in ["/r/a//b", "/r/a/b", "/r/./a/b", "//r/a/b/"] {
        assert_eq!(cache.get(path.as_bytes()).unwrap().grams, file_grams(b"abc"), "{path}");
    }
    assert!(cache.get(b"r/a/b").is_none());
    let (again, _) = update(&[source("/r/a/b", 1, b"abc")], Some(&built.grams));
    assert_eq!(again.stats.reused_files, 1);
    assert_eq!(again.stats.bytes_read, 0);

    let other = build(&[source("/r/a/b", 2, b"abcd")]);
    let mut data = built.grams.clone();
    data[8] = 2;
    data.extend_from_slice(&other.grams[16..]);
    let both = load_grams_cache(&data).unwrap();
    assert_eq!(both.get(b"/r/a//b").unwrap().mtime, 2);
}

#[test]
fn default_stats_are_zero() {
    let stats = BuildStats::default();
    assert_eq!(stats.files, 0);
    assert_eq!(stats.index_bytes, 0);
}
