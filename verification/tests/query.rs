use regex::bytes::Regex;
use rgx::builder::{build_index, BuiltIndex, SourceFile};
use rgx::index::Index;
use rgx::matcher::{match_content, sort_matches, Match, PLAIN_LIMIT};
use rgx::query::{
    candidates, decompose, decompose_ignoring_case, intersect_sorted, intersect_sorted_into, plan_from_literals,
    union_sorted, union_sorted_into, Branch, QueryPlan,
};
use rgx::search::{compile, match_and_sort, search, search_candidates, widen_candidates};

fn grams_of(plan: &QueryPlan) -> Vec<Vec<u8>> {
    plan.prefix
        .iter()
        .flat_map(|b| b.grams.clone())
        .chain(plan.suffix.iter().flat_map(|b| b.grams.clone()))
        .collect()
}

#[test]
fn literal_pattern() {
    let p = decompose("hello world", false);
    assert!(!p.none);
    let grams = grams_of(&p);
    let expect = ["hel", "ell", "llo", "rld", "worl", "lo wo"];
    for e in expect {
        assert!(
            grams.iter().any(|g| g.as_slice() == e.as_bytes()),
            "missing gram {e:?} in {grams:?}"
        );
    }
}

#[test]
fn alternation() {
    let p = decompose("cat|dog", false);
    assert!(!p.none);
    let grams = grams_of(&p);
    assert!(grams.iter().any(|g| g.as_slice() == b"cat"));
    assert!(grams.iter().any(|g| g.as_slice() == b"dog"));
}

#[test]
fn dot_wildcard_is_none() {
    let p = decompose(".*", false);
    assert!(p.none);
}

#[test]
fn case_folding() {
    let p = decompose("Hello", true);
    let grams = grams_of(&p);
    for g in &grams {
        assert!(g.iter().all(|b| !b.is_ascii_uppercase()));
    }
    let p2 = decompose("Hello", false);
    let grams2 = grams_of(&p2);
    assert!(grams2.iter().any(|g| g.contains(&b'H')));
}

#[test]
fn invalid_patterns_impose_no_constraint() {
    let p = decompose("[", true);
    assert!(p.none);
    assert_eq!(p.gram_count(), 0);
}

#[test]
fn branches_hold_sorted_distinct_grams() {
    let p = decompose("hello world", true);
    assert_eq!(p.prefix.len(), 1);
    assert_eq!(p.prefix[0].literal, b"hello world".to_vec());
    let grams: Vec<&str> = p.prefix[0]
        .grams
        .iter()
        .map(|g| std::str::from_utf8(g).unwrap())
        .collect();
    assert_eq!(grams, vec!["ell", "hel", "llo", "lo wo", "rld", "worl"]);
    assert_eq!(p.gram_count(), 6);
    let repeated = decompose("aaaaa", true);
    assert_eq!(repeated.prefix[0].grams, vec![b"aaa".to_vec()]);
}

#[test]
fn a_literal_too_short_for_grams_lifts_the_constraint() {
    let p = decompose("ab|hello", true);
    assert!(p.prefix.is_empty());
    let q = plan_from_literals(
        &Some(vec![b"hello".to_vec(), b"ab".to_vec()]),
        &Some(vec![b"World".to_vec()]),
        true,
    );
    assert!(q.prefix.is_empty());
    assert_eq!(q.suffix.len(), 1);
    assert_eq!(q.suffix[0].literal, b"world".to_vec());
    assert!(!q.none);
}

#[test]
fn sorted_set_algebra() {
    assert_eq!(intersect_sorted(&[1, 3, 5], &[2, 3, 5, 7]), vec![3, 5]);
    assert_eq!(union_sorted(&[1, 3, 5], &[2, 3, 7]), vec![1, 2, 3, 5, 7]);
    assert_eq!(intersect_sorted(&[], &[1]), Vec::<u32>::new());
    assert_eq!(union_sorted(&[], &[1]), vec![1]);
    let mut out = vec![9, 9];
    intersect_sorted_into(&[1, 2], &[2], &mut out);
    assert_eq!(out, vec![2]);
    union_sorted_into(&[4], &[5], &mut out);
    assert_eq!(out, vec![4, 5]);
    // Lists that are not sorted are merged as they come.
    assert_eq!(intersect_sorted(&[3, 1], &[1, 3]), vec![3]);
    assert_eq!(union_sorted(&[3, 1], &[2]), vec![2, 3, 1]);
}

fn built(files: &[(&str, &str)]) -> BuiltIndex {
    let sources: Vec<SourceFile> = files
        .iter()
        .map(|(p, c)| SourceFile {
            path: p.as_bytes().to_vec(),
            meta: Some((1, c.len() as u64)),
            content: Some(c.as_bytes().to_vec()),
        })
        .collect();
    let mut progress = Vec::new();
    match build_index(&sources, &mut progress) {
        Ok(b) => b,
        Err(e) => panic!("{e:?}"),
    }
}

fn opened(b: &BuiltIndex) -> Index<'_> {
    match Index::open(&b.tables.lookup, &b.tables.postings, &b.tables.files, &b.tables.meta) {
        Ok(i) => i,
        Err(e) => panic!("{e:?}"),
    }
}

fn contents(files: &[(&str, &str)]) -> Vec<Option<Vec<u8>>> {
    files.iter().map(|(_, c)| Some(c.as_bytes().to_vec())).collect()
}

/// Builds an index of `files` and searches it.
fn found(files: &[(&str, &str)], pattern: &str, ignore_case: bool) -> Option<Vec<Match>> {
    let b = built(files);
    search(&opened(&b), &contents(files), pattern, ignore_case).ok()
}

#[test]
fn search_returns_sorted_matches() {
    let matches = found(
        &[
            ("/r/a.txt", "line one\nhello there\n"),
            ("/r/b.txt", "hello world\n"),
        ],
        "hello",
        false,
    )
    .unwrap();
    assert_eq!(matches.len(), 2);
    assert!(
        matches[0].path.ends_with("a.txt"),
        "path: {}",
        matches[0].path
    );
    assert!(
        matches[1].path.ends_with("b.txt"),
        "path: {}",
        matches[1].path
    );
    assert_eq!(matches[0].line, 2);
    assert_eq!(matches[1].line, 1);
}

#[test]
fn search_respects_ignore_case() {
    let files = [("/r/a.txt", "Hello world\n"), ("/r/b.txt", "goodbye\n")];
    assert!(found(&files, "hello", false).unwrap().is_empty());
    let matches = found(&files, "hello", true).unwrap();
    assert_eq!(matches.len(), 1);
}

#[test]
fn search_no_match_is_empty() {
    let matches = found(&[("/r/a.txt", "nothing here\n")], "zzzzqqqq", false).unwrap();
    assert!(matches.is_empty());
}

#[test]
fn search_invalid_pattern_errors() {
    assert!(found(&[("/r/a.txt", "x\n")], "[", false).is_none());
}

#[test]
fn search_without_literals_scans_all() {
    let matches = found(&[("/r/a.txt", "abc\n"), ("/r/b.txt", "def\n")], ".", false).unwrap();
    assert_eq!(
        matches.len(),
        2,
        "no-literal pattern must consider all files"
    );
}

const FIXTURE: [(&str, &str); 4] = [
    (
        "/r/src/main.rs",
        "fn main() {\n    let x = 42;\n    println!(\"hello {}\", x);\n}\n",
    ),
    (
        "/r/src/lib.rs",
        "pub fn add(a: i32, b: i32) -> i32 { a + b }\n",
    ),
    (
        "/r/README.md",
        "# hello world\n\nthe greeting is hello.\n",
    ),
    ("/r/notes/tabs.txt", "\tindented\n\tsecond tab\n"),
];

fn shown(matches: &[Match]) -> Vec<(String, u32, String)> {
    matches
        .iter()
        .map(|m| (m.path.clone(), m.line, m.text.clone()))
        .collect()
}

#[test]
fn indexed_matches_brute_force() {
    let patterns = [
        "hello",
        "Hello",
        "hello|add",
        "fn main",
        "42",
        "a + b",
        "[a-z]+",
        "\\d+",
        "tabs?",
        "i32",
        "greeting",
        "x = 4",
        "ab|hello",
        "(hello)?",
        "zz|println",
    ];
    for pat in patterns {
        let re = Regex::new(pat).unwrap();
        let mut brute = Vec::new();
        for (path, content) in FIXTURE {
            match_content(&re, content.as_bytes(), path.to_string(), false, &mut brute);
        }
        let brute = sort_matches(brute);
        let indexed = found(&FIXTURE, pat, false).unwrap();
        assert_eq!(shown(&indexed), shown(&brute), "outputs differ for {pat}");
    }
}

#[test]
fn ignore_case() {
    assert!(found(&FIXTURE, "HELLO", false).unwrap().is_empty());
    let insensitive = found(&FIXTURE, "HELLO", true).unwrap();
    assert!(!insensitive.is_empty(), "case-insensitive query must match");
    assert!(insensitive[0].text.contains("hello"));
}

#[test]
fn ignoring_case_finds_plain_words_in_ascii_files() {
    let files = [
        ("/r/a", "Sink and KISS\n"),
        ("/r/b", "nothing\nsINK AND kiss me\n"),
        ("/r/c", "sink or kiss\n"),
        ("/r/d", "sink_and_kiss\n"),
    ];
    for pattern in ["sink AND kiss", "kiss", "SINK", "Me", "n", "sink_AND_Kiss", "absent"] {
        let matches = found(&files, pattern, true).unwrap();
        let mut brute = Vec::new();
        let compiled = re(&format!("(?i){pattern}"));
        for (path, text) in files {
            match_content(&compiled, text.as_bytes(), path.into(), false, &mut brute);
        }
        assert_eq!(shown(&matches), shown(&brute), "{pattern}");
    }
    let matches = found(&files, "sink AND kiss", true).unwrap();
    assert_eq!(
        shown(&matches),
        vec![
            ("/r/a".to_string(), 1, "Sink and KISS".to_string()),
            ("/r/b".to_string(), 2, "sINK AND kiss me".to_string()),
        ]
    );
}

#[test]
fn letters_that_fold_to_ascii_from_outside_it_are_found() {
    let files = [
        ("/r/a", "\u{212a}elvin"),
        ("/r/b", "KELVIN"),
        ("/r/c", "Ma\u{17f}\u{17f}e"),
        ("/r/d", "celsius"),
    ];
    let kelvin = found(&files, "kelvin", true).unwrap();
    assert_eq!(
        shown(&kelvin),
        vec![
            ("/r/a".to_string(), 1, "\u{212a}elvin".to_string()),
            ("/r/b".to_string(), 1, "KELVIN".to_string()),
        ]
    );
    let masse = found(&files, "MASSE", true).unwrap();
    assert_eq!(shown(&masse), vec![("/r/c".to_string(), 1, files[2].1.to_string())]);
    assert_eq!(found(&files, "kelvin", false).unwrap().len(), 0);
    let sign = found(&files, "\u{212a}ELVIN", true).unwrap();
    assert_eq!(sign.len(), 2);
}

#[test]
fn widened_candidates_keep_what_was_there() {
    let files = [
        ("/r/a", "\u{212a}elvin"),
        ("/r/b", "KELVIN"),
        ("/r/c", "kelvin"),
        ("/r/d", "celsius"),
    ];
    let b = built(&files);
    let index = opened(&b);
    let plan = decompose("kelvin", true);
    let ids = search_candidates(&index, &plan);
    assert_eq!(ids, vec![1, 2]);
    assert_eq!(widen_candidates(&index, "kelvin", ids), vec![0, 1, 2]);
    assert_eq!(widen_candidates(&index, "kelvin", vec![3]), vec![0, 1, 2, 3]);
    assert_eq!(widen_candidates(&index, "celsius", vec![]), vec![3]);
}

#[test]
fn plain_patterns_compile_up_to_the_limit() {
    let files = [("/r/a", "x\n")];
    let b = built(&files);
    let index = opened(&b);
    let texts = contents(&files);
    assert_eq!(PLAIN_LIMIT, 1024);
    for unit in ["k", "s", "z", "0", "_", " "] {
        let pattern = unit.repeat(PLAIN_LIMIT);
        for ignore_case in [false, true] {
            assert!(compile(&pattern, ignore_case).is_ok(), "{unit}");
            let matches = search(&index, &texts, &pattern, ignore_case).ok().unwrap();
            assert!(matches.is_empty(), "{unit}");
        }
    }
}

#[test]
fn repeated_ids_keep_the_lesser_and_the_greater_count() {
    let a = [1, 2, 2, 2, 5, 7, 7];
    let b = [2, 2, 3, 5, 5, 7];
    assert_eq!(intersect_sorted(&a, &b), vec![2, 2, 5, 7]);
    assert_eq!(union_sorted(&a, &b), vec![1, 2, 2, 2, 3, 5, 5, 7, 7]);
}

#[test]
fn a_plan_that_ignores_case_holds_lower_case_literals() {
    let p = decompose_ignoring_case("Hello");
    assert_eq!(p.prefix.len(), 1);
    assert_eq!(p.prefix[0].literal, b"hello".to_vec());
    assert_eq!(p.suffix[0].literal, b"hello".to_vec());
    let p = decompose_ignoring_case("Kiln");
    let literals: Vec<Vec<u8>> = p.prefix.iter().map(|b| b.literal.clone()).collect();
    assert_eq!(literals, vec![b"kiln".to_vec(), b"\xe2\x84\xaailn".to_vec()]);
    assert!(decompose_ignoring_case(".*").none);
    assert!(decompose_ignoring_case("[").none);
}

#[test]
fn shared_grams_count_once() {
    let branch = Branch {
        grams: vec![b"cat".to_vec()],
        literal: b"cat".to_vec(),
    };
    let plan = QueryPlan {
        prefix: vec![branch.clone()],
        suffix: vec![branch],
        none: false,
    };
    assert_eq!(plan.gram_count(), 1);
    assert_eq!(decompose("cat|dog", true).gram_count(), 2);
}

#[test]
fn absent_patterns_have_no_candidates() {
    let b = built(&FIXTURE);
    let index = opened(&b);
    assert_eq!(candidates(&index, &decompose("zzzzqqqq", true)), Some(vec![]));
    assert_eq!(candidates(&index, &decompose(".*", true)), None);
    assert_eq!(candidates(&index, &decompose("println", true)), Some(vec![0]));
    assert_eq!(search_candidates(&index, &decompose(".*", true)), vec![0, 1, 2, 3]);
}

#[test]
fn candidates_need_a_prefix_and_a_suffix() {
    let files = [
        ("/r/a", "prefix-word"),
        ("/r/b", "suffix-word"),
        ("/r/c", "prefix-word ... suffix-word"),
    ];
    let b = built(&files);
    let index = opened(&b);
    let plan = decompose("prefix-.*suffix-word", true);
    assert_eq!(candidates(&index, &plan), Some(vec![2]));
}

#[test]
fn a_branch_without_grams_lets_every_file_through() {
    let b = built(&FIXTURE);
    let index = opened(&b);
    let plan = QueryPlan {
        prefix: vec![Branch {
            grams: Vec::new(),
            literal: b"ab".to_vec(),
        }],
        suffix: Vec::new(),
        none: false,
    };
    assert_eq!(candidates(&index, &plan), None);
}

#[test]
fn unreadable_candidates_are_passed_over() {
    let b = built(&FIXTURE);
    let index = opened(&b);
    let mut texts = contents(&FIXTURE);
    texts[2] = None;
    let matches = match search(&index, &texts, "hello", false) {
        Ok(m) => m,
        Err(_) => panic!("pattern"),
    };
    assert_eq!(matches.len(), 1);
    assert_eq!(matches[0].path, "/r/src/main.rs");
}

#[test]
fn a_compiled_pattern_is_matched_and_an_error_handed_back() {
    let b = built(&FIXTURE);
    let index = opened(&b);
    let texts = contents(&FIXTURE);
    let ok = match match_and_sort(&index, &[2, 0], &texts, compile("HELLO", true), true) {
        Ok(m) => m,
        Err(_) => panic!("pattern"),
    };
    let lines: Vec<(String, u32)> = ok.iter().map(|m| (m.path.clone(), m.line)).collect();
    assert_eq!(
        lines,
        vec![
            ("/r/README.md".to_string(), 1),
            ("/r/README.md".to_string(), 3),
            ("/r/src/main.rs".to_string(), 3),
        ]
    );
    assert_eq!(ok[0].submatches, vec![(2, 7)]);
    let bad = match_and_sort(&index, &[0], &texts, compile("[", false), false);
    match bad {
        Ok(_) => panic!("compiled"),
        Err(e) => assert_eq!(e.error.to_string(), Regex::new("[").unwrap_err().to_string()),
    }
}

#[test]
fn a_pattern_is_malformed_or_too_big_or_compiles() {
    let files = [("/r/a", "Hello\n")];
    let b = built(&files);
    let index = opened(&b);
    let texts = contents(&files);
    for ignore_case in [false, true] {
        for pattern in ["[", "a**b(", "(?P<x>a)(?P<x>b)"] {
            assert!(compile(pattern, ignore_case).err().unwrap().malformed, "{pattern}");
            let error = search(&index, &texts, pattern, ignore_case).err().unwrap();
            assert!(error.malformed, "{pattern}");
        }
        let big = r"\w{1000}{1000}";
        assert!(!compile(big, ignore_case).err().unwrap().malformed);
        assert!(!search(&index, &texts, big, ignore_case).err().unwrap().malformed);
        for pattern in ["hello", "", "some_Words and 42", "x|y"] {
            assert!(compile(pattern, ignore_case).is_ok(), "{pattern}");
            assert!(search(&index, &texts, pattern, ignore_case).is_ok(), "{pattern}");
        }
    }
}

fn re(pattern: &str) -> Regex {
    Regex::new(pattern).unwrap()
}

#[test]
fn matches_lines_and_numbers() {
    let mut out = Vec::new();
    match_content(
        &re("hello"),
        b"hello world\nnothing here\noh hello again\n",
        "f.txt".into(),
        false,
        &mut out,
    );
    assert_eq!(out.len(), 2);
    assert_eq!(out[0].line, 1);
    assert_eq!(out[0].text, "hello world");
    assert_eq!(out[1].line, 3);
    assert_eq!(out[1].text, "oh hello again");
}

#[test]
fn submatches_record_offsets() {
    let mut out = Vec::new();
    match_content(&re("el+"), b"hello\n", "f.txt".into(), true, &mut out);
    assert_eq!(out.len(), 1);
    assert_eq!(out[0].submatches, vec![(1, 4)]);
}

#[test]
fn empty_content_no_matches() {
    let mut out = Vec::new();
    match_content(&re("x"), b"", "f.txt".into(), false, &mut out);
    assert!(out.is_empty());
}

#[test]
fn the_empty_line_after_the_last_newline_counts() {
    let mut out = Vec::new();
    match_content(&re("^$"), b"a\n\nb\n", "f".into(), false, &mut out);
    let lines: Vec<u32> = out.iter().map(|m| m.line).collect();
    assert_eq!(lines, vec![2, 4]);
    let mut out = Vec::new();
    match_content(&re(""), b"", "f".into(), false, &mut out);
    assert_eq!(out.len(), 1);
}

#[test]
fn line_text_is_decoded_lossily() {
    let mut out = Vec::new();
    match_content(&re("b"), b"a\xffb\n", "f".into(), true, &mut out);
    assert_eq!(out[0].text, "a\u{fffd}b");
    assert_eq!(out[0].submatches, vec![(4, 5)]);
    assert_eq!(&out[0].text[4..5], "b");
}

#[test]
fn submatches_are_offsets_in_the_text() {
    let spans = |pattern: &str, line: &[u8]| {
        let mut out = Vec::new();
        match_content(&re(pattern), line, "f.txt".into(), true, &mut out);
        assert_eq!(out.len(), 1);
        (out[0].text.clone(), out[0].submatches.clone())
    };
    assert_eq!(spans("ab", b"\xffab\n"), ("\u{fffd}ab".to_string(), vec![(3, 5)]));
    assert_eq!(
        spans("x", b"x\xffx\xe2\x84x"),
        ("x\u{fffd}x\u{fffd}x".to_string(), vec![(0, 1), (4, 5), (8, 9)])
    );
    assert_eq!(spans("b", "\u{e9}b".as_bytes()), ("\u{e9}b".to_string(), vec![(2, 3)]));
    // A match of a part of a character stands for the whole of it.
    assert_eq!(
        spans(r"(?-u)\xa9", b"\xff\xc3\xa9x"),
        ("\u{fffd}\u{e9}x".to_string(), vec![(3, 5)])
    );
}

fn entry(path: &str, line: u32, text: &str) -> Match {
    Match {
        path: path.to_string(),
        line,
        text: text.to_string(),
        submatches: Vec::new(),
    }
}

#[test]
fn sorting_is_by_path_then_line_and_stable() {
    let out = sort_matches(vec![
        entry("b", 2, "one"),
        entry("a", 9, "two"),
        entry("b", 1, "three"),
        entry("b", 2, "four"),
        entry("a-", 1, "five"),
        entry("", 7, "six"),
    ]);
    let texts: Vec<String> = out.iter().map(|m| m.text.clone()).collect();
    assert_eq!(texts, vec!["six", "two", "five", "three", "one", "four"]);
}

#[test]
fn folding_a_plan_only_lowers_it() {
    for pattern in ["Hello World", "Cat|DOG", "Foo.*BAR", "ab|Hello", "[", ".*", "[A-C]xyz"] {
        let (a, b) = (decompose(pattern, false), decompose(pattern, true));
        assert_eq!(a.none, b.none, "{pattern}");
        assert_eq!(b.none, b.prefix.is_empty() && b.suffix.is_empty());
        for (x, y) in [(&a.prefix, &b.prefix), (&a.suffix, &b.suffix)] {
            assert_eq!(x.len(), y.len(), "{pattern}");
            for (plain, folded) in x.iter().zip(y.iter()) {
                assert_eq!(plain.literal.to_ascii_lowercase(), folded.literal);
                assert!(!folded.grams.is_empty());
                assert!(folded.grams.windows(2).all(|w| w[0] < w[1]));
                assert!(folded.grams.iter().all(|g| g.to_ascii_lowercase() == *g));
            }
        }
    }
}
