use rgx::fingerprint::content_hash;
use rgx::keys::KeyTable;
use rgx::ngram::{
    all_ngrams, build_all_ngrams, build_covering_ngrams, covering_ngrams, hash_bigram, ngram_hash,
    DEFAULT_MAX_NGRAM_LENGTH, MIN_NGRAM_LENGTH,
};
use std::collections::HashSet;

#[test]
fn identical_content_same_hash() {
    assert_eq!(
        content_hash(b"the quick brown fox"),
        content_hash(b"the quick brown fox")
    );
}

#[test]
fn differing_content_differs() {
    assert_ne!(
        content_hash(b"the quick brown fox"),
        content_hash(b"the quick brown fyox")
    );
}

#[test]
fn empty_input_stable() {
    assert_eq!(content_hash(b""), content_hash(b""));
}

#[test]
fn fingerprint_halves_are_two_fnv_passes() {
    assert_eq!(content_hash(b""), 0xcbf29ce484222325_9e3779b97f4a7c15_u128);
    assert_eq!((content_hash(b"a") >> 64) as u64, 0xaf63dc4c8601ec8c);
    assert_eq!(ngram_hash(b"a"), 0xaf63dc4c8601ec8c);
    assert_eq!(ngram_hash(b"foobar"), 0x85944171f73967e8);
    assert_eq!(ngram_hash(b""), 0xcbf29ce484222325);
}

#[test]
fn bigram_weight_of_known_pairs() {
    // Zero mixes to zero, whose complement contributes its top 17 bits.
    assert_eq!(hash_bigram(&[0, 0]), (u64::MAX >> 47) as u32);
    let a: u64 = 0xc6a4a7935bd1e995_u64.wrapping_mul(104).wrapping_add(0x228876a7198b743_u64.wrapping_mul(101));
    assert_eq!(hash_bigram(b"hello"), (a + (!a >> 47)) as u32);
}

fn set<const N: usize>(vals: [&str; N]) -> HashSet<String> {
    vals.into_iter().map(String::from).collect()
}

fn all(s: &str) -> HashSet<String> {
    all_ngrams(s.as_bytes())
        .into_iter()
        .map(|b| String::from_utf8(b).unwrap())
        .collect()
}

fn covering(s: &str) -> HashSet<String> {
    covering_ngrams(s.as_bytes(), DEFAULT_MAX_NGRAM_LENGTH)
        .into_iter()
        .map(|b| String::from_utf8(b).unwrap())
        .collect()
}

#[test]
fn reference_simple() {
    assert!(all("he").is_empty());
    assert_eq!(all("hel"), set(["hel"]));
    assert_eq!(all("hell"), set(["hel", "ell"]));
    assert_eq!(
        all("hello world"),
        set([
            "hel", "ell", "llo", "lo ", "o w", "lo w", " wo", "lo wo", "wor", "orl", "worl", "rld"
        ])
    );
}

#[test]
fn reference_simple_covering() {
    assert!(covering("he").is_empty());
    assert_eq!(covering("hel"), set(["hel"]));
    assert_eq!(covering("hell"), set(["hel", "ell"]));
    assert_eq!(
        covering("hello world"),
        set(["hel", "ell", "llo", "rld", "worl", "lo wo"])
    );
}

#[test]
fn reference_split_github_codesearch() {
    assert_eq!(
        all("chester "),
        set(["che", "hes", "ches", "est", "chest", "ste", "ter", "ster", "er "])
    );
    assert_eq!(covering("chester "), set(["chest", "ster", "er "]));
    assert_eq!(covering("chester"), set(["chest", "ster"]));
}

#[test]
fn reference_split_for_loop() {
    assert_eq!(
        all("for(int i=42"),
        set([
            "for", "or(", "for(", "r(i", "for(i", "(in", "int", "(int", "nt ", "t i", " i=",
            "t i=", "i=4", "t i=4", "nt i=4", "(int i=4", "=42"
        ])
    );
    assert_eq!(covering("for(int i=42"), set(["for(i", "(int i=4", "=42"]));
}

#[test]
fn min_length_and_bounds() {
    for s in ["a", "ab", "abc", "abcd", "abcde"] {
        let all = all(s);
        assert!(all.iter().all(|g| g.len() >= MIN_NGRAM_LENGTH));
        let cov = covering(s);
        assert!(cov.iter().all(|g| g.len() >= MIN_NGRAM_LENGTH));
        assert!(cov.len() <= s.len().saturating_sub(2));
    }
}

struct Lcg(u64);

impl Lcg {
    fn next(&mut self) -> u64 {
        self.0 = self
            .0
            .wrapping_mul(6364136223846793005)
            .wrapping_add(1442695040888963407);
        self.0
    }
}

fn random_text(rng: &mut Lcg, len: usize) -> Vec<u8> {
    const ALPHABET: &[u8] =
        b"abcdefghijklmnopqrstuvwxyzABCDEFGHIJKLMNOPQRSTUVWXYZ0123456789_ .;:{}()[]=+-*/\"'\\\n\t<>!?&#%$@~^|";
    (0..len)
        .map(|_| {
            if rng.next() % 16 == 0 {
                rng.next() as u8
            } else {
                ALPHABET[(rng.next() as usize) % ALPHABET.len()]
            }
        })
        .collect()
}

#[test]
fn covering_is_subset_of_all_for_same_string() {
    let mut rng = Lcg(0x5eed);
    for _ in 0..2000 {
        let len = (rng.next() % 120) as usize;
        let s = random_text(&mut rng, len);
        let all: HashSet<Vec<u8>> = all_ngrams(&s).into_iter().collect();
        let cov: HashSet<Vec<u8>> = covering_ngrams(&s, DEFAULT_MAX_NGRAM_LENGTH)
            .into_iter()
            .collect();
        assert!(
            cov.is_subset(&all),
            "cov={cov:?} not subset of all={all:?} for {s:?}"
        );
    }
}

#[test]
fn covering_of_substring_is_subset_of_all_of_document() {
    let mut rng = Lcg(0xacce55);
    for _ in 0..2000 {
        let dlen = (rng.next() % 200) as usize;
        let d = random_text(&mut rng, dlen);
        if d.len() < MIN_NGRAM_LENGTH {
            continue;
        }
        let all_d: HashSet<Vec<u8>> = all_ngrams(&d).into_iter().collect();
        for _ in 0..5 {
            let start = (rng.next() as usize) % d.len();
            let remaining = d.len() - start;
            let len = (rng.next() as usize) % remaining + 1;
            let q = &d[start..start + len];
            let cov_q: HashSet<Vec<u8>> = covering_ngrams(q, DEFAULT_MAX_NGRAM_LENGTH)
                .into_iter()
                .collect();
            assert!(
                cov_q.is_subset(&all_d),
                "covering({q:?}) not subset of all({d:?})\ncov={cov_q:?}\nall={all_d:?}"
            );
        }
    }
}

/// Where the n-grams of a covering stand in the literal, as bigram spans.
fn spans(s: &[u8], grams: &[Vec<u8>]) -> Vec<(usize, usize)> {
    let mut out = Vec::new();
    for g in grams {
        for at in 0..s.len() {
            if s[at..].starts_with(g) {
                out.push((at, at + g.len() - 2));
            }
        }
    }
    out
}

#[test]
fn covering_leaves_no_byte_pair_out() {
    let mut rng = Lcg(0xc0ffee);
    for _ in 0..300 {
        let len = 3 + (rng.next() % 80) as usize;
        let s = random_text(&mut rng, len);
        let grams = covering_ngrams(&s, DEFAULT_MAX_NGRAM_LENGTH);
        let found = spans(&s, &grams);
        for x in 0..s.len() - 2 {
            assert!(found.iter().any(|&(p, q)| p <= x && x < q), "{x} in {s:?}");
        }
    }
}

#[test]
fn counts_and_lengths_are_bounded() {
    let mut rng = Lcg(0xb0b);
    for max in [3usize, 4, 5, 6, 8, 16] {
        for _ in 0..200 {
            let len = (rng.next() % 90) as usize;
            let s = random_text(&mut rng, len);
            let mut raw: Vec<Vec<u8>> = Vec::new();
            build_all_ngrams(&s, &mut raw);
            assert!(s.is_empty() || raw.len() <= 2 * s.len() - 2);
            let mut cov: Vec<Vec<u8>> = Vec::new();
            build_covering_ngrams(&s, &mut cov, max);
            assert!(cov.len() <= s.len().saturating_sub(2));
            assert!(cov.iter().all(|g| g.len() >= 3 && g.len() <= max));
        }
    }
}

#[test]
fn a_run_of_equal_bytes_is_cut_into_trigrams() {
    assert_eq!(covering_ngrams(b"aaaa", 16), vec![b"aaa".to_vec(), b"aaa".to_vec()]);
    assert_eq!(all_ngrams(b"aaaa"), vec![b"aaa".to_vec()]);
    assert_eq!(covering_ngrams(b"aaaaaaaaaaaaaaaaaaaa", 16).len(), 18);
}

#[test]
fn generation_order_is_kept_and_appended() {
    let mut raw: Vec<Vec<u8>> = vec![b"before".to_vec()];
    build_all_ngrams(b"hell", &mut raw);
    assert_eq!(raw, vec![b"before".to_vec(), b"hel".to_vec(), b"ell".to_vec()]);
    build_covering_ngrams(b"hel", &mut raw, 16);
    assert_eq!(raw.len(), 4);
    assert_eq!(raw[3], b"hel".to_vec());
}

#[test]
fn key_table_numbers_distinct_strings() {
    let mut table = KeyTable::new();
    assert_eq!(table.find(b"a"), None);
    assert_eq!(table.insert(b"a"), 0);
    assert_eq!(table.insert(b"b"), 1);
    assert_eq!(table.insert(b"a"), 0);
    assert_eq!(table.find(b"b"), Some(1));
    assert_eq!(table.into_keys(), vec![b"a".to_vec(), b"b".to_vec()]);
}

#[test]
fn one_changed_byte_changes_both_halves() {
    let text = *b"the quick brown fox";
    let hash = content_hash(&text);
    for i in 0..text.len() {
        for bit in 0..8 {
            let mut changed = text;
            changed[i] ^= 1 << bit;
            let other = content_hash(&changed);
            assert_ne!(hash >> 64, other >> 64);
            assert_ne!(hash as u64, other as u64);
        }
    }
}

#[test]
fn covering_grams_overlap_in_their_rims_only() {
    // Were one left out, its inner bytes would not be covered.
    for s in ["abc", "aaaaaaa", "hello world", "for(int i=42", "the quick brown fox jumps"] {
        for max in [3, 5, 8, DEFAULT_MAX_NGRAM_LENGTH] {
            let inner: usize = covering_ngrams(s.as_bytes(), max).iter().map(|g| g.len() - 2).sum();
            assert_eq!(inner, s.len() - 2, "{s} {max}");
        }
    }
}
