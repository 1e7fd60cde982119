//! The n-gram keys under which a file is indexed.

use crate::ngram::{all_grams, build_all_ngrams, fnv1a, gram_key, ngram_hash, GramConsumer};
use crate::sort::{
    is_sorted, sorted, sorted_is_sorted, sorted_keeps_the_items, stable_sort, Ordered,
};
use vstd::prelude::*;

verus! {

/// `b` in lower case, if it is an ASCII letter.
pub open spec fn fold_byte(b: u8) -> u8 {
    if 65 <= b <= 90 {
        (b + 32) as u8
    } else {
        b
    }
}

/// `bytes` with their ASCII letters in lower case.
pub open spec fn fold(bytes: Seq<u8>) -> Seq<u8> {
    bytes.map_values(|b: u8| fold_byte(b))
}

/// `bytes` with their ASCII letters in lower case.
pub fn fold_case(bytes: &[u8]) -> (folded: Vec<u8>)
    ensures
        folded@ == fold(bytes@),
{
    let mut folded: Vec<u8> = Vec::new();
    let mut i: usize = 0;
    while i < bytes.len()
        invariant
            i <= bytes@.len(),
            folded@ == fold(bytes@.take(i as int)),
        decreases bytes@.len() - i,
    {
        let b: u8 = bytes[i];
        let lower: u8 = if 65 <= b && b <= 90 {
            b + 32
        } else {
            b
        };
        folded.push(lower);
        i += 1;
        assert(folded@ =~= fold(bytes@.take(i as int)));
    }
    assert(bytes@.take(i as int) =~= bytes@);
    folded
}

/// The members of `s` without those equal to the one right before them.
pub open spec fn without_repeats<A>(s: Seq<A>) -> Seq<A>
    decreases s.len(),
{
    if s.len() == 0 {
        s
    } else {
        let rest = without_repeats(s.drop_last());
        if rest.len() > 0 && rest.last() == s.last() {
            rest
        } else {
            rest.push(s.last())
        }
    }
}

/// Removing repeats keeps every member, and the last one last.
pub proof fn without_repeats_keeps_members<A>(s: Seq<A>)
    ensures
        forall|a: A| without_repeats(s).contains(a) <==> #[trigger] s.contains(a),
        without_repeats(s).len() <= s.len(),
        s.len() > 0 ==> without_repeats(s).len() > 0 && without_repeats(s).last() == s.last(),
    decreases s.len(),
{
    if s.len() > 0 {
        let init = s.drop_last();
        let rest = without_repeats(init);
        let out = without_repeats(s);
        without_repeats_keeps_members(init);
        assert forall|a: A| out.contains(a) <==> #[trigger] s.contains(a) by {
            assert(init.contains(a) <==> rest.contains(a));
            if s.contains(a) {
                let k = s.index_of(a);
                if k < init.len() {
                    assert(init[k] == a);
                    let r = rest.index_of(a);
                    assert(out[r] == a);
                } else {
                    assert(out[out.len() - 1] == a);
                }
            }
            if out.contains(a) {
                let k = out.index_of(a);
                if k < rest.len() {
                    assert(rest[k] == a);
                    let r = init.index_of(a);
                    assert(s[r] == a);
                } else {
                    assert(s[s.len() - 1] == a);
                }
            }
        }
    }
}

/// Each member is less than the next.
pub open spec fn is_increasing(s: Seq<u64>) -> bool {
    forall|i: int, j: int| 0 <= i < j < s.len() ==> #[trigger] s[i] < #[trigger] s[j]
}

/// A sorted list without repeats is increasing.
pub proof fn lemma_without_repeats_increasing(s: Seq<u64>)
    requires
        is_sorted(s),
    ensures
        is_increasing(without_repeats(s)),
    decreases s.len(),
{
    if s.len() > 0 {
        let init = s.drop_last();
        let rest = without_repeats(init);
        lemma_without_repeats_increasing(init);
        without_repeats_keeps_members(init);
        assert forall|i: int| 0 <= i < rest.len() implies #[trigger] rest[i] <= s.last() by {
            assert(rest.contains(rest[i]));
            assert(init.contains(rest[i]));
            let k = init.index_of(rest[i]);
            assert(!s[s.len() - 1].before(&s[k]));
        }
        if rest.len() > 0 {
            assert forall|i: int| 0 <= i < rest.len() - 1 implies #[trigger] rest[i]
                < rest.last() by {
                assert(rest[i] < rest[rest.len() - 1]);
            }
        }
    }
}

/// The keys of a list of n-grams.
pub open spec fn gram_keys(grams: Seq<Seq<u8>>) -> Seq<u64> {
    grams.map_values(|g: Seq<u8>| gram_key(g))
}

/// The keys under which a file with this content is indexed: those of the
/// n-grams of its folded bytes, in order and without repeats.
pub open spec fn content_keys(content: Seq<u8>) -> Seq<u64> {
    without_repeats(sorted(gram_keys(all_grams(fold(content)))))
}

/// The keys of a file are increasing, and are exactly the keys of the n-grams
/// of its folded content.
pub proof fn content_keys_are_the_gram_keys(content: Seq<u8>)
    ensures
        is_increasing(content_keys(content)),
        forall|key: u64|
            content_keys(content).contains(key) <==> #[trigger] gram_keys(
                all_grams(fold(content)),
            ).contains(key),
{
    let keys = gram_keys(all_grams(fold(content)));
    sorted_is_sorted(keys);
    sorted_keeps_the_items(keys);
    lemma_without_repeats_increasing(sorted(keys));
    without_repeats_keeps_members(sorted(keys));
    assert forall|key: u64| content_keys(content).contains(key) <==> #[trigger] keys.contains(
        key,
    ) by {
        assert(sorted(keys).contains(key) <==> keys.contains(key));
    }
}

/// Keeps the key of each n-gram it receives.
struct KeyCollector {
    keys: Vec<u64>,
    seen: Ghost<Seq<Seq<u8>>>,
}

impl GramConsumer for KeyCollector {
    closed spec fn well_formed(&self) -> bool {
        self.keys@ == gram_keys(self.seen@)
    }

    closed spec fn received(&self) -> Seq<Seq<u8>> {
        self.seen@
    }

    fn consume(&mut self, gram: &[u8]) {
        let ghost grown = self.seen@.push(gram@);
        self.keys.push(ngram_hash(gram));
        self.seen = Ghost(grown);
        assert(self.keys@ =~= gram_keys(grown));
    }
}

/// Removes repeats from a sorted list.
fn remove_repeats(sorted_keys: Vec<u64>) -> (out: Vec<u64>)
    ensures
        out@ == without_repeats(sorted_keys@),
{
    let mut out: Vec<u64> = Vec::new();
    let mut i: usize = 0;
    while i < sorted_keys.len()
        invariant
            i <= sorted_keys@.len(),
            out@ == without_repeats(sorted_keys@.take(i as int)),
        decreases sorted_keys@.len() - i,
    {
        assert(sorted_keys@.take(i + 1).drop_last() =~= sorted_keys@.take(i as int));
        let key: u64 = sorted_keys[i];
        if out.len() == 0 || out[out.len() - 1] != key {
            out.push(key);
        }
        i += 1;
    }
    assert(sorted_keys@.take(i as int) =~= sorted_keys@);
    out
}

/// Collect the distinct n-gram keys of a file's content.
///
/// Bytes are ASCII-folded before n-gram extraction so the index matches query
/// plans made with folding. Folding only widens the candidate set; the
/// matcher looks at the bytes as they are.
pub fn file_grams(content: &[u8]) -> (keys: Vec<u64>)
    ensures
        keys@ == content_keys(content@),
        keys@.len() <= 2 * content@.len(),
{
    let folded = fold_case(content);
    let mut collector = KeyCollector { keys: Vec::new(), seen: Ghost(Seq::empty()) };
    assert(collector.keys@ =~= gram_keys(collector.seen@));
    build_all_ngrams(folded.as_slice(), &mut collector);
    assert(Seq::empty() + all_grams(folded@) =~= all_grams(folded@));
    let ordered = stable_sort(collector.keys);
    proof {
        let keys = gram_keys(all_grams(fold(content@)));
        sorted_keeps_the_items(keys);
        without_repeats_keeps_members(sorted(keys));
        if content@.len() == 0 {
            assert(all_grams(folded@).len() == 0);
        }
    }
    remove_repeats(ordered)
}

/// Folding puts the ASCII letters in lower case, and leaves every other byte,
/// and their places, as they are.
pub proof fn folding_lowers_ascii_letters(bytes: Seq<u8>)
    ensures
        fold(bytes).len() == bytes.len(),
        forall|i: int|
            0 <= i < bytes.len() ==> #[trigger] fold(bytes)[i] == if 'A' as u8 <= bytes[i] <= 'Z'
                as u8 {
                (bytes[i] + 32) as u8
            } else {
                bytes[i]
            },
{
}

/// A file is indexed under the FNV-1a value of each n-gram of its content in
/// lower case, and under nothing else; the keys increase.
pub proof fn files_are_indexed_under_their_grams(content: Seq<u8>, key: u64)
    ensures
        content_keys(content).contains(key) <==> exists|gram: Seq<u8>| #[trigger]
            all_grams(fold(content)).contains(gram) && key == fnv1a(0xcbf29ce484222325, gram),
        forall|i: int, j: int|
            0 <= i < j < content_keys(content).len() ==> #[trigger] content_keys(content)[i]
                < #[trigger] content_keys(content)[j],
{
    content_keys_are_the_gram_keys(content);
    let grams = all_grams(fold(content));
    let keys = gram_keys(grams);
    if keys.contains(key) {
        let i = keys.index_of(key);
        assert(grams.contains(grams[i]));
        assert(key == fnv1a(0xcbf29ce484222325, grams[i]));
    }
    if exists|gram: Seq<u8>| #[trigger]
        grams.contains(gram) && key == fnv1a(0xcbf29ce484222325, gram) {
        let gram = choose|gram: Seq<u8>| #[trigger]
            grams.contains(gram) && key == fnv1a(0xcbf29ce484222325, gram);
        let i = grams.index_of(gram);
        assert(keys[i] == key);
    }
}

/// Repeats that stand side by side are left out, and nothing else is.
pub proof fn only_repeats_are_left_out<A>(s: Seq<A>, a: A)
    ensures
        without_repeats(Seq::<A>::empty()).len() == 0,
        without_repeats(s.push(a)) == if s.len() > 0 && s.last() == a {
            without_repeats(s)
        } else {
            without_repeats(s).push(a)
        },
{
    assert(s.push(a).drop_last() =~= s);
    without_repeats_keeps_members(s);
}

} // verus!
