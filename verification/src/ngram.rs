//! Sparse n-gram generation.
//!
//! Every adjacent byte pair (a *bigram*) of a string has a fixed weight. A
//! sparse n-gram runs from one bigram to a later one such that every bigram
//! strictly between the two is lighter than both: its ends are the rims of a
//! weight valley. The n-grams of a string are variable-length substrings of
//! at least three bytes.
//!
//! An index stores every n-gram of a document ([`build_all_ngrams`]), while a
//! query needs only a few that together cover the searched literal
//! ([`build_covering_ngrams`]).
//!
//! # Soundness
//!
//! Whether a substring is an n-gram depends on nothing outside it. So when a
//! document contains a literal, every covering n-gram of the literal is an
//! n-gram of the document: [`covering_grams_occur_in_document`].

use crate::keys::{distinct, KeyTable};
use std::collections::VecDeque;
use vstd::prelude::*;
use vstd::slice::slice_subrange;
use vstd::slice::slice_to_vec;

verus! {

/// The shortest n-gram there is (a trigram).
pub const MIN_NGRAM_LENGTH: usize = 3;

/// Default maximum covering n-gram length used at query time.
pub const DEFAULT_MAX_NGRAM_LENGTH: usize = 16;

pub const MUL1: u64 = 0xc6a4a7935bd1e995;

pub const MUL2: u64 = 0x228876a7198b743;

pub const FNV_OFFSET: u64 = 0xcbf29ce484222325;

pub const FNV_PRIME: u64 = 0x100000001b3;

/// The weight of the bigram `(first, second)`.
pub open spec fn bigram_weight(first: u8, second: u8) -> u32 {
    let mix = (first as u64).wrapping_mul(MUL1).wrapping_add((second as u64).wrapping_mul(MUL2));
    (mix + (!mix >> 47)) as u32
}

/// The weights of the adjacent byte pairs of `s`, in order.
pub open spec fn weights(s: Seq<u8>) -> Seq<u32> {
    Seq::new(
        if s.len() >= 2 {
            (s.len() - 1) as nat
        } else {
            0
        },
        |i: int| bigram_weight(s[i], s[i + 1]),
    )
}

/// Deterministic weight of the bigram at `s[0..2]`.
pub fn hash_bigram(s: &[u8]) -> (weight: u32)
    requires
        s@.len() >= 2,
    ensures
        weight == bigram_weight(s@[0], s@[1]),
{
    let a: u64 = (s[0] as u64).wrapping_mul(MUL1).wrapping_add((s[1] as u64).wrapping_mul(MUL2));
    assert(a + (!a >> 47) <= u64::MAX) by (bit_vector);
    (a + (!a >> 47)) as u32
}

/// FNV-1a over `bytes`, starting from `basis`.
pub open spec fn fnv1a(basis: u64, bytes: Seq<u8>) -> u64
    decreases bytes.len(),
{
    if bytes.len() == 0 {
        basis
    } else {
        (fnv1a(basis, bytes.drop_last()) ^ (bytes.last() as u64)).wrapping_mul(FNV_PRIME)
    }
}

/// The index key of an n-gram.
pub open spec fn gram_key(bytes: Seq<u8>) -> u64 {
    fnv1a(FNV_OFFSET, bytes)
}

/// 64-bit hash of a variable-length n-gram, used as the inverted-index key.
///
/// FNV-1a over the n-gram bytes.
pub fn ngram_hash(bytes: &[u8]) -> (key: u64)
    ensures
        key == gram_key(bytes@),
{
    let mut h: u64 = FNV_OFFSET;
    let mut i: usize = 0;
    assert(bytes@.take(0).len() == 0);
    while i < bytes.len()
        invariant
            i <= bytes.len(),
            h == fnv1a(FNV_OFFSET, bytes@.take(i as int)),
        decreases bytes.len() - i,
    {
        assert(bytes@.take(i + 1).drop_last() =~= bytes@.take(i as int));
        h = (h ^ (bytes[i] as u64)).wrapping_mul(FNV_PRIME);
        i += 1;
    }
    assert(bytes@.take(i as int) =~= bytes@);
    h
}

/// Receives the n-grams of a string one by one, in order of generation.
pub trait GramConsumer {
    /// The consumer's own invariant.
    spec fn well_formed(&self) -> bool;

    /// Everything received so far, oldest first.
    spec fn received(&self) -> Seq<Seq<u8>>;

    /// Takes one n-gram.
    fn consume(&mut self, gram: &[u8])
        requires
            old(self).well_formed(),
        ensures
            final(self).well_formed(),
            final(self).received() == old(self).received().push(gram@),
    ;
}

/// The byte strings of a list of byte vectors.
pub open spec fn byte_strings(list: Seq<Vec<u8>>) -> Seq<Seq<u8>> {
    list.map_values(|v: Vec<u8>| v@)
}

impl GramConsumer for Vec<Vec<u8>> {
    open spec fn well_formed(&self) -> bool {
        true
    }

    open spec fn received(&self) -> Seq<Seq<u8>> {
        byte_strings(self@)
    }

    fn consume(&mut self, gram: &[u8]) {
        let ghost before = self@;
        let copy = slice_to_vec(gram);
        self.push(copy);
        assert(byte_strings(self@) =~= byte_strings(before).push(gram@));
    }
}

/// Bigrams `p` and `q` are the rims of a valley: every bigram strictly
/// between them is lighter than both.
pub open spec fn is_valley(w: Seq<u32>, p: int, q: int) -> bool {
    &&& 0 <= p < q < w.len()
    &&& forall|j: int| p < j < q ==> #[trigger] w[j] < w[p] && w[j] < w[q]
}

/// The valleys that end at `q` and start in `lo..hi`, latest start first.
pub open spec fn valleys_ending_at(w: Seq<u32>, q: int, lo: int, hi: int) -> Seq<(int, int)>
    decreases hi - lo,
{
    if hi <= lo {
        Seq::empty()
    } else {
        let rest = valleys_ending_at(w, q, lo, hi - 1);
        if is_valley(w, hi - 1, q) {
            seq![(hi - 1, q)] + rest
        } else {
            rest
        }
    }
}

/// The valleys that end before `n`, by end and then by falling start.
pub open spec fn valleys_before(w: Seq<u32>, n: int) -> Seq<(int, int)>
    decreases n,
{
    if n <= 0 {
        Seq::empty()
    } else {
        valleys_before(w, n - 1) + valleys_ending_at(w, n - 1, 0, n - 1)
    }
}

/// The bytes from the first byte of bigram `span.0` to the last of `span.1`.
pub open spec fn span_bytes(s: Seq<u8>, span: (int, int)) -> Seq<u8> {
    s.subrange(span.0, span.1 + 2)
}

/// The byte strings of a list of spans of `s`.
pub open spec fn spans_bytes(s: Seq<u8>, spans: Seq<(int, int)>) -> Seq<Seq<u8>> {
    spans.map_values(|span: (int, int)| span_bytes(s, span))
}

/// Every n-gram of `s`, in order of generation.
pub open spec fn all_grams(s: Seq<u8>) -> Seq<Seq<u8>> {
    spans_bytes(s, valleys_before(weights(s), weights(s).len() as int))
}

proof fn lemma_valleys_split(w: Seq<u32>, q: int, lo: int, mid: int, hi: int)
    requires
        lo <= mid <= hi,
    ensures
        valleys_ending_at(w, q, lo, hi) == valleys_ending_at(w, q, mid, hi) + valleys_ending_at(
            w,
            q,
            lo,
            mid,
        ),
    decreases hi - mid,
{
    if mid < hi {
        lemma_valleys_split(w, q, lo, mid, hi - 1);
    }
    assert(valleys_ending_at(w, q, lo, hi) =~= valleys_ending_at(w, q, mid, hi)
        + valleys_ending_at(w, q, lo, mid));
}

proof fn lemma_no_valleys(w: Seq<u32>, q: int, lo: int, hi: int)
    requires
        forall|p: int| lo <= p < hi ==> !is_valley(w, p, q),
    ensures
        valleys_ending_at(w, q, lo, hi).len() == 0,
    decreases hi - lo,
{
    if lo < hi {
        lemma_no_valleys(w, q, lo, hi - 1);
    }
}

/// The last entry's bigram, or -1 for an empty stack.
spec fn top_position(stack: Seq<(u32, usize)>) -> int {
    if stack.len() == 0 {
        -1
    } else {
        stack.last().1 as int
    }
}

/// `stack` holds, in order, some bigrams before `i`, each with its weight:
/// none after an entry is heavier than it, and all between two neighbours are
/// lighter than the later one.
spec fn is_descending_stack(w: Seq<u32>, stack: Seq<(u32, usize)>, i: int) -> bool {
    &&& i <= w.len()
    &&& forall|t: int|
        0 <= t < stack.len() ==> (#[trigger] stack[t]).1 < i && stack[t].0 == w[stack[t].1 as int]
    &&& forall|t: int, u: int|
        0 <= t < u < stack.len() ==> (#[trigger] stack[t]).1 < (#[trigger] stack[u]).1
    &&& forall|t: int, j: int|
        0 <= t < stack.len() && stack[t].1 < j < i ==> #[trigger] w[j] <= (#[trigger] stack[t]).0
    &&& forall|t: int| 0 < t < stack.len() ==> #[trigger] is_gap_lighter(w, stack, t)
}

/// All bigrams between entry `t` and the one below it are lighter than it.
spec fn is_gap_lighter(w: Seq<u32>, stack: Seq<(u32, usize)>, t: int) -> bool {
    forall|j: int| stack[t - 1].1 < j < stack[t].1 ==> #[trigger] w[j] < stack[t].0
}

/// `stack` also covers all bigrams before its first entry.
spec fn covers_start(w: Seq<u32>, stack: Seq<(u32, usize)>) -> bool {
    stack.len() > 0 ==> forall|j: int| 0 <= j < stack[0].1 ==> #[trigger] w[j] < stack[0].0
}

/// Every n-gram of `s`, passed to `consumer` in order of generation.
pub fn build_all_ngrams<C: GramConsumer>(s: &[u8], consumer: &mut C)
    requires
        old(consumer).well_formed(),
    ensures
        final(consumer).well_formed(),
        final(consumer).received() == old(consumer).received() + all_grams(s@),
        s@.len() >= 1 ==> all_grams(s@).len() <= 2 * s@.len() - 2,
{
    let n: usize = s.len();
    let ghost w = weights(s@);
    let ghost base = consumer.received();
    if n < 2 {
        assert(all_grams(s@) =~= Seq::empty());
        assert(consumer.received() =~= base + all_grams(s@));
        return;
    }
    let count: usize = n - 1;
    let mut st: Vec<(u32, usize)> = Vec::new();
    let mut i: usize = 0;
    let ghost mut done: Seq<(int, int)> = Seq::empty();
    assert(consumer.received() =~= base + spans_bytes(s@, done));
    while i < count
        invariant
            n == s@.len(),
            n >= 2,
            count == n - 1,
            i <= count,
            w == weights(s@),
            is_descending_stack(w, st@, i as int),
            covers_start(w, st@),
            top_position(st@) == i - 1,
            done == valleys_before(w, i as int),
            done.len() + st@.len() <= 2 * i,
            consumer.well_formed(),
            consumer.received() == base + spans_bytes(s@, done),
        decreases count - i,
    {
        let pair = slice_subrange(s, i, n);
        let h: u32 = hash_bigram(pair);
        assert(h == w[i as int]);
        let ghost mut emitted: Seq<(int, int)> = Seq::empty();
        assert(done + emitted =~= done);
        while st.len() > 0 && h > st[st.len() - 1].0
            invariant
                n == s@.len(),
                n >= 2,
                count == n - 1,
                i < count,
                w == weights(s@),
                h == w[i as int],
                is_descending_stack(w, st@, i as int),
                covers_start(w, st@),
                top_position(st@) <= i - 1,
                forall|j: int|
                    top_position(st@) < j < i ==> #[trigger] w[j] < h && (st@.len() > 0 ==> w[j]
                        < st@.last().0),
                done == valleys_before(w, i as int),
                emitted == valleys_ending_at(w, i as int, top_position(st@) + 1, i as int),
                done.len() + emitted.len() + st@.len() <= 2 * i,
                consumer.well_formed(),
                consumer.received() == base + spans_bytes(s@, done + emitted),
            decreases st@.len(),
        {
            let top: (u32, usize) = st[st.len() - 1];
            let ghost before = st@;
            let gram = slice_subrange(s, top.1, i + 2);
            consumer.consume(gram);
            while st.len() > 1 && st[st.len() - 1].0 == st[st.len() - 2].0
                invariant
                    0 < st@.len() <= before.len(),
                    st@ == before.take(st@.len() as int),
                    forall|t: int|
                        st@.len() - 1 <= t < before.len() ==> (#[trigger] before[t]).0
                            == before.last().0,
                decreases st@.len(),
            {
                st.pop();
                assert(st@ =~= before.take(st@.len() as int));
            }
            st.pop();
            assert(st@ =~= before.take(st@.len() as int));
            proof {
                let low = top_position(st@);
                lemma_pop_run(w, before, st@, i as int);
                lemma_valleys_split(w, i as int, low + 1, top.1 as int, top.1 + 1);
                lemma_valleys_split(w, i as int, low + 1, top.1 + 1, i as int);
                let step = emitted.push((top.1 as int, i as int));
                lemma_no_valleys(w, i as int, low + 1, top.1 as int);
                assert(is_valley(w, top.1 as int, i as int));
                reveal_with_fuel(valleys_ending_at, 2);
                assert(step =~= valleys_ending_at(w, i as int, low + 1, i as int));
                assert(spans_bytes(s@, done + step) =~= spans_bytes(s@, done + emitted).push(
                    gram@,
                ));
                emitted = step;
                assert(consumer.received() =~= base + spans_bytes(s@, done + emitted));
            }
        }
        if st.len() > 0 {
            let top: (u32, usize) = st[st.len() - 1];
            let gram = slice_subrange(s, top.1, i + 2);
            consumer.consume(gram);
            proof {
                lemma_valleys_split(w, i as int, 0, top.1 as int, top.1 + 1);
                lemma_valleys_split(w, i as int, 0, top.1 + 1, i as int);
                let step = emitted.push((top.1 as int, i as int));
                assert(is_valley(w, top.1 as int, i as int));
                assert forall|p: int| 0 <= p < top.1 implies !is_valley(w, p, i as int) by {
                    assert(w[top.1 as int] >= w[i as int]);
                }
                lemma_no_valleys(w, i as int, 0, top.1 as int);
                reveal_with_fuel(valleys_ending_at, 2);
                assert(step =~= valleys_ending_at(w, i as int, 0, i as int));
                assert(spans_bytes(s@, done + step) =~= spans_bytes(s@, done + emitted).push(
                    gram@,
                ));
                emitted = step;
                assert(consumer.received() =~= base + spans_bytes(s@, done + emitted));
            }
        }
        let ghost before = st@;
        st.push((h, i));
        proof {
            lemma_push(w, before, st@, i as int);
            done = done + emitted;
        }
        i += 1;
    }
}

/// Removing the topmost run of equal weights keeps the stack, and nothing
/// between what is left and the removed top starts a valley that ends at `i`.
proof fn lemma_pop_run(w: Seq<u32>, before: Seq<(u32, usize)>, after: Seq<(u32, usize)>, i: int)
    requires
        is_descending_stack(w, before, i),
        covers_start(w, before),
        i < w.len(),
        before.len() > after.len(),
        after == before.take(after.len() as int),
        forall|t: int| after.len() <= t < before.len() ==> (#[trigger] before[t]).0 == before.last().0,
        after.len() > 0 ==> after.last().0 != before.last().0,
        before.last().0 < w[i],
        forall|j: int|
            before.last().1 < j < i ==> #[trigger] w[j] < w[i] && w[j] < before.last().0,
    ensures
        is_descending_stack(w, after, i),
        covers_start(w, after),
        top_position(after) < top_position(before),
        forall|j: int|
            top_position(after) < j < i ==> #[trigger] w[j] < w[i] && (after.len() > 0 ==> w[j]
                < after.last().0),
        forall|p: int| top_position(after) < p < before.last().1 ==> !is_valley(w, p, i),
{
    let k = after.len() as int;
    let low = top_position(after);
    let top = before.last().1 as int;
    let h = before.last().0;
    assert forall|t: int| 0 <= t < after.len() implies after[t] == before[t] by {}
    assert forall|t: int| 0 < t < after.len() implies #[trigger] is_gap_lighter(w, after, t) by {
        assert(is_gap_lighter(w, before, t));
    }
    if k > 0 {
        assert(before[k - 1] == after.last());
        assert(w[before[k].1 as int] <= before[k - 1].0);
        assert(h < after.last().0);
    }
    assert forall|j: int| low < j < i implies #[trigger] w[j] <= h && (j < top ==> exists|m: int|
        j < m < i && w[m] >= w[j]) by {
        if j > top {
        } else {
            lemma_position_in_run(w, before, k, i, j);
        }
    }
    assert forall|p: int| low < p < top implies !is_valley(w, p, i) by {
        assert(w[p] <= h);
        let m = choose|m: int| p < m < i && w[m] >= w[p];
        assert(w[m] >= w[p]);
    }
}

/// A bigram before the top but after the entry below the run is no heavier
/// than the run, and is followed by one that is at least as heavy.
proof fn lemma_position_in_run(
    w: Seq<u32>,
    before: Seq<(u32, usize)>,
    k: int,
    i: int,
    j: int,
)
    requires
        is_descending_stack(w, before, i),
        covers_start(w, before),
        0 <= k < before.len(),
        forall|t: int| k <= t < before.len() ==> (#[trigger] before[t]).0 == before.last().0,
        0 <= j <= before.last().1,
        k > 0 ==> before[k - 1].1 < j,
    ensures
        w[j] <= before.last().0,
        j < before.last().1 ==> exists|m: int| j < m < i && w[m] >= w[j],
    decreases before.len() - k,
{
    if j < before[k].1 {
        assert(k > 0 ==> is_gap_lighter(w, before, k));
        assert(w[j] < before[k].0);
        let m = before[k].1 as int;
        assert(j < m < i && w[m] >= w[j]);
    } else if j == before[k].1 {
        assert(w[j] == before[k].0);
        if k + 1 < before.len() {
            let m = before[k + 1].1 as int;
            assert(before[k].1 < before[k + 1].1);
            assert(w[m] == before[k + 1].0);
            assert(j < m < i && w[m] >= w[j]);
        }
    } else {
        assert(k + 1 < before.len());
        lemma_position_in_run(w, before, k + 1, i, j);
    }
}

/// Pushing the current bigram on a stack whose remaining entries are at least
/// as heavy.
proof fn lemma_push(w: Seq<u32>, before: Seq<(u32, usize)>, after: Seq<(u32, usize)>, i: int)
    requires
        is_descending_stack(w, before, i),
        covers_start(w, before),
        0 <= i < w.len(),
        i <= usize::MAX,
        before.len() > 0 ==> w[i] <= before.last().0,
        after == before.push((w[i], i as usize)),
        forall|j: int| top_position(before) < j < i ==> #[trigger] w[j] < w[i],
    ensures
        is_descending_stack(w, after, i + 1),
        covers_start(w, after),
        top_position(after) == i,
{
    let k = before.len() as int;
    assert(after[k] == (w[i], i as usize));
    assert forall|t: int| 0 <= t < before.len() implies after[t] == before[t] by {}
    assert forall|t: int| 0 < t < after.len() implies #[trigger] is_gap_lighter(w, after, t) by {
        if t < k {
            assert(is_gap_lighter(w, before, t));
        }
    }
    assert forall|t: int, j: int|
        0 <= t < after.len() && after[t].1 < j < i + 1 implies #[trigger] w[j] <= (
    #[trigger] after[t]).0 by {
        if j == i && t < k - 1 {
            assert(before[t].1 < before[k - 1].1);
            assert(w[before[k - 1].1 as int] <= before[t].0);
        }
    }
}

/// The first bigram in `from + 1..end` that is at least as heavy as `from`, or
/// failing that the first of the heaviest ones there.
pub open spec fn next_boundary(w: Seq<u32>, from: int, end: int) -> int
    decreases end - from,
{
    if end <= from + 2 {
        from + 1
    } else {
        let earlier = next_boundary(w, from, end - 1);
        if w[earlier] < w[from] && w[earlier] < w[end - 1] {
            end - 1
        } else {
            earlier
        }
    }
}

pub proof fn lemma_next_boundary_range(w: Seq<u32>, from: int, end: int)
    ensures
        from < next_boundary(w, from, end),
        next_boundary(w, from, end) < end || next_boundary(w, from, end) == from + 1,
    decreases end - from,
{
    if end > from + 2 {
        lemma_next_boundary_range(w, from, end - 1);
    }
}

/// The spans from `from` to `end`, cut at the boundaries on the way.
pub open spec fn boundary_chain(w: Seq<u32>, from: int, end: int) -> Seq<(int, int)>
    decreases end - from,
{
    if from >= end {
        Seq::empty()
    } else {
        let next = next_boundary(w, from, end + 1);
        proof {
            lemma_next_boundary_range(w, from, end + 1);
        }
        seq![(from, next)] + boundary_chain(w, next, end)
    }
}

/// The first bigram after `at` that is heavier than `from`, or the number of
/// bigrams if there is none.
pub open spec fn first_heavier(w: Seq<u32>, from: int, at: int) -> int
    decreases w.len() - at,
{
    if at >= w.len() || w[at] > w[from] {
        at
    } else {
        first_heavier(w, from, at + 1)
    }
}

pub proof fn lemma_first_heavier_range(w: Seq<u32>, from: int, at: int)
    ensures
        at <= first_heavier(w, from, at),
    decreases w.len() - at,
{
    if !(at >= w.len() || w[at] > w[from]) {
        lemma_first_heavier_range(w, from, at + 1);
    }
}

/// The bigram at which a span from `from` is cut for its length.
pub open spec fn length_cut(from: int, max_length: int) -> int {
    if max_length > 5 {
        from + max_length - 3
    } else {
        from + 2
    }
}

/// The covering spans from bigram `from` on, in order of generation.
///
/// A span that would outgrow `max_length` ends at the best boundary seen so
/// far. Otherwise the spans up to the next bigram that is heavier than `from`
/// (or up to the last one) come out together, last first.
pub open spec fn covering_spans(w: Seq<u32>, max_length: int, from: int) -> Seq<(int, int)>
    decreases w.len() - from,
{
    if from + 1 >= w.len() {
        Seq::empty()
    } else {
        let cut = length_cut(from, max_length);
        let heavier = first_heavier(w, from, from + 1);
        if cut < w.len() && cut <= heavier {
            let next = next_boundary(w, from, cut);
            proof {
                lemma_next_boundary_range(w, from, cut);
            }
            seq![(from, next)] + covering_spans(w, max_length, next)
        } else {
            let end = if heavier < w.len() {
                heavier
            } else {
                w.len() - 1
            };
            proof {
                lemma_first_heavier_range(w, from, from + 1);
            }
            boundary_chain(w, from, end).reverse() + covering_spans(w, max_length, end)
        }
    }
}

/// The covering n-grams of `s`, in order of generation.
pub open spec fn covering_grams(s: Seq<u8>, max_length: int) -> Seq<Seq<u8>> {
    spans_bytes(s, covering_spans(weights(s), max_length, 0))
}

/// A boundary is the far rim of a valley, and no other bigram in its window
/// is heavier than it but for where it is as heavy as the near rim.
pub proof fn lemma_next_boundary(w: Seq<u32>, from: int, end: int)
    requires
        0 <= from,
        from + 1 < end <= w.len(),
    ensures
        from < next_boundary(w, from, end) < end,
        is_valley(w, from, next_boundary(w, from, end)),
        forall|k: int|
            from < k < end ==> w[next_boundary(w, from, end)] >= w[from] || #[trigger] w[k]
                <= w[next_boundary(w, from, end)],
    decreases end - from,
{
    if end > from + 2 {
        lemma_next_boundary(w, from, end - 1);
    }
}

/// Those two properties single the boundary out.
proof fn lemma_next_boundary_is(w: Seq<u32>, from: int, end: int, q: int)
    requires
        0 <= from < q < end <= w.len(),
        is_valley(w, from, q),
        forall|k: int| from < k < end ==> w[q] >= w[from] || #[trigger] w[k] <= w[q],
    ensures
        next_boundary(w, from, end) == q,
{
    lemma_next_boundary(w, from, end);
    let b = next_boundary(w, from, end);
    assert(w[b] >= w[from] || w[q] <= w[b]);
    assert(w[q] >= w[from] || w[b] <= w[q]);
}

pub proof fn lemma_first_heavier(w: Seq<u32>, from: int, at: int)
    requires
        0 <= from < at,
        at <= w.len(),
    ensures
        at <= first_heavier(w, from, at) <= w.len(),
        forall|j: int| at <= j < first_heavier(w, from, at) ==> #[trigger] w[j] <= w[from],
        first_heavier(w, from, at) < w.len() ==> w[first_heavier(w, from, at)] > w[from],
    decreases w.len() - at,
{
    if at < w.len() && w[at] <= w[from] {
        lemma_first_heavier(w, from, at + 1);
    }
}

/// The spans between neighbouring entries.
spec fn stack_spans(stack: Seq<(u32, usize)>) -> Seq<(int, int)> {
    Seq::new(
        if stack.len() > 0 {
            (stack.len() - 1) as nat
        } else {
            0
        },
        |t: int| (stack[t].1 as int, stack[t + 1].1 as int),
    )
}

/// A stack whose entries are each other's boundaries is the boundary chain.
proof fn lemma_chain_is_stack(w: Seq<u32>, stack: Seq<(u32, usize)>, end: int)
    requires
        stack.len() > 0,
        stack.last().1 == end,
        end < w.len(),
        forall|t: int, u: int|
            0 <= t < u < stack.len() ==> (#[trigger] stack[t]).1 < (#[trigger] stack[u]).1,
        forall|t: int|
            0 <= t < stack.len() - 1 ==> next_boundary(w, (#[trigger] stack[t]).1 as int, end + 1)
                == stack[t + 1].1,
    ensures
        boundary_chain(w, stack[0].1 as int, end) == stack_spans(stack),
    decreases stack.len(),
{
    if stack.len() == 1 {
        assert(stack_spans(stack) =~= Seq::empty());
    } else {
        let rest = stack.drop_first();
        assert(rest.last() == stack.last());
        assert forall|t: int| 0 <= t < rest.len() - 1 implies next_boundary(
            w,
            (#[trigger] rest[t]).1 as int,
            end + 1,
        ) == rest[t + 1].1 by {
            assert(rest[t] == stack[t + 1]);
        }
        lemma_chain_is_stack(w, rest, end);
        assert(stack[0].1 < stack[1].1);
        assert(stack[0].1 < stack.last().1);
        assert(rest[0] == stack[1]);
        assert(next_boundary(w, stack[0].1 as int, end + 1) == stack[1].1);
        assert(stack_spans(stack) =~= seq![(stack[0].1 as int, stack[1].1 as int)] + stack_spans(
            rest,
        ));
    }
}

/// Hands the spans between neighbouring entries to `consumer`, last first, and
/// leaves the first entry alone on the stack.
fn drain_spans<C: GramConsumer>(s: &[u8], st: &mut VecDeque<(u32, usize)>, consumer: &mut C)
    requires
        old(consumer).well_formed(),
        old(st)@.len() > 0,
        forall|t: int| 0 <= t < old(st)@.len() ==> (#[trigger] old(st)@[t]).1 + 2 <= s@.len(),
        forall|t: int, u: int|
            0 <= t < u < old(st)@.len() ==> (#[trigger] old(st)@[t]).1 < (#[trigger] old(st)@[u]).1,
    ensures
        final(consumer).well_formed(),
        final(st)@ == old(st)@.take(1),
        final(consumer).received() == old(consumer).received() + spans_bytes(
            s@,
            stack_spans(old(st)@).reverse(),
        ),
{
    let n: usize = s.len();
    let ghost full = st@;
    let ghost spans = stack_spans(full).reverse();
    let ghost base = consumer.received();
    assert(spans.take(0) =~= Seq::empty());
    assert(full.take(full.len() as int) =~= full);
    assert(consumer.received() =~= base + spans_bytes(s@, spans.take(0)));
    while st.len() > 1
        invariant
            n == s@.len(),
            0 < st@.len() <= full.len(),
            st@ == full.take(st@.len() as int),
            spans == stack_spans(full).reverse(),
            forall|t: int| 0 <= t < full.len() ==> (#[trigger] full[t]).1 + 2 <= s@.len(),
            forall|t: int, u: int|
                0 <= t < u < full.len() ==> (#[trigger] full[t]).1 < (#[trigger] full[u]).1,
            consumer.well_formed(),
            consumer.received() == base + spans_bytes(s@, spans.take(full.len() - st@.len())),
        decreases st@.len(),
    {
        let ghost k = st@.len() as int;
        assert(st@[k - 1] == full[k - 1]);
        let last_position: usize = st[st.len() - 1].1 + 2;
        st.pop_back();
        assert(st@ =~= full.take(k - 1));
        let back_pos: usize = st[st.len() - 1].1;
        assert(full[k - 2].1 < full[k - 1].1);
        let gram = slice_subrange(s, back_pos, last_position);
        consumer.consume(gram);
        proof {
            let d = full.len() - k;
            assert(spans[d] == (full[k - 2].1 as int, full[k - 1].1 as int));
            assert(spans.take(d + 1) =~= spans.take(d).push(spans[d]));
            assert(spans_bytes(s@, spans.take(d + 1)) =~= spans_bytes(s@, spans.take(d)).push(
                gram@,
            ));
            assert(consumer.received() =~= base + spans_bytes(s@, spans.take(d + 1)));
        }
    }
    assert(spans.take(full.len() - 1) =~= spans);
}

/// What is left to hand out once the stack `st` has been built up to `i`.
spec fn pending_spans(w: Seq<u32>, max_length: int, st: Seq<(u32, usize)>) -> Seq<(int, int)> {
    covering_spans(
        w,
        max_length,
        if st.len() > 0 {
            st[0].1 as int
        } else {
            0
        },
    )
}

/// The minimal *covering* set of n-grams of `s`, passed to `consumer` in order
/// of generation.
///
/// There are at most two less of them than `s` has bytes, and from three bytes
/// up none is longer than `max_ngram_length`: see
/// [`covering_spans_are_few_and_short`]. None can be left out:
/// see [`no_covering_gram_can_be_left_out`].
pub fn build_covering_ngrams<C: GramConsumer>(
    s: &[u8],
    consumer: &mut C,
    max_ngram_length: usize,
)
    requires
        old(consumer).well_formed(),
    ensures
        final(consumer).well_formed(),
        final(consumer).received() == old(consumer).received() + covering_grams(
            s@,
            max_ngram_length as int,
        ),
{
    let n: usize = s.len();
    let ghost w = weights(s@);
    let ghost base = consumer.received();
    let ghost m = max_ngram_length as int;
    if n < 2 {
        assert(covering_grams(s@, m) =~= Seq::empty());
        assert(consumer.received() =~= base + covering_grams(s@, m));
        return;
    }
    let count: usize = n - 1;
    let mut st: VecDeque<(u32, usize)> = VecDeque::new();
    let mut i: usize = 0;
    let ghost goal = covering_spans(w, m, 0);
    let ghost mut done: Seq<(int, int)> = Seq::empty();
    assert(consumer.received() =~= base + spans_bytes(s@, done));
    assert(done + goal =~= goal);
    while i < count
        invariant
            n == s@.len(),
            n >= 2,
            count == n - 1,
            i <= count,
            w == weights(s@),
            m == max_ngram_length,
            is_descending_stack(w, st@, i as int),
            i > 0 ==> st@.len() > 0 && top_position(st@) == i - 1,
            i == 0 ==> st@.len() == 0,
            st@.len() > 0 ==> i <= length_cut(st@[0].1 as int, m),
            goal == done + pending_spans(w, m, st@),
            consumer.well_formed(),
            consumer.received() == base + spans_bytes(s@, done),
        decreases count - i,
    {
        let pair = slice_subrange(s, i, n);
        let h: u32 = hash_bigram(pair);
        assert(h == w[i as int]);
        if st.len() > 1 && (max_ngram_length <= 3 || i - st[0].1 >= max_ngram_length - 3) {
            let front_pos: usize = st[0].1;
            let second_pos: usize = st[1].1;
            let ghost before = st@;
            assert(before[0].1 < before[1].1);
            let gram = slice_subrange(s, front_pos, second_pos + 2);
            consumer.consume(gram);
            st.pop_front();
            proof {
                lemma_cut_front(w, before, i as int, m);
                assert(st@ =~= before.drop_first());
                let span = (front_pos as int, second_pos as int);
                assert(spans_bytes(s@, done.push(span)) =~= spans_bytes(s@, done).push(gram@));
                assert(goal =~= done.push(span) + pending_spans(w, m, st@));
                done = done.push(span);
                assert(consumer.received() =~= base + spans_bytes(s@, done));
            }
        }
        let ghost entry = st@;
        assert(entry.len() == 1 ==> entry[0] == entry.last());
        while st.len() > 0 && h > st[st.len() - 1].0
            invariant
                n == s@.len(),
                n >= 2,
                count == n - 1,
                i < count,
                w == weights(s@),
                m == max_ngram_length,
                h == w[i as int],
                is_descending_stack(w, st@, i as int),
                st@.len() > 0 ==> i < length_cut(st@[0].1 as int, m),
                st@.len() > 0 ==> forall|j: int|
                    top_position(st@) < j < i ==> #[trigger] w[j] < h && w[j] < st@[0].0,
                st@.len() == 0 && i > 0 ==> goal == done + covering_spans(w, m, i as int),
                st@.len() == 0 && i == 0 ==> goal == done + covering_spans(w, m, 0),
                st@.len() > 0 ==> goal == done + covering_spans(w, m, st@[0].1 as int),
                consumer.well_formed(),
                consumer.received() == base + spans_bytes(s@, done),
            decreases st@.len(),
        {
            let ghost before = st@;
            if st[0].0 == st[st.len() - 1].0 {
                let back_pos: usize = st[st.len() - 1].1;
                let gram = slice_subrange(s, back_pos, i + 2);
                consumer.consume(gram);
                let ghost tail = stack_spans(before).reverse();
                drain_spans(s, &mut st, consumer);
                proof {
                    lemma_clear(w, before, i as int, m);
                    let span = (back_pos as int, i as int);
                    let grown = done + (seq![span] + tail);
                    assert(spans_bytes(s@, grown) =~= spans_bytes(s@, done).push(gram@)
                        + spans_bytes(s@, tail));
                    assert(goal =~= grown + covering_spans(w, m, i as int));
                    done = grown;
                    assert(consumer.received() =~= base + spans_bytes(s@, done));
                }
                st.pop_back();
                assert(st@ =~= Seq::empty());
            } else {
                st.pop_back();
                proof {
                    lemma_pop_back(w, before, st@, i as int);
                }
            }
        }
        let ghost before = st@;
        st.push_back((h, i));
        proof {
            lemma_push_back(w, before, st@, i as int);
        }
        i += 1;
    }
    proof {
        lemma_finish(w, st@, m);
        let tail = stack_spans(st@).reverse();
        assert(spans_bytes(s@, done + tail) =~= spans_bytes(s@, done) + spans_bytes(s@, tail));
        assert(goal == done + tail);
    }
    let ghost received = consumer.received();
    drain_spans(s, &mut st, consumer);
    assert(consumer.received() =~= base + spans_bytes(s@, goal));
}

/// Cutting the front entry off for its length.
proof fn lemma_cut_front(w: Seq<u32>, before: Seq<(u32, usize)>, i: int, m: int)
    requires
        is_descending_stack(w, before, i),
        i < w.len(),
        before.len() > 1,
        before.last().1 == i - 1,
        i == length_cut(before[0].1 as int, m),
    ensures
        is_descending_stack(w, before.drop_first(), i),
        i < length_cut(before[1].1 as int, m),
        covering_spans(w, m, before[0].1 as int) == seq![
            (before[0].1 as int, before[1].1 as int),
        ] + covering_spans(w, m, before[1].1 as int),
{
    let f = before[0].1 as int;
    let q = before[1].1 as int;
    let rest = before.drop_first();
    assert(before[0].1 < before[1].1);
    assert forall|t: int| 0 <= t < rest.len() implies rest[t] == before[t + 1] by {}
    assert forall|t: int| 0 < t < rest.len() implies #[trigger] is_gap_lighter(w, rest, t) by {
        assert(is_gap_lighter(w, before, t + 1));
    }
    assert(is_gap_lighter(w, before, 1));
    assert(w[q] <= before[0].0);
    assert(is_valley(w, f, q)) by {
        assert forall|j: int| f < j < q implies #[trigger] w[j] < w[f] && w[j] < w[q] by {
            assert(w[j] < before[1].0);
        }
    }
    assert forall|k: int| f < k < i implies w[q] >= w[f] || #[trigger] w[k] <= w[q] by {
        if k > q {
            assert(w[k] <= before[1].0);
        } else if k < q {
            assert(w[k] < before[1].0);
        }
    }
    lemma_next_boundary_is(w, f, i, q);
    lemma_first_heavier(w, f, f + 1);
    let g = first_heavier(w, f, f + 1);
    if g < i {
        assert(w[g] <= before[0].0);
    }
}

/// Popping a back entry that is lighter than the front one.
proof fn lemma_pop_back(w: Seq<u32>, before: Seq<(u32, usize)>, after: Seq<(u32, usize)>, i: int)
    requires
        is_descending_stack(w, before, i),
        i < w.len(),
        before.len() > 0,
        before[0].0 != before.last().0,
        before.last().0 < w[i],
        after == before.drop_last(),
        forall|j: int| before.last().1 < j < i ==> #[trigger] w[j] < w[i] && w[j] < before[0].0,
    ensures
        after.len() > 0,
        after[0] == before[0],
        is_descending_stack(w, after, i),
        forall|j: int| top_position(after) < j < i ==> #[trigger] w[j] < w[i] && w[j] < after[0].0,
{
    let k = before.len() as int;
    if k == 1 {
        assert(before[0] == before.last());
    }
    assert(before[k - 1] == before.last());
    assert(before[0].1 < before[k - 1].1);
    assert(w[before[k - 1].1 as int] <= before[0].0);
    assert forall|t: int| 0 <= t < after.len() implies after[t] == before[t] by {}
    assert forall|t: int| 0 < t < after.len() implies #[trigger] is_gap_lighter(w, after, t) by {
        assert(is_gap_lighter(w, before, t));
    }
    assert(is_gap_lighter(w, before, k - 1));
    assert forall|j: int| top_position(after) < j < i implies #[trigger] w[j] < w[i] && w[j]
        < after[0].0 by {
        assert(before[k - 2] == after.last());
        if j < before[k - 1].1 {
            assert(w[j] < before[k - 1].0);
        }
    }
}

/// A bigram heavier than the front entry ends the whole stack, all of whose
/// remaining entries weigh the same.
proof fn lemma_clear(w: Seq<u32>, before: Seq<(u32, usize)>, i: int, m: int)
    requires
        is_descending_stack(w, before, i),
        i < w.len(),
        i <= usize::MAX,
        before.len() > 0,
        before[0].0 == before.last().0,
        before.last().0 < w[i],
        i < length_cut(before[0].1 as int, m),
        forall|j: int| before.last().1 < j < i ==> #[trigger] w[j] < w[i] && w[j] < before[0].0,
    ensures
        covering_spans(w, m, before[0].1 as int) == (seq![(before.last().1 as int, i)]
            + stack_spans(before).reverse()) + covering_spans(w, m, i),
{
    let k = before.len() as int;
    let f = before[0].1 as int;
    let full = before.push((w[i], i as usize));
    assert(full[k] == (w[i], i as usize));
    assert forall|t: int| 0 <= t < k implies full[t] == before[t] by {}
    assert forall|t: int| 0 <= t < k implies (#[trigger] before[t]).0 == before[0].0 by {
        if 0 < t {
            assert(before[0].1 < before[t].1);
            assert(w[before[t].1 as int] <= before[0].0);
        }
        if t < k - 1 {
            assert(before[t].1 < before[k - 1].1);
            assert(w[before[k - 1].1 as int] <= before[t].0);
        }
    }
    assert forall|t: int| 0 <= t < full.len() - 1 implies next_boundary(
        w,
        (#[trigger] full[t]).1 as int,
        i + 1,
    ) == full[t + 1].1 by {
        let p = full[t].1 as int;
        let q = full[t + 1].1 as int;
        assert(full[t] == before[t]);
        if t + 1 < k {
            assert(full[t + 1] == before[t + 1]);
            assert(before[t].1 < before[t + 1].1);
        } else {
            assert(before[t] == before.last());
        }
        assert(is_valley(w, p, q)) by {
            assert forall|j: int| p < j < q implies #[trigger] w[j] < w[p] && w[j] < w[q] by {
                if t + 1 < k {
                    assert(is_gap_lighter(w, before, t + 1));
                    assert(w[j] < before[t + 1].0);
                }
            }
        }
        assert(w[q] >= w[p]);
        lemma_next_boundary_is(w, p, i + 1, q);
    }
    assert forall|t: int, u: int| 0 <= t < u < full.len() implies (#[trigger] full[t]).1 < (
    #[trigger] full[u]).1 by {
        assert(full[t] == before[t]);
        if u < k {
            assert(full[u] == before[u]);
        }
    }
    lemma_chain_is_stack(w, full, i);
    assert(stack_spans(full).reverse() =~= seq![(before.last().1 as int, i)] + stack_spans(
        before,
    ).reverse());
    lemma_first_heavier(w, f, f + 1);
    let g = first_heavier(w, f, f + 1);
    if g < i {
        assert(w[g] <= before[0].0);
    }
    assert(g == i);
    assert(covering_spans(w, m, f) == boundary_chain(w, f, i).reverse() + covering_spans(w, m, i));
}

/// Pushing the current bigram on a stack whose entries are all at least as
/// heavy.
proof fn lemma_push_back(w: Seq<u32>, before: Seq<(u32, usize)>, after: Seq<(u32, usize)>, i: int)
    requires
        is_descending_stack(w, before, i),
        0 <= i < w.len(),
        i <= usize::MAX,
        before.len() > 0 ==> w[i] <= before.last().0,
        after == before.push((w[i], i as usize)),
        before.len() > 0 ==> forall|j: int| top_position(before) < j < i ==> #[trigger] w[j] < w[i],
    ensures
        is_descending_stack(w, after, i + 1),
        top_position(after) == i,
        after.len() > 0,
        before.len() > 0 ==> after[0] == before[0],
        before.len() == 0 ==> after[0].1 == i,
{
    let k = before.len() as int;
    assert(after[k] == (w[i], i as usize));
    assert forall|t: int| 0 <= t < before.len() implies after[t] == before[t] by {}
    assert forall|t: int| 0 < t < after.len() implies #[trigger] is_gap_lighter(w, after, t) by {
        if t < k {
            assert(is_gap_lighter(w, before, t));
        }
    }
    assert forall|t: int, j: int|
        0 <= t < after.len() && after[t].1 < j < i + 1 implies #[trigger] w[j] <= (
    #[trigger] after[t]).0 by {
        if j == i && t < k - 1 {
            assert(before[t].1 < before[k - 1].1);
            assert(w[before[k - 1].1 as int] <= before[t].0);
        }
    }
}

/// What is on the stack when the bigrams run out.
proof fn lemma_finish(w: Seq<u32>, st: Seq<(u32, usize)>, m: int)
    requires
        is_descending_stack(w, st, w.len() as int),
        st.len() > 0,
        st.last().1 == w.len() - 1,
        w.len() <= length_cut(st[0].1 as int, m),
    ensures
        covering_spans(w, m, st[0].1 as int) == stack_spans(st).reverse(),
{
    let k = st.len() as int;
    let f = st[0].1 as int;
    let end = w.len() - 1;
    assert forall|t: int| 0 <= t < k - 1 implies next_boundary(
        w,
        (#[trigger] st[t]).1 as int,
        end + 1,
    ) == st[t + 1].1 by {
        let p = st[t].1 as int;
        let q = st[t + 1].1 as int;
        assert(st[t].1 < st[t + 1].1);
        assert(w[q] <= st[t].0);
        assert(is_gap_lighter(w, st, t + 1));
        assert(is_valley(w, p, q)) by {
            assert forall|j: int| p < j < q implies #[trigger] w[j] < w[p] && w[j] < w[q] by {
                assert(w[j] < st[t + 1].0);
            }
        }
        assert forall|x: int| p < x < end + 1 implies w[q] >= w[p] || #[trigger] w[x] <= w[q] by {
            if x > q {
                assert(w[x] <= st[t + 1].0);
            } else if x < q {
                assert(w[x] < st[t + 1].0);
            }
        }
        lemma_next_boundary_is(w, p, end + 1, q);
    }
    lemma_chain_is_stack(w, st, end);
    if f < end {
        lemma_first_heavier(w, f, f + 1);
        let g = first_heavier(w, f, f + 1);
        if g < w.len() {
            assert(w[g] <= st[0].0);
        }
        assert(covering_spans(w, m, end) =~= Seq::empty());
        assert(boundary_chain(w, f, end).reverse() + Seq::empty() =~= boundary_chain(
            w,
            f,
            end,
        ).reverse());
    } else {
        if k > 1 {
            assert(st[0].1 < st[k - 1].1);
        }
        assert(stack_spans(st).reverse() =~= Seq::empty());
    }
}

/// Keeps each n-gram it receives once.
struct DistinctGrams {
    table: KeyTable,
    seen: Ghost<Seq<Seq<u8>>>,
}

impl GramConsumer for DistinctGrams {
    closed spec fn well_formed(&self) -> bool {
        self.table.well_formed() && self.table@ == distinct(self.seen@)
    }

    closed spec fn received(&self) -> Seq<Seq<u8>> {
        self.seen@
    }

    fn consume(&mut self, gram: &[u8]) {
        let ghost grown = self.seen@.push(gram@);
        assert(grown.drop_last() =~= self.seen@);
        self.table.insert(gram);
        self.seen = Ghost(grown);
    }
}

/// Collect the distinct n-grams of `s`, each at its first occurrence.
pub fn all_ngrams(s: &[u8]) -> (grams: Vec<Vec<u8>>)
    ensures
        byte_strings(grams@) == distinct(all_grams(s@)),
{
    let mut out = DistinctGrams { table: KeyTable::new(), seen: Ghost(Seq::empty()) };
    build_all_ngrams(s, &mut out);
    assert(Seq::empty() + all_grams(s@) =~= all_grams(s@));
    out.table.into_keys()
}

/// Collect the covering n-grams of `s`.
pub fn covering_ngrams(s: &[u8], max_ngram_length: usize) -> (grams: Vec<Vec<u8>>)
    ensures
        byte_strings(grams@) == covering_grams(s@, max_ngram_length as int),
{
    let mut out: Vec<Vec<u8>> = Vec::new();
    assert(out.received() =~= Seq::empty());
    build_covering_ngrams(s, &mut out, max_ngram_length);
    assert(Seq::empty() + covering_grams(s@, max_ngram_length as int) =~= covering_grams(
        s@,
        max_ngram_length as int,
    ));
    out
}

/// What holds of each span of a chain from `from` to `end`, and of all of them.
pub proof fn lemma_boundary_chain(w: Seq<u32>, from: int, end: int)
    requires
        0 <= from,
        end < w.len(),
    ensures
        forall|k: int|
            0 <= k < boundary_chain(w, from, end).len() ==> is_valley(
                w,
                (#[trigger] boundary_chain(w, from, end)[k]).0,
                boundary_chain(w, from, end)[k].1,
            ) && from <= boundary_chain(w, from, end)[k].0 && boundary_chain(w, from, end)[k].1
                <= end,
        from <= end ==> boundary_chain(w, from, end).len() <= end - from,
        forall|x: int|
            from <= x < end ==> #[trigger] is_inside_some(boundary_chain(w, from, end), x),
    decreases end - from,
{
    if from < end {
        let next = next_boundary(w, from, end + 1);
        let chain = boundary_chain(w, from, end);
        let rest = boundary_chain(w, next, end);
        lemma_next_boundary(w, from, end + 1);
        lemma_boundary_chain(w, next, end);
        assert(chain == seq![(from, next)] + rest);
        assert forall|k: int| 0 <= k < chain.len() implies is_valley(
            w,
            (#[trigger] chain[k]).0,
            chain[k].1,
        ) && from <= chain[k].0 && chain[k].1 <= end by {
            if k > 0 {
                assert(chain[k] == rest[k - 1]);
            }
        }
        assert forall|x: int| from <= x < end implies #[trigger] is_inside_some(chain, x) by {
            if x < next {
                assert(chain[0].0 <= x < chain[0].1);
            } else {
                assert(is_inside_some(rest, x));
                let k = choose|k: int| 0 <= k < rest.len() && (#[trigger] rest[k]).0 <= x < rest[k].1;
                assert(chain[k + 1] == rest[k]);
            }
        }
    }
}

/// Bigrams `x` and `x + 1` lie within one of the spans.
pub open spec fn is_inside_some(spans: Seq<(int, int)>, x: int) -> bool {
    exists|k: int| 0 <= k < spans.len() && (#[trigger] spans[k]).0 <= x < spans[k].1
}

/// Each covering span from `from` on is a valley of bounded length, there is
/// at most one for each later bigram, and together they leave none out.
pub proof fn lemma_covering_spans(w: Seq<u32>, max_length: int, from: int)
    requires
        0 <= from,
    ensures
        forall|k: int|
            0 <= k < covering_spans(w, max_length, from).len() ==> is_valley(
                w,
                (#[trigger] covering_spans(w, max_length, from)[k]).0,
                covering_spans(w, max_length, from)[k].1,
            ) && from <= covering_spans(w, max_length, from)[k].0 && (max_length >= 3
                ==> covering_spans(w, max_length, from)[k].1 - covering_spans(
                w,
                max_length,
                from,
            )[k].0 + 2 <= max_length),
        from < w.len() ==> covering_spans(w, max_length, from).len() <= w.len() - 1 - from,
        from >= w.len() ==> covering_spans(w, max_length, from).len() == 0,
        forall|x: int|
            from <= x < w.len() - 1 ==> #[trigger] is_inside_some(
                covering_spans(w, max_length, from),
                x,
            ),
    decreases w.len() - from,
{
    if from + 1 < w.len() {
        let spans = covering_spans(w, max_length, from);
        let cut = length_cut(from, max_length);
        let heavier = first_heavier(w, from, from + 1);
        lemma_first_heavier(w, from, from + 1);
        let (head, next) = if cut < w.len() && cut <= heavier {
            let next = next_boundary(w, from, cut);
            lemma_next_boundary(w, from, cut);
            (seq![(from, next)], next)
        } else {
            let end = if heavier < w.len() {
                heavier
            } else {
                w.len() - 1
            };
            lemma_boundary_chain(w, from, end);
            (boundary_chain(w, from, end).reverse(), end)
        };
        let rest = covering_spans(w, max_length, next);
        lemma_covering_spans(w, max_length, next);
        assert(spans == head + rest);
        assert(head.len() <= next - from);
        assert forall|k: int| 0 <= k < head.len() implies is_valley(
            w,
            (#[trigger] head[k]).0,
            head[k].1,
        ) && from <= head[k].0 && head[k].1 <= next by {
            if !(cut < w.len() && cut <= heavier) {
                let chain = boundary_chain(w, from, next);
                assert(head[k] == chain[chain.len() - 1 - k]);
            }
        }
        assert(next < cut);
        assert forall|k: int| 0 <= k < spans.len() implies is_valley(
            w,
            (#[trigger] spans[k]).0,
            spans[k].1,
        ) && from <= spans[k].0 && (max_length >= 3 ==> spans[k].1 - spans[k].0 + 2
            <= max_length) by {
            if k < head.len() {
                assert(spans[k] == head[k]);
            } else {
                assert(spans[k] == rest[k - head.len()]);
            }
        }
        assert forall|x: int| from <= x < w.len() - 1 implies #[trigger] is_inside_some(
            spans,
            x,
        ) by {
            if x >= next {
                assert(is_inside_some(rest, x));
                let k = choose|k: int| 0 <= k < rest.len() && (#[trigger] rest[k]).0 <= x < rest[k].1;
                assert(spans[head.len() + k] == rest[k]);
            } else if cut < w.len() && cut <= heavier {
                assert(spans[0] == head[0]);
            } else {
                let chain = boundary_chain(w, from, next);
                assert(is_inside_some(chain, x));
                let k = choose|k: int| 0 <= k < chain.len() && (#[trigger] chain[k]).0 <= x < chain[k].1;
                assert(spans[chain.len() - 1 - k] == chain[k]);
            }
        }
    }
}

/// A literal of `n` bytes has at most `n - 2` covering n-grams. Each has at
/// least three bytes, and at most `max_length` where that is three or more.
pub proof fn covering_spans_are_few_and_short(s: Seq<u8>, max_length: int)
    ensures
        covering_grams(s, max_length).len() <= if s.len() >= 2 {
            s.len() - 2
        } else {
            0
        },
        forall|k: int|
            0 <= k < covering_grams(s, max_length).len() ==> (#[trigger] covering_grams(
                s,
                max_length,
            )[k]).len() >= MIN_NGRAM_LENGTH && (max_length >= 3 ==> covering_grams(
                s,
                max_length,
            )[k].len() <= max_length),
{
    let w = weights(s);
    lemma_covering_spans(w, max_length, 0);
    let spans = covering_spans(w, max_length, 0);
    assert forall|k: int| 0 <= k < spans.len() implies (#[trigger] spans_bytes(s, spans)[k]).len()
        >= 3 && (max_length >= 3 ==> spans_bytes(s, spans)[k].len() <= max_length) by {
        assert(is_valley(w, spans[k].0, spans[k].1));
    }
}

/// The covering n-grams of a literal of three or more bytes leave none of its
/// bytes out, and each stands where its span says: every two neighbouring
/// bigrams lie together in one of them.
pub proof fn covering_spans_cover_the_literal(s: Seq<u8>, max_length: int)
    ensures
        forall|x: int|
            0 <= x < s.len() - 2 ==> #[trigger] is_inside_some(
                covering_spans(weights(s), max_length, 0),
                x,
            ),
{
    lemma_covering_spans(weights(s), max_length, 0);
}

/// Each covering n-gram of a literal stands somewhere in the literal.
pub proof fn covering_grams_stand_in_the_literal(s: Seq<u8>, max_length: int, k: int)
    requires
        0 <= k < covering_grams(s, max_length).len(),
    ensures
        exists|at: int|
            0 <= at && at + covering_grams(s, max_length)[k].len() <= s.len()
                && #[trigger] s.subrange(at, at + covering_grams(s, max_length)[k].len())
                == covering_grams(s, max_length)[k],
{
    let w = weights(s);
    let span = covering_spans(w, max_length, 0)[k];
    lemma_covering_spans(w, max_length, 0);
    assert(is_valley(w, span.0, span.1));
    assert(s.subrange(span.0, span.0 + covering_grams(s, max_length)[k].len()) == span_bytes(s, span));
}

/// `valleys_ending_at` and `valleys_before` hold all valleys and nothing else.
proof fn lemma_valleys_ending_at(w: Seq<u32>, q: int, lo: int, hi: int)
    ensures
        forall|k: int|
            0 <= k < valleys_ending_at(w, q, lo, hi).len() ==> is_valley(
                w,
                (#[trigger] valleys_ending_at(w, q, lo, hi)[k]).0,
                valleys_ending_at(w, q, lo, hi)[k].1,
            ),
        forall|p: int|
            lo <= p < hi && is_valley(w, p, q) ==> #[trigger] valleys_ending_at(
                w,
                q,
                lo,
                hi,
            ).contains((p, q)),
    decreases hi - lo,
{
    if lo < hi {
        lemma_valleys_ending_at(w, q, lo, hi - 1);
        let rest = valleys_ending_at(w, q, lo, hi - 1);
        let list = valleys_ending_at(w, q, lo, hi);
        assert forall|k: int| 0 <= k < list.len() implies is_valley(
            w,
            (#[trigger] list[k]).0,
            list[k].1,
        ) by {
            if is_valley(w, hi - 1, q) {
                if k > 0 {
                    assert(list[k] == rest[k - 1]);
                }
            } else {
                assert(list[k] == rest[k]);
            }
        }
        assert forall|p: int| lo <= p < hi && is_valley(w, p, q) implies #[trigger] list.contains(
            (p, q),
        ) by {
            if p == hi - 1 {
                assert(list[0] == (p, q));
            } else {
                assert(rest.contains((p, q)));
                let k = rest.index_of((p, q));
                assert(list[if is_valley(w, hi - 1, q) {
                    k + 1
                } else {
                    k
                }] == (p, q));
            }
        }
    }
}

pub proof fn lemma_valleys_before(w: Seq<u32>, n: int)
    ensures
        forall|k: int|
            0 <= k < valleys_before(w, n).len() ==> is_valley(
                w,
                (#[trigger] valleys_before(w, n)[k]).0,
                valleys_before(w, n)[k].1,
            ),
        forall|p: int, q: int|
            q < n && is_valley(w, p, q) ==> #[trigger] valleys_before(w, n).contains((p, q)),
    decreases n,
{
    if n > 0 {
        lemma_valleys_before(w, n - 1);
        lemma_valleys_ending_at(w, n - 1, 0, n - 1);
        let early = valleys_before(w, n - 1);
        let late = valleys_ending_at(w, n - 1, 0, n - 1);
        let list = valleys_before(w, n);
        assert(list == early + late);
        assert forall|k: int| 0 <= k < list.len() implies is_valley(
            w,
            (#[trigger] list[k]).0,
            list[k].1,
        ) by {
            if k < early.len() {
                assert(list[k] == early[k]);
            } else {
                assert(list[k] == late[k - early.len()]);
            }
        }
        assert forall|p: int, q: int| q < n && is_valley(w, p, q) implies #[trigger] list.contains(
            (p, q),
        ) by {
            if q < n - 1 {
                assert(early.contains((p, q)));
                let k = early.index_of((p, q));
                assert(list[k] == (p, q));
            } else {
                assert(late.contains((p, q)));
                let k = late.index_of((p, q));
                assert(list[early.len() + k] == (p, q));
            }
        }
    }
}

/// The n-grams of `s` are exactly the byte strings between the rims of its
/// valleys.
pub proof fn all_grams_are_the_valleys(s: Seq<u8>, gram: Seq<u8>)
    ensures
        all_grams(s).contains(gram) <==> exists|p: int, q: int|
            #[trigger] is_valley(weights(s), p, q) && gram == span_bytes(s, (p, q)),
{
    let w = weights(s);
    let n = w.len() as int;
    let spans = valleys_before(w, n);
    lemma_valleys_before(w, n);
    if all_grams(s).contains(gram) {
        let k = all_grams(s).index_of(gram);
        assert(is_valley(w, spans[k].0, spans[k].1));
        assert(gram == span_bytes(s, (spans[k].0, spans[k].1)));
    }
    if exists|p: int, q: int| #[trigger]
        is_valley(weights(s), p, q) && gram == span_bytes(s, (p, q)) {
        let (p, q) = choose|p: int, q: int|
            #[trigger] is_valley(weights(s), p, q) && gram == span_bytes(s, (p, q));
        assert(spans.contains((p, q)));
        let k = spans.index_of((p, q));
        assert(all_grams(s)[k] == gram);
    }
}

/// Every n-gram has at least three bytes.
pub proof fn all_grams_are_long_enough(s: Seq<u8>)
    ensures
        forall|k: int|
            0 <= k < all_grams(s).len() ==> (#[trigger] all_grams(s)[k]).len() >= MIN_NGRAM_LENGTH,
{
    let w = weights(s);
    let n = w.len() as int;
    let spans = valleys_before(w, n);
    lemma_valleys_before(w, n);
    assert forall|k: int| 0 <= k < all_grams(s).len() implies (#[trigger] all_grams(s)[k]).len()
        >= 3 by {
        assert(is_valley(w, spans[k].0, spans[k].1));
    }
}

/// When a document contains a literal, every covering n-gram of the literal
/// is among the n-grams of the document.
pub proof fn covering_grams_occur_in_document(
    document: Seq<u8>,
    start: int,
    end: int,
    max_length: int,
)
    requires
        0 <= start <= end <= document.len(),
    ensures
        forall|k: int|
            0 <= k < covering_grams(document.subrange(start, end), max_length).len()
                ==> all_grams(document).contains(
                #[trigger] covering_grams(document.subrange(start, end), max_length)[k],
            ),
{
    let literal = document.subrange(start, end);
    let lw = weights(literal);
    let dw = weights(document);
    let spans = covering_spans(lw, max_length, 0);
    lemma_covering_spans(lw, max_length, 0);
    assert forall|i: int| 0 <= i < lw.len() implies lw[i] == #[trigger] dw[start + i] by {}
    assert forall|k: int|
        0 <= k < covering_grams(literal, max_length).len() implies all_grams(document).contains(
        #[trigger] covering_grams(literal, max_length)[k],
    ) by {
        let gram = covering_grams(literal, max_length)[k];
        let (p, q) = spans[k];
        assert(is_valley(lw, p, q));
        assert(is_valley(dw, start + p, start + q)) by {
            assert forall|j: int| start + p < j < start + q implies #[trigger] dw[j] < dw[start + p]
                && dw[j] < dw[start + q] by {
                assert(lw[j - start] < lw[p] && lw[j - start] < lw[q]);
            }
        }
        assert(gram =~= span_bytes(document, (start + p, start + q)));
        all_grams_are_the_valleys(document, gram);
    }
}

/// The spans lie one behind another, in whatever order they are listed: no two
/// of them have two neighbouring bigrams in common.
pub open spec fn are_apart(spans: Seq<(int, int)>) -> bool {
    forall|i: int, j: int|
        0 <= i < j < spans.len() ==> (#[trigger] spans[i]).1 <= (#[trigger] spans[j]).0
            || spans[j].1 <= spans[i].0
}

proof fn lemma_chain_is_apart(w: Seq<u32>, from: int, end: int)
    requires
        0 <= from,
        end < w.len(),
    ensures
        are_apart(boundary_chain(w, from, end)),
    decreases end - from,
{
    if from < end {
        let next = next_boundary(w, from, end + 1);
        let rest = boundary_chain(w, next, end);
        let chain = boundary_chain(w, from, end);
        lemma_next_boundary(w, from, end + 1);
        lemma_boundary_chain(w, next, end);
        lemma_chain_is_apart(w, next, end);
        assert forall|i: int, j: int| 0 <= i < j < chain.len() implies (#[trigger] chain[i]).1
            <= (#[trigger] chain[j]).0 || chain[j].1 <= chain[i].0 by {
            assert(chain[j] == rest[j - 1]);
            if i > 0 {
                assert(chain[i] == rest[i - 1]);
            }
        }
    }
}

pub proof fn lemma_covering_is_apart(w: Seq<u32>, max_length: int, from: int)
    requires
        0 <= from,
    ensures
        are_apart(covering_spans(w, max_length, from)),
    decreases w.len() - from,
{
    if from + 1 < w.len() {
        let cut = length_cut(from, max_length);
        let heavier = first_heavier(w, from, from + 1);
        let spans = covering_spans(w, max_length, from);
        lemma_first_heavier(w, from, from + 1);
        if cut < w.len() && cut <= heavier {
            let next = next_boundary(w, from, cut);
            let rest = covering_spans(w, max_length, next);
            lemma_next_boundary(w, from, cut);
            lemma_covering_spans(w, max_length, next);
            lemma_covering_is_apart(w, max_length, next);
            assert forall|i: int, j: int| 0 <= i < j < spans.len() implies (#[trigger] spans[i]).1
                <= (#[trigger] spans[j]).0 || spans[j].1 <= spans[i].0 by {
                assert(spans[j] == rest[j - 1]);
                if i > 0 {
                    assert(spans[i] == rest[i - 1]);
                }
            }
        } else {
            let end = if heavier < w.len() {
                heavier
            } else {
                w.len() - 1
            };
            let chain = boundary_chain(w, from, end);
            let rest = covering_spans(w, max_length, end);
            let n = chain.len() as int;
            lemma_boundary_chain(w, from, end);
            lemma_chain_is_apart(w, from, end);
            lemma_covering_spans(w, max_length, end);
            lemma_covering_is_apart(w, max_length, end);
            assert forall|i: int, j: int| 0 <= i < j < spans.len() implies (#[trigger] spans[i]).1
                <= (#[trigger] spans[j]).0 || spans[j].1 <= spans[i].0 by {
                if j < n {
                    assert(spans[i] == chain[n - 1 - i] && spans[j] == chain[n - 1 - j]);
                } else {
                    assert(spans[j] == rest[j - n]);
                    if i < n {
                        assert(spans[i] == chain[n - 1 - i]);
                    } else {
                        assert(spans[i] == rest[i - n]);
                    }
                }
            }
        }
    }
}

/// The covering set is minimal: none of its n-grams can be left out. Each is the
/// only one in which its first two bigrams lie together.
pub proof fn no_covering_gram_can_be_left_out(s: Seq<u8>, max_length: int, k: int)
    requires
        0 <= k < covering_spans(weights(s), max_length, 0).len(),
    ensures
        ({
            let spans = covering_spans(weights(s), max_length, 0);
            let x = spans[k].0;
            &&& 0 <= x < s.len() - 2
            &&& is_inside_some(spans, x)
            &&& !is_inside_some(spans.remove(k), x)
        }),
{
    let w = weights(s);
    let spans = covering_spans(w, max_length, 0);
    let x = spans[k].0;
    lemma_covering_spans(w, max_length, 0);
    lemma_covering_is_apart(w, max_length, 0);
    assert(is_valley(w, spans[k].0, spans[k].1));
    assert(spans[k].0 <= x < spans[k].1);
    let others = spans.remove(k);
    assert forall|j: int| 0 <= j < others.len() implies !((#[trigger] others[j]).0 <= x
        < others[j].1) by {
        let i = if j < k {
            j
        } else {
            j + 1
        };
        assert(others[j] == spans[i]);
        assert(is_valley(w, spans[i].0, spans[i].1));
    }
}

/// No bigram before `x` is heavier than it.
pub open spec fn is_left_record(w: Seq<u32>, x: int) -> bool {
    forall|j: int| 0 <= j < x ==> #[trigger] w[j] <= w[x]
}

/// No bigram after `x` is heavier than it.
pub open spec fn is_right_record(w: Seq<u32>, x: int) -> bool {
    forall|j: int| x < j < w.len() ==> #[trigger] w[j] <= w[x]
}

/// A bigram that no bigram before it, or none after it, outweighs.
pub open spec fn is_record(w: Seq<u32>, x: int) -> bool {
    is_left_record(w, x) || is_right_record(w, x)
}

/// None of the covering spans from `from` on is cut for its length.
pub open spec fn is_uncut(w: Seq<u32>, max_length: int, from: int) -> bool
    decreases w.len() - from,
{
    if from + 1 >= w.len() {
        true
    } else {
        let cut = length_cut(from, max_length);
        let heavier = first_heavier(w, from, from + 1);
        if cut < w.len() && cut <= heavier {
            false
        } else {
            proof {
                lemma_first_heavier_range(w, from, from + 1);
            }
            is_uncut(
                w,
                max_length,
                if heavier < w.len() {
                    heavier
                } else {
                    w.len() - 1
                },
            )
        }
    }
}

/// No span of a literal that ends before the first length cut is cut for its
/// length.
pub proof fn short_literals_are_uncut(w: Seq<u32>, max_length: int, from: int)
    requires
        0 <= from,
        w.len() <= length_cut(0, max_length),
    ensures
        is_uncut(w, max_length, from),
    decreases w.len() - from,
{
    if from + 1 < w.len() {
        let heavier = first_heavier(w, from, from + 1);
        lemma_first_heavier(w, from, from + 1);
        short_literals_are_uncut(
            w,
            max_length,
            if heavier < w.len() {
                heavier
            } else {
                w.len() - 1
            },
        );
    }
}

/// Both rims of each span are records.
spec fn has_record_rims(w: Seq<u32>, spans: Seq<(int, int)>) -> bool {
    forall|k: int|
        0 <= k < spans.len() ==> is_record(w, (#[trigger] spans[k]).0) && is_record(w, spans[k].1)
}

/// The boundaries on the way up to a heavier bigram.
proof fn lemma_rising_chain(w: Seq<u32>, from: int, end: int)
    requires
        0 <= from < end < w.len(),
        is_left_record(w, from),
        forall|j: int| from < j < end ==> #[trigger] w[j] <= w[from],
        w[end] > w[from],
    ensures
        has_record_rims(w, boundary_chain(w, from, end)),
        is_left_record(w, end),
    decreases end - from,
{
    let next = next_boundary(w, from, end + 1);
    let rest = boundary_chain(w, next, end);
    let chain = boundary_chain(w, from, end);
    lemma_next_boundary(w, from, end + 1);
    assert(w[next] >= w[from]) by {
        assert(w[next] >= w[from] || w[end] <= w[next]);
    }
    assert(is_left_record(w, next));
    if next < end {
        lemma_rising_chain(w, next, end);
    } else {
        assert(rest =~= Seq::empty());
    }
    assert forall|k: int| 0 <= k < chain.len() implies is_record(w, (#[trigger] chain[k]).0)
        && is_record(w, chain[k].1) by {
        if k > 0 {
            assert(chain[k] == rest[k - 1]);
        }
    }
}

/// The boundaries on the way down from the heaviest bigram.
proof fn lemma_falling_chain(w: Seq<u32>, from: int)
    requires
        0 <= from < w.len(),
        is_right_record(w, from),
    ensures
        has_record_rims(w, boundary_chain(w, from, w.len() - 1)),
    decreases w.len() - from,
{
    let end = w.len() - 1;
    if from < end {
        let next = next_boundary(w, from, end + 1);
        let rest = boundary_chain(w, next, end);
        let chain = boundary_chain(w, from, end);
        lemma_next_boundary(w, from, end + 1);
        assert(is_right_record(w, next)) by {
            assert forall|j: int| next < j < w.len() implies #[trigger] w[j] <= w[next] by {
                assert(w[next] >= w[from] || w[j] <= w[next]);
                assert(w[j] <= w[from]);
            }
        }
        lemma_falling_chain(w, next);
        assert forall|k: int| 0 <= k < chain.len() implies is_record(w, (#[trigger] chain[k]).0)
            && is_record(w, chain[k].1) by {
            if k > 0 {
                assert(chain[k] == rest[k - 1]);
            }
        }
    }
}

proof fn lemma_rims_are_records(w: Seq<u32>, max_length: int, from: int)
    requires
        0 <= from,
        from < w.len() ==> is_left_record(w, from),
        is_uncut(w, max_length, from),
    ensures
        has_record_rims(w, covering_spans(w, max_length, from)),
    decreases w.len() - from,
{
    if from + 1 < w.len() {
        let heavier = first_heavier(w, from, from + 1);
        let spans = covering_spans(w, max_length, from);
        lemma_first_heavier(w, from, from + 1);
        let end = if heavier < w.len() {
            heavier
        } else {
            w.len() - 1
        };
        let chain = boundary_chain(w, from, end);
        let rest = covering_spans(w, max_length, end);
        let n = chain.len() as int;
        if heavier < w.len() {
            lemma_rising_chain(w, from, end);
            lemma_rims_are_records(w, max_length, end);
        } else {
            assert(is_right_record(w, from));
            lemma_falling_chain(w, from);
            assert(rest =~= Seq::empty());
        }
        assert forall|k: int| 0 <= k < spans.len() implies is_record(w, (#[trigger] spans[k]).0)
            && is_record(w, spans[k].1) by {
            if k < n {
                assert(spans[k] == chain[n - 1 - k]);
            } else {
                assert(spans[k] == rest[k - n]);
            }
        }
    }
}

/// No valley has a record strictly inside.
proof fn lemma_record_is_not_inside(w: Seq<u32>, p: int, q: int, x: int)
    requires
        is_valley(w, p, q),
        is_record(w, x),
    ensures
        !(p < x < q),
{
    if p < x < q {
        assert(w[x] < w[p] && w[x] < w[q]);
        if is_left_record(w, x) {
            assert(w[p] <= w[x]);
        } else {
            assert(w[q] <= w[x]);
        }
    }
}

/// Where no span is cut for its length, the literal is cut just at the bigrams
/// that no bigram before them, or none after them, outweighs.
pub proof fn covering_cuts_are_the_records(s: Seq<u8>, max_length: int, x: int)
    requires
        is_uncut(weights(s), max_length, 0),
        s.len() >= 3,
        0 <= x < s.len() - 1,
    ensures
        is_record(weights(s), x) <==> exists|k: int|
            0 <= k < covering_spans(weights(s), max_length, 0).len() && ((
            #[trigger] covering_spans(weights(s), max_length, 0)[k]).0 == x || covering_spans(
                weights(s),
                max_length,
                0,
            )[k].1 == x),
{
    let w = weights(s);
    let spans = covering_spans(w, max_length, 0);
    lemma_covering_spans(w, max_length, 0);
    lemma_rims_are_records(w, max_length, 0);
    if is_record(w, x) {
        let y = if x + 1 < w.len() {
            x
        } else {
            x - 1
        };
        assert(is_inside_some(spans, y));
        let k = choose|k: int| 0 <= k < spans.len() && (#[trigger] spans[k]).0 <= y < spans[k].1;
        assert(is_valley(w, spans[k].0, spans[k].1));
        lemma_record_is_not_inside(w, spans[k].0, spans[k].1, x);
        assert(spans[k].0 == x || spans[k].1 == x);
    }
}

/// Where no span is cut for its length, no set of n-grams of the literal covers
/// it with fewer: it would need one from each cut on.
pub proof fn covering_grams_are_fewest(s: Seq<u8>, max_length: int, others: Seq<(int, int)>)
    requires
        is_uncut(weights(s), max_length, 0),
        forall|k: int|
            0 <= k < others.len() ==> is_valley(
                weights(s),
                (#[trigger] others[k]).0,
                others[k].1,
            ),
        forall|x: int| 0 <= x < s.len() - 2 ==> #[trigger] is_inside_some(others, x),
    ensures
        covering_grams(s, max_length).len() <= others.len(),
{
    let w = weights(s);
    let spans = covering_spans(w, max_length, 0);
    let starts = spans.map_values(|span: (int, int)| span.0);
    let other_starts = others.map_values(|span: (int, int)| span.0);
    lemma_covering_spans(w, max_length, 0);
    lemma_covering_is_apart(w, max_length, 0);
    lemma_rims_are_records(w, max_length, 0);
    assert(starts.no_duplicates()) by {
        assert forall|i: int, j: int| 0 <= i < j < starts.len() implies starts[i] != starts[j] by {
            assert(is_valley(w, spans[i].0, spans[i].1));
            assert(is_valley(w, spans[j].0, spans[j].1));
        }
    }
    starts.unique_seq_to_set();
    other_starts.lemma_cardinality_of_set();
    assert(starts.to_set().subset_of(other_starts.to_set())) by {
        assert forall|x: int| #[trigger] starts.contains(x) implies other_starts.contains(x) by {
            let k = starts.index_of(x);
            assert(spans[k].0 == x);
            assert(is_valley(w, spans[k].0, spans[k].1));
            assert(is_record(w, x));
            assert(is_inside_some(others, x));
            let j = choose|j: int|
                0 <= j < others.len() && (#[trigger] others[j]).0 <= x < others[j].1;
            lemma_record_is_not_inside(w, others[j].0, others[j].1, x);
            assert(other_starts[j] == x);
        }
    }
    vstd::seq_lib::seq_to_set_is_finite(other_starts);
    vstd::set_lib::lemma_len_subset(starts.to_set(), other_starts.to_set());
}

} // verus!
