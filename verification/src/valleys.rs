//! What the n-grams of a string are, and which of them cover it.

use crate::ngram::{
    all_grams, bigram_weight, boundary_chain, byte_strings, covering_grams, covering_spans,
    first_heavier, fnv1a, gram_key, is_inside_some, is_uncut, is_valley, lemma_boundary_chain,
    lemma_covering_is_apart, lemma_covering_spans, lemma_first_heavier, lemma_next_boundary,
    lemma_valleys_before, length_cut, next_boundary, short_literals_are_uncut, valleys_before,
    valleys_ending_at, weights, MUL1, MUL2,
};
use vstd::prelude::*;

verus! {

/// FNV-1a starts from the basis and takes the bytes one after another: what
/// there is so far is xored with the next byte and multiplied by the FNV prime,
/// modulo 2 to the 64. An n-gram's key starts from the usual basis.
pub proof fn fnv1a_takes_byte_after_byte(basis: u64, bytes: Seq<u8>, b: u8)
    ensures
        fnv1a(basis, Seq::empty()) == basis,
        fnv1a(basis, bytes.push(b)) == ((fnv1a(basis, bytes) ^ (b as u64)) * 0x100000001b3)
            % 0x1_0000_0000_0000_0000,
        gram_key(bytes) == fnv1a(0xcbf29ce484222325, bytes),
{
    assert(bytes.push(b).drop_last() =~= bytes);
}

/// The weight of a bigram in plain arithmetic: its bytes, each times a constant,
/// added up modulo 2 to the 64; to that is added by how much it falls short of
/// the largest such number, in units of 2 to the 47; and the low 32 bits count.
pub proof fn bigram_weights_in_arithmetic(first: u8, second: u8)
    ensures
        ({
            let mix = (first * 0xc6a4a7935bd1e995 + second * 0x228876a7198b743)
                % 0x1_0000_0000_0000_0000;
            bigram_weight(first, second) == (mix + (0xffff_ffff_ffff_ffff - mix)
                / 0x8000_0000_0000) % 0x1_0000_0000
        }),
{
    let mix = (first as u64).wrapping_mul(MUL1).wrapping_add((second as u64).wrapping_mul(MUL2));
    lemma_bigram_mix(first, second);
    lemma_mixed_bits(mix);
}

/// The two products, added up.
proof fn lemma_bigram_mix(first: u8, second: u8)
    ensures
        (first as u64).wrapping_mul(MUL1).wrapping_add((second as u64).wrapping_mul(MUL2)) == (first
            * 0xc6a4a7935bd1e995 + second * 0x228876a7198b743) % 0x1_0000_0000_0000_0000,
{
    let m: int = 0x1_0000_0000_0000_0000;
    let (x, y) = (first * 0xc6a4a7935bd1e995, second * 0x228876a7198b743);
    let (u, v) = ((first as u64).wrapping_mul(MUL1), (second as u64).wrapping_mul(MUL2));
    assert(u == x % m);
    assert(v == y % m);
    assert(u.wrapping_add(v) == (u + v) % m);
    vstd::arithmetic::div_mod::lemma_add_mod_noop(x, y, m);
}

/// What the bit operations of a weight come to.
proof fn lemma_mixed_bits(mix: u64)
    ensures
        (mix + (!mix >> 47)) as u32 == (mix + (0xffff_ffff_ffff_ffff - mix) / 0x8000_0000_0000)
            % 0x1_0000_0000,
{
    let short: u64 = !mix;
    assert(!mix == 0xffff_ffff_ffff_ffffu64 - mix) by (bit_vector);
    assert(short >> 47 == short / 0x8000_0000_0000u64) by (bit_vector);
    assert(mix + (!mix >> 47) <= u64::MAX) by (bit_vector);
    let total: u64 = (mix + (!mix >> 47)) as u64;
    assert(total as u32 == total % 0x1_0000_0000u64) by (bit_vector);
}

proof fn lemma_valleys_fall(w: Seq<u32>, q: int, lo: int, hi: int)
    ensures
        forall|k: int|
            0 <= k < valleys_ending_at(w, q, lo, hi).len() ==> (#[trigger] valleys_ending_at(
                w,
                q,
                lo,
                hi,
            )[k]).0 < hi && valleys_ending_at(w, q, lo, hi)[k].1 == q,
        forall|i: int, j: int|
            0 <= i < j < valleys_ending_at(w, q, lo, hi).len() ==> (#[trigger] valleys_ending_at(
                w,
                q,
                lo,
                hi,
            )[i]).0 > (#[trigger] valleys_ending_at(w, q, lo, hi)[j]).0,
    decreases hi - lo,
{
    if hi > lo {
        lemma_valleys_fall(w, q, lo, hi - 1);
        let rest = valleys_ending_at(w, q, lo, hi - 1);
        let here = valleys_ending_at(w, q, lo, hi);
        if is_valley(w, hi - 1, q) {
            assert forall|k: int| 0 <= k < here.len() implies (#[trigger] here[k]).0 < hi
                && here[k].1 == q by {
                if k > 0 {
                    assert(here[k] == rest[k - 1]);
                }
            }
            assert forall|i: int, j: int| 0 <= i < j < here.len() implies (#[trigger] here[i]).0
                > (#[trigger] here[j]).0 by {
                assert(here[j] == rest[j - 1]);
                if i > 0 {
                    assert(here[i] == rest[i - 1]);
                }
            }
        } else {
            assert forall|k: int| 0 <= k < here.len() implies (#[trigger] here[k]).0 < hi
                && here[k].1 == q by {
                assert(here[k] == rest[k]);
            }
        }
    }
}

proof fn lemma_valleys_in_order(w: Seq<u32>, n: int)
    ensures
        forall|k: int|
            0 <= k < valleys_before(w, n).len() ==> (#[trigger] valleys_before(w, n)[k]).1 < n,
        forall|i: int, j: int|
            0 <= i < j < valleys_before(w, n).len() ==> (#[trigger] valleys_before(w, n)[i]).1 < (
            #[trigger] valleys_before(w, n)[j]).1 || (valleys_before(w, n)[i].1 == valleys_before(
                w,
                n,
            )[j].1 && valleys_before(w, n)[i].0 > valleys_before(w, n)[j].0),
    decreases n,
{
    if n > 0 {
        lemma_valleys_in_order(w, n - 1);
        lemma_valleys_fall(w, n - 1, 0, n - 1);
        let (a, b) = (valleys_before(w, n - 1), valleys_ending_at(w, n - 1, 0, n - 1));
        let here = valleys_before(w, n);
        assert forall|k: int| 0 <= k < here.len() implies (#[trigger] here[k]).1 < n by {
            if k < a.len() {
                assert(here[k] == a[k]);
            } else {
                assert(here[k] == b[k - a.len()]);
            }
        }
        assert forall|i: int, j: int| 0 <= i < j < here.len() implies (#[trigger] here[i]).1 < (
        #[trigger] here[j]).1 || (here[i].1 == here[j].1 && here[i].0 > here[j].0) by {
            if i < a.len() {
                assert(here[i] == a[i]);
            } else {
                assert(here[i] == b[i - a.len()]);
            }
            if j < a.len() {
                assert(here[j] == a[j]);
            } else {
                assert(here[j] == b[j - a.len()]);
            }
        }
    }
}

/// The list of all n-grams of `s` has one for each two bigrams between which
/// every bigram is lighter than both: the bytes from the first of the one to the
/// last of the other. They come by where they end, and then the latest start
/// first.
pub proof fn all_grams_list_each_valley_once(s: Seq<u8>) -> (spans: Seq<(int, int)>)
    ensures
        all_grams(s).len() == spans.len(),
        forall|k: int|
            0 <= k < spans.len() ==> #[trigger] all_grams(s)[k] == s.subrange(
                spans[k].0,
                spans[k].1 + 2,
            ),
        forall|p: int, q: int| #[trigger]
            spans.contains((p, q)) <==> 0 <= p < q < s.len() - 1 && forall|j: int|
                p < j < q ==> bigram_weight(#[trigger] s[j], s[j + 1]) < bigram_weight(
                    s[p],
                    s[p + 1],
                ) && bigram_weight(s[j], s[j + 1]) < bigram_weight(s[q], s[q + 1]),
        forall|i: int, j: int|
            0 <= i < j < spans.len() ==> (#[trigger] spans[i]).1 < (#[trigger] spans[j]).1 || (
            spans[i].1 == spans[j].1 && spans[i].0 > spans[j].0),
{
    let w = weights(s);
    let spans = valleys_before(w, w.len() as int);
    lemma_valleys_in_order(w, w.len() as int);
    lemma_valleys_before(w, w.len() as int);
    assert forall|p: int, q: int| #[trigger]
        spans.contains((p, q)) <==> 0 <= p < q < s.len() - 1 && forall|j: int|
            p < j < q ==> bigram_weight(#[trigger] s[j], s[j + 1]) < bigram_weight(s[p], s[p + 1])
                && bigram_weight(s[j], s[j + 1]) < bigram_weight(s[q], s[q + 1]) by {
        if spans.contains((p, q)) {
            let k = spans.index_of((p, q));
            assert(is_valley(w, spans[k].0, spans[k].1));
            assert forall|j: int| p < j < q implies bigram_weight(#[trigger] s[j], s[j + 1])
                < bigram_weight(s[p], s[p + 1]) && bigram_weight(s[j], s[j + 1]) < bigram_weight(
                s[q],
                s[q + 1],
            ) by {
                assert(w[j] < w[p] && w[j] < w[q]);
            }
        }
        if 0 <= p < q < s.len() - 1 && forall|j: int|
            p < j < q ==> bigram_weight(#[trigger] s[j], s[j + 1]) < bigram_weight(s[p], s[p + 1])
                && bigram_weight(s[j], s[j + 1]) < bigram_weight(s[q], s[q + 1]) {
            assert forall|j: int| p < j < q implies #[trigger] w[j] < w[p] && w[j] < w[q] by {
                assert(bigram_weight(s[j], s[j + 1]) < bigram_weight(s[p], s[p + 1]));
            }
            assert(is_valley(w, p, q));
        }
    }
    spans
}

/// No valley with the start of the span ends behind it, up to `end`.
spec fn is_furthest(w: Seq<u32>, span: (int, int), end: int) -> bool {
    forall|q: int| span.1 < q <= end ==> !#[trigger] is_valley(w, span.0, q)
}

proof fn lemma_boundary_is_furthest(w: Seq<u32>, from: int, end: int)
    requires
        0 <= from,
        from + 1 < end <= w.len(),
    ensures
        is_furthest(w, (from, next_boundary(w, from, end)), end - 1),
{
    lemma_next_boundary(w, from, end);
    let next = next_boundary(w, from, end);
    assert forall|q: int| next < q <= end - 1 implies !#[trigger] is_valley(w, from, q) by {
        if is_valley(w, from, q) {
            assert(w[next] < w[from] && w[next] < w[q]);
        }
    }
}

proof fn lemma_chain_is_furthest(w: Seq<u32>, from: int, end: int)
    requires
        0 <= from,
        end < w.len(),
    ensures
        forall|k: int|
            0 <= k < boundary_chain(w, from, end).len() ==> is_furthest(
                w,
                #[trigger] boundary_chain(w, from, end)[k],
                end,
            ),
    decreases end - from,
{
    if from < end {
        let next = next_boundary(w, from, end + 1);
        let (chain, rest) = (boundary_chain(w, from, end), boundary_chain(w, next, end));
        lemma_next_boundary(w, from, end + 1);
        lemma_boundary_is_furthest(w, from, end + 1);
        lemma_chain_is_furthest(w, next, end);
        assert forall|k: int| 0 <= k < chain.len() implies is_furthest(
            w,
            #[trigger] chain[k],
            end,
        ) by {
            if k > 0 {
                assert(chain[k] == rest[k - 1]);
            }
        }
    }
}

/// Each covering span ends at the furthest valley end before its cut.
proof fn lemma_covering_is_furthest(w: Seq<u32>, max_length: int, from: int)
    requires
        0 <= from,
    ensures
        forall|k: int|
            0 <= k < covering_spans(w, max_length, from).len() ==> is_furthest(
                w,
                #[trigger] covering_spans(w, max_length, from)[k],
                length_cut(covering_spans(w, max_length, from)[k].0, max_length) - 1,
            ) && covering_spans(w, max_length, from)[k].1 < length_cut(
                covering_spans(w, max_length, from)[k].0,
                max_length,
            ),
    decreases w.len() - from,
{
    if from + 1 < w.len() {
        let spans = covering_spans(w, max_length, from);
        let cut = length_cut(from, max_length);
        let heavier = first_heavier(w, from, from + 1);
        lemma_first_heavier(w, from, from + 1);
        if cut < w.len() && cut <= heavier {
            let next = next_boundary(w, from, cut);
            lemma_next_boundary(w, from, cut);
            lemma_boundary_is_furthest(w, from, cut);
            let rest = covering_spans(w, max_length, next);
            lemma_covering_is_furthest(w, max_length, next);
            assert(spans == seq![(from, next)] + rest);
            assert forall|k: int| 0 <= k < spans.len() implies is_furthest(
                w,
                #[trigger] spans[k],
                length_cut(spans[k].0, max_length) - 1,
            ) && spans[k].1 < length_cut(spans[k].0, max_length) by {
                if k > 0 {
                    assert(spans[k] == rest[k - 1]);
                }
            }
        } else {
            let end = if heavier < w.len() {
                heavier
            } else {
                w.len() - 1
            };
            let chain = boundary_chain(w, from, end);
            let head = chain.reverse();
            let rest = covering_spans(w, max_length, end);
            lemma_boundary_chain(w, from, end);
            lemma_chain_is_furthest(w, from, end);
            lemma_covering_is_furthest(w, max_length, end);
            assert(spans == head + rest);
            assert forall|k: int| 0 <= k < spans.len() implies is_furthest(
                w,
                #[trigger] spans[k],
                length_cut(spans[k].0, max_length) - 1,
            ) && spans[k].1 < length_cut(spans[k].0, max_length) by {
                if k < head.len() {
                    let t = chain.len() - 1 - k;
                    let (p, b) = spans[k];
                    assert(spans[k] == chain[t]);
                    assert(is_valley(w, p, b));
                    assert forall|q: int|
                        b < q <= length_cut(p, max_length) - 1 implies !#[trigger] is_valley(
                        w,
                        p,
                        q,
                    ) by {
                        if q > end && is_valley(w, p, q) {
                            assert(p < end < q);
                            assert(w[end] < w[p]);
                            assert(w[p] <= w[from]);
                        }
                    }
                } else {
                    assert(spans[k] == rest[k - head.len()]);
                }
            }
        }
    }
}

/// The covering n-grams of a literal lead from its first bigram to its last,
/// each on from where another ends. Each is the longest n-gram of the literal from
/// its start among those with fewer than `max_length - 2` bigrams, or with fewer
/// than three where `max_length` is five or less. So there is just one covering
/// set.
pub proof fn covering_grams_reach_as_far_as_they_can(s: Seq<u8>, max_length: int) -> (spans: Seq<
    (int, int),
>)
    ensures
        covering_grams(s, max_length).len() == spans.len(),
        forall|k: int|
            0 <= k < spans.len() ==> #[trigger] covering_grams(s, max_length)[k] == s.subrange(
                spans[k].0,
                spans[k].1 + 2,
            ),
        s.len() < 3 ==> spans.len() == 0,
        s.len() >= 3 ==> exists|k: int| 0 <= k < spans.len() && (#[trigger] spans[k]).0 == 0,
        forall|k: int|
            0 <= k < spans.len() ==> 0 <= (#[trigger] spans[k]).0 < spans[k].1 < s.len() - 1 && (
            spans[k].1 == s.len() - 2 || exists|l: int|
                0 <= l < spans.len() && (#[trigger] spans[l]).0 == spans[k].1),
        forall|k: int, l: int|
            0 <= k < l < spans.len() ==> (#[trigger] spans[k]).0 != (#[trigger] spans[l]).0,
        forall|k: int|
            0 <= k < spans.len() ==> is_valley(weights(s), (#[trigger] spans[k]).0, spans[k].1)
                && spans[k].1 - spans[k].0 < if max_length > 5 {
                max_length - 3
            } else {
                2
            },
        forall|k: int, q: int|
            0 <= k < spans.len() && spans[k].1 < q && q - spans[k].0 < (if max_length > 5 {
                max_length - 3
            } else {
                2
            }) ==> !#[trigger] is_valley(weights(s), spans[k].0, q),
{
    let w = weights(s);
    let spans = covering_spans(w, max_length, 0);
    lemma_covering_spans(w, max_length, 0);
    lemma_covering_is_apart(w, max_length, 0);
    lemma_covering_is_furthest(w, max_length, 0);
    if s.len() >= 3 {
        assert(is_inside_some(spans, 0));
    }
    assert forall|k: int| 0 <= k < spans.len() implies 0 <= (#[trigger] spans[k]).0 < spans[k].1
        < s.len() - 1 && (spans[k].1 == s.len() - 2 || exists|l: int|
        0 <= l < spans.len() && (#[trigger] spans[l]).0 == spans[k].1) by {
        let q = spans[k].1;
        assert(is_valley(w, spans[k].0, q));
        if q < s.len() - 2 {
            assert(is_inside_some(spans, q));
            let l = choose|l: int| 0 <= l < spans.len() && (#[trigger] spans[l]).0 <= q < spans[l].1;
            assert(spans[l].0 == q);
        }
    }
    assert forall|k: int, l: int| 0 <= k < l < spans.len() implies (#[trigger] spans[k]).0 != (
    #[trigger] spans[l]).0 by {
        assert(is_valley(w, spans[k].0, spans[k].1) && is_valley(w, spans[l].0, spans[l].1));
    }
    assert forall|k: int, q: int|
        0 <= k < spans.len() && spans[k].1 < q && q - spans[k].0 < (if max_length > 5 {
            max_length - 3
        } else {
            2
        }) implies !#[trigger] is_valley(w, spans[k].0, q) by {
        assert(is_furthest(w, spans[k], length_cut(spans[k].0, max_length) - 1));
    }
    spans
}

/// A list of byte vectors stands for its byte strings, one by one.
pub proof fn byte_strings_show_every_string(list: Seq<Vec<u8>>)
    ensures
        byte_strings(list).len() == list.len(),
        forall|i: int| 0 <= i < list.len() ==> #[trigger] byte_strings(list)[i] == list[i]@,
{
}

/// Every bigram before `x` is lighter than it.
pub open spec fn outweighs_all_before(w: Seq<u32>, x: int) -> bool {
    forall|j: int| 0 <= j < x ==> #[trigger] w[j] < w[x]
}

proof fn lemma_chain_starts_rise(w: Seq<u32>, from: int, end: int)
    requires
        0 <= from,
        end < w.len(),
    ensures
        forall|i: int, j: int|
            0 <= i < j < boundary_chain(w, from, end).len() ==> (#[trigger] boundary_chain(
                w,
                from,
                end,
            )[i]).0 < (#[trigger] boundary_chain(w, from, end)[j]).0,
    decreases end - from,
{
    if from < end {
        let next = next_boundary(w, from, end + 1);
        let (chain, rest) = (boundary_chain(w, from, end), boundary_chain(w, next, end));
        lemma_next_boundary(w, from, end + 1);
        lemma_boundary_chain(w, next, end);
        lemma_chain_starts_rise(w, next, end);
        assert forall|i: int, j: int| 0 <= i < j < chain.len() implies (#[trigger] chain[i]).0 < (
        #[trigger] chain[j]).0 by {
            assert(chain[j] == rest[j - 1]);
            if i > 0 {
                assert(chain[i] == rest[i - 1]);
            }
        }
    }
}

/// Of two spans the one that starts first comes out first exactly if there is a
/// bigram behind its start, up to that of the other, that outweighs all before
/// it.
spec fn is_in_turn(w: Seq<u32>, first: (int, int), second: (int, int)) -> bool {
    &&& first.0 < second.0 ==> exists|x: int|
        first.0 < x <= second.0 && #[trigger] outweighs_all_before(w, x)
    &&& second.0 < first.0 ==> forall|x: int|
        second.0 < x <= first.0 ==> !#[trigger] outweighs_all_before(w, x)
}

proof fn lemma_covering_order(w: Seq<u32>, max_length: int, from: int)
    requires
        0 <= from,
        is_uncut(w, max_length, from),
        from < w.len() ==> outweighs_all_before(w, from),
    ensures
        forall|i: int, j: int|
            0 <= i < j < covering_spans(w, max_length, from).len() ==> is_in_turn(
                w,
                #[trigger] covering_spans(w, max_length, from)[i],
                #[trigger] covering_spans(w, max_length, from)[j],
            ),
    decreases w.len() - from,
{
    if from + 1 < w.len() {
        let spans = covering_spans(w, max_length, from);
        let heavier = first_heavier(w, from, from + 1);
        lemma_first_heavier(w, from, from + 1);
        let end = if heavier < w.len() {
            heavier
        } else {
            w.len() - 1
        };
        let chain = boundary_chain(w, from, end);
        let head = chain.reverse();
        let rest = covering_spans(w, max_length, end);
        lemma_boundary_chain(w, from, end);
        lemma_chain_starts_rise(w, from, end);
        assert(spans == head + rest);
        if heavier < w.len() {
            assert forall|j: int| 0 <= j < end implies #[trigger] w[j] < w[end] by {
                if j < from {
                    assert(w[j] < w[from]);
                }
            }
            assert(outweighs_all_before(w, end));
            lemma_covering_order(w, max_length, end);
        } else {
            assert(rest.len() == 0);
        }
        lemma_covering_spans(w, max_length, end);
        assert forall|i: int, j: int| 0 <= i < j < spans.len() implies is_in_turn(
            w,
            #[trigger] spans[i],
            #[trigger] spans[j],
        ) by {
            if j < head.len() {
                let (a, b) = (chain.len() - 1 - i, chain.len() - 1 - j);
                assert(spans[i] == chain[a] && spans[j] == chain[b]);
                assert(is_valley(w, chain[a].0, chain[a].1));
                assert forall|x: int|
                    spans[j].0 < x <= spans[i].0 implies !#[trigger] outweighs_all_before(w, x) by {
                    assert(from < x < end);
                    assert(w[x] <= w[from]);
                }
            } else if i < head.len() {
                assert(spans[i] == chain[chain.len() - 1 - i]);
                assert(is_valley(w, spans[i].0, spans[i].1));
                assert(spans[j] == rest[j - head.len()]);
                assert(outweighs_all_before(w, end));
            } else {
                assert(spans[i] == rest[i - head.len()] && spans[j] == rest[j - head.len()]);
            }
        }
    }
}

/// In which order the covering n-grams of a literal come, if it is too short for
/// any to be cut for its length: the later one first, unless there is a bigram on
/// the way from the start of the one to the start of the other that outweighs all
/// bigrams before it.
pub proof fn covering_grams_come_in_this_order(
    s: Seq<u8>,
    max_length: int,
    i: int,
    j: int,
)
    requires
        s.len() - 1 <= if max_length > 5 {
            max_length - 3
        } else {
            2
        },
        0 <= i < j < covering_spans(weights(s), max_length, 0).len(),
    ensures
        ({
            let w = weights(s);
            let (a, b) = (covering_spans(w, max_length, 0)[i], covering_spans(w, max_length, 0)[j]);
            &&& a.0 != b.0
            &&& a.0 < b.0 ==> exists|x: int|
                a.0 < x <= b.0 && #[trigger] outweighs_all_before(w, x)
            &&& b.0 < a.0 ==> forall|x: int|
                b.0 < x <= a.0 ==> !#[trigger] outweighs_all_before(w, x)
            &&& covering_grams(s, max_length)[i] == s.subrange(a.0, a.1 + 2)
            &&& covering_grams(s, max_length)[j] == s.subrange(b.0, b.1 + 2)
        }),
{
    let w = weights(s);
    short_literals_are_uncut(w, max_length, 0);
    lemma_covering_order(w, max_length, 0);
    lemma_covering_is_apart(w, max_length, 0);
    lemma_covering_spans(w, max_length, 0);
    let spans = covering_spans(w, max_length, 0);
    assert(is_in_turn(w, spans[i], spans[j]));
    assert(is_valley(w, spans[i].0, spans[i].1) && is_valley(w, spans[j].0, spans[j].1));
}

} // verus!
