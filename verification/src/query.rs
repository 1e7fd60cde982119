//! Query-plan construction: turn a regex pattern into a set of literal
//! strings whose covering n-grams must all be present in a matching document.
//!
//! `regex-syntax` finds the *prefix* and *suffix* literals that every match
//! must start or end with; each literal then becomes its covering n-grams.

use crate::grams::{fold, fold_case as fold_bytes, without_repeats, without_repeats_keeps_members};
use crate::index::{postings_of, Index, IndexView};
use crate::keys::{bytes_equal, distinct, distinct_keeps_each_once, KeyTable};
use crate::matcher::pattern_spans;
use crate::ngram::{
    byte_strings, covering_grams, covering_grams_stand_in_the_literal, covering_ngrams,
    covering_spans, covering_spans_are_few_and_short, covering_spans_cover_the_literal, gram_key,
    is_inside_some, ngram_hash, weights, DEFAULT_MAX_NGRAM_LENGTH,
};
use crate::roundtrip::ids_increasing;
use crate::sort::{
    bytes_before, is_sorted, lemma_bytes_before_is_an_order, lemma_bytes_before_total,
    lemma_sorted_map, sorted, sorted_is_sorted, sorted_keeps_the_items, stable_sort, Ordered,
};
use vstd::prelude::*;
use vstd::slice::slice_to_vec;

verus! {

/// At most this many literals are extracted for one side of a pattern.
pub const LITERAL_LIMIT: usize = 128;

/// Classes with more members than this are not spelled out.
pub const CLASS_LIMIT: usize = 16;

/// The literals that `regex-syntax` extracts for the start of a pattern, read
/// case-insensitively or not, or nothing if the pattern is not valid or has too
/// many.
pub uninterp spec fn prefix_literals(
    pattern: Seq<char>,
    ignore_case: bool,
    limit_total: usize,
    limit_class: usize,
) -> Option<Seq<Seq<u8>>>;

/// The literals that `regex-syntax` extracts for the end of a pattern, read
/// case-insensitively or not, or nothing if the pattern is not valid or has too
/// many.
pub uninterp spec fn suffix_literals(
    pattern: Seq<char>,
    ignore_case: bool,
    limit_total: usize,
    limit_class: usize,
) -> Option<Seq<Seq<u8>>>;

/// What is between `span.0` and `span.1` in `haystack` starts with one of the
/// literals.
pub open spec fn starts_with_one(
    literals: Seq<Seq<u8>>,
    haystack: Seq<u8>,
    span: (usize, usize),
) -> bool {
    span.0 <= span.1 <= haystack.len() && exists|i: int|
        0 <= i < literals.len() && (#[trigger] literals[i]).is_prefix_of(
            haystack.subrange(span.0 as int, span.1 as int),
        )
}

/// What is between `span.0` and `span.1` in `haystack` ends with one of the
/// literals.
pub open spec fn ends_with_one(
    literals: Seq<Seq<u8>>,
    haystack: Seq<u8>,
    span: (usize, usize),
) -> bool {
    span.0 <= span.1 <= haystack.len() && exists|i: int|
        0 <= i < literals.len() && (#[trigger] literals[i]).is_suffix_of(
            haystack.subrange(span.0 as int, span.1 as int),
        )
}

/// An optional list of literals.
pub open spec fn literals_view(literals: Option<Vec<Vec<u8>>>) -> Option<Seq<Seq<u8>>> {
    match literals {
        Some(list) => Some(byte_strings(list@)),
        None => None,
    }
}

/// `regex_syntax::Parser` and `Extractor::extract` for prefixes: the literals
/// of the extracted sequence, or `None` if the pattern does not parse or the
/// sequence is not finite. Every match of the pattern, read with the same case
/// flag, starts with one of the literals.
#[verifier::external_body]
fn extract_prefixes(
    pattern: &str,
    ignore_case: bool,
    limit_total: usize,
    limit_class: usize,
) -> (literals: Option<Vec<Vec<u8>>>)
    requires
        limit_total >= 1,
    ensures
        literals_view(literals) == prefix_literals(
            pattern@,
            ignore_case,
            limit_total,
            limit_class,
        ),
        literals matches Some(list) ==> forall|haystack: Seq<u8>, k: int|
            0 <= k < pattern_spans(pattern@, ignore_case, haystack).len() ==> starts_with_one(
                byte_strings(list@),
                haystack,
                #[trigger] pattern_spans(pattern@, ignore_case, haystack)[k],
            ),
{
    let mut parser = regex_syntax::ParserBuilder::new();
    let hir = parser.case_insensitive(ignore_case).build().parse(pattern).ok()?;
    let mut extractor = regex_syntax::hir::literal::Extractor::new();
    extractor.kind(regex_syntax::hir::literal::ExtractKind::Prefix);
    extractor.limit_total(limit_total).limit_class(limit_class);
    let seq = extractor.extract(&hir);
    seq.literals().map(|list| list.iter().map(|l| l.as_bytes().to_vec()).collect())
}

/// `regex_syntax::Parser` and `Extractor::extract` for suffixes: the literals
/// of the extracted sequence, or `None` if the pattern does not parse or the
/// sequence is not finite. Every match of the pattern, read with the same case
/// flag, ends with one of the literals.
#[verifier::external_body]
fn extract_suffixes(
    pattern: &str,
    ignore_case: bool,
    limit_total: usize,
    limit_class: usize,
) -> (literals: Option<Vec<Vec<u8>>>)
    requires
        limit_total >= 1,
    ensures
        literals_view(literals) == suffix_literals(
            pattern@,
            ignore_case,
            limit_total,
            limit_class,
        ),
        literals matches Some(list) ==> forall|haystack: Seq<u8>, k: int|
            0 <= k < pattern_spans(pattern@, ignore_case, haystack).len() ==> ends_with_one(
                byte_strings(list@),
                haystack,
                #[trigger] pattern_spans(pattern@, ignore_case, haystack)[k],
            ),
{
    let mut parser = regex_syntax::ParserBuilder::new();
    let hir = parser.case_insensitive(ignore_case).build().parse(pattern).ok()?;
    let mut extractor = regex_syntax::hir::literal::Extractor::new();
    extractor.kind(regex_syntax::hir::literal::ExtractKind::Suffix);
    extractor.limit_total(limit_total).limit_class(limit_class);
    let seq = extractor.extract(&hir);
    seq.literals().map(|list| list.iter().map(|l| l.as_bytes().to_vec()).collect())
}

/// What two lists have in common from `a[i]` and `b[j]` on, by merging.
pub open spec fn intersection_from(a: Seq<u32>, b: Seq<u32>, i: int, j: int) -> Seq<u32>
    decreases a.len() + b.len() - i - j,
{
    if i >= a.len() || j >= b.len() {
        Seq::empty()
    } else if a[i] < b[j] {
        intersection_from(a, b, i + 1, j)
    } else if a[i] > b[j] {
        intersection_from(a, b, i, j + 1)
    } else {
        seq![a[i]] + intersection_from(a, b, i + 1, j + 1)
    }
}

/// What two sorted lists have in common.
pub open spec fn intersection(a: Seq<u32>, b: Seq<u32>) -> Seq<u32> {
    intersection_from(a, b, 0, 0)
}

/// What two lists hold together from `a[i]` and `b[j]` on, by merging.
pub open spec fn union_from(a: Seq<u32>, b: Seq<u32>, i: int, j: int) -> Seq<u32>
    decreases a.len() + b.len() - i - j,
{
    if i >= a.len() {
        b.skip(j)
    } else if j >= b.len() {
        a.skip(i)
    } else if a[i] < b[j] {
        seq![a[i]] + union_from(a, b, i + 1, j)
    } else if a[i] > b[j] {
        seq![b[j]] + union_from(a, b, i, j + 1)
    } else {
        seq![a[i]] + union_from(a, b, i + 1, j + 1)
    }
}

/// What two sorted lists hold together.
pub open spec fn union(a: Seq<u32>, b: Seq<u32>) -> Seq<u32> {
    union_from(a, b, 0, 0)
}

/// Merge-intersect two sorted `u32` slices into `out`, in place of what it
/// held.
pub fn intersect_sorted_into(a: &[u32], b: &[u32], out: &mut Vec<u32>)
    ensures
        final(out)@ == intersection(a@, b@),
{
    out.clear();
    let mut i: usize = 0;
    let mut j: usize = 0;
    assert(out@ + intersection(a@, b@) =~= intersection(a@, b@));
    while i < a.len() && j < b.len()
        invariant
            i <= a@.len(),
            j <= b@.len(),
            out@ + intersection_from(a@, b@, i as int, j as int) == intersection(a@, b@),
        decreases a@.len() + b@.len() - i - j,
    {
        let (x, y): (u32, u32) = (a[i], b[j]);
        let ghost before = out@;
        if x < y {
            i += 1;
        } else if x > y {
            j += 1;
        } else {
            out.push(x);
            i += 1;
            j += 1;
            assert(out@ + intersection_from(a@, b@, i as int, j as int) =~= before
                + intersection_from(a@, b@, i - 1, j - 1));
        }
    }
    assert(out@ + Seq::<u32>::empty() =~= out@);
}

/// Appends `list[from..]`.
fn push_rest(out: &mut Vec<u32>, list: &[u32], from: usize)
    requires
        from <= list@.len(),
    ensures
        final(out)@ == old(out)@ + list@.skip(from as int),
{
    let ghost base = out@;
    let mut k: usize = from;
    assert(out@ =~= base + list@.subrange(from as int, k as int));
    while k < list.len()
        invariant
            from <= k <= list@.len(),
            out@ == base + list@.subrange(from as int, k as int),
        decreases list@.len() - k,
    {
        out.push(list[k]);
        k += 1;
        assert(out@ =~= base + list@.subrange(from as int, k as int));
    }
    assert(list@.subrange(from as int, k as int) =~= list@.skip(from as int));
}

/// Merge-union two sorted `u32` slices into `out`, in place of what it held.
pub fn union_sorted_into(a: &[u32], b: &[u32], out: &mut Vec<u32>)
    ensures
        final(out)@ == union(a@, b@),
{
    out.clear();
    let mut i: usize = 0;
    let mut j: usize = 0;
    assert(out@ + union(a@, b@) =~= union(a@, b@));
    while i < a.len() && j < b.len()
        invariant
            i <= a@.len(),
            j <= b@.len(),
            out@ + union_from(a@, b@, i as int, j as int) == union(a@, b@),
        decreases a@.len() + b@.len() - i - j,
    {
        let (x, y): (u32, u32) = (a[i], b[j]);
        let ghost before = out@ + union_from(a@, b@, i as int, j as int);
        if x < y {
            out.push(x);
            i += 1;
        } else if x > y {
            out.push(y);
            j += 1;
        } else {
            out.push(x);
            i += 1;
            j += 1;
        }
        assert(out@ + union_from(a@, b@, i as int, j as int) =~= before);
    }
    proof {
        if i < a@.len() {
            assert(out@ + a@.skip(i as int) + b@.skip(j as int) =~= out@ + a@.skip(i as int));
        } else {
            assert(out@ + a@.skip(i as int) + b@.skip(j as int) =~= out@ + b@.skip(j as int));
        }
    }
    push_rest(out, a, i);
    push_rest(out, b, j);
}

/// Merge-intersect two sorted `u32` slices.
pub fn intersect_sorted(a: &[u32], b: &[u32]) -> (out: Vec<u32>)
    ensures
        out@ == intersection(a@, b@),
{
    let mut out: Vec<u32> = Vec::new();
    intersect_sorted_into(a, b, &mut out);
    out
}

/// Merge-union two sorted `u32` slices.
pub fn union_sorted(a: &[u32], b: &[u32]) -> (out: Vec<u32>)
    ensures
        out@ == union(a@, b@),
{
    let mut out: Vec<u32> = Vec::new();
    union_sorted_into(a, b, &mut out);
    out
}

proof fn lemma_intersection_from(a: Seq<u32>, b: Seq<u32>, i: int, j: int)
    requires
        ids_increasing(a),
        ids_increasing(b),
        0 <= i <= a.len(),
        0 <= j <= b.len(),
    ensures
        ids_increasing(intersection_from(a, b, i, j)),
        forall|x: u32| #[trigger]
            intersection_from(a, b, i, j).contains(x) <==> a.skip(i).contains(x) && b.skip(
                j,
            ).contains(x),
    decreases a.len() + b.len() - i - j,
{
    let out = intersection_from(a, b, i, j);
    if i < a.len() && j < b.len() {
        lemma_skip_one(a, i);
        lemma_skip_one(b, j);
        if a[i] < b[j] {
            lemma_intersection_from(a, b, i + 1, j);
        } else if a[i] > b[j] {
            lemma_intersection_from(a, b, i, j + 1);
        } else {
            lemma_intersection_from(a, b, i + 1, j + 1);
            let rest = intersection_from(a, b, i + 1, j + 1);
            assert(out == seq![a[i]] + rest);
            assert forall|x: u32| #[trigger] out.contains(x) <==> (x == a[i] || rest.contains(x)) by {
                if rest.contains(x) {
                    assert(out[rest.index_of(x) + 1] == x);
                }
                if x == a[i] {
                    assert(out[0] == x);
                }
                if out.contains(x) && x != a[i] {
                    assert(rest[out.index_of(x) - 1] == x);
                }
            }
            assert forall|k: int| 0 <= k < rest.len() implies a[i] < #[trigger] rest[k] by {
                assert(rest.contains(rest[k]));
                assert(a.skip(i + 1).contains(rest[k]));
            }
        }
    }
}

/// What is behind position `i` of an increasing list: `a[i]`, which is less
/// than all the rest, and the rest.
proof fn lemma_skip_one(a: Seq<u32>, i: int)
    requires
        ids_increasing(a),
        0 <= i < a.len(),
    ensures
        forall|x: u32| #[trigger]
            a.skip(i).contains(x) <==> x == a[i] || a.skip(i + 1).contains(x),
        forall|x: u32| #[trigger] a.skip(i + 1).contains(x) ==> a[i] < x,
{
    let (here, rest) = (a.skip(i), a.skip(i + 1));
    assert forall|x: u32| #[trigger] here.contains(x) <==> x == a[i] || rest.contains(x) by {
        if here.contains(x) && x != a[i] {
            assert(rest[here.index_of(x) - 1] == x);
        }
        if rest.contains(x) {
            assert(here[rest.index_of(x) + 1] == x);
        }
        if x == a[i] {
            assert(here[0] == x);
        }
    }
    assert forall|x: u32| #[trigger] rest.contains(x) implies a[i] < x by {
        let k = rest.index_of(x);
        assert(a[i + 1 + k] == x);
    }
}

proof fn lemma_union_from(a: Seq<u32>, b: Seq<u32>, i: int, j: int)
    requires
        ids_increasing(a),
        ids_increasing(b),
        0 <= i <= a.len(),
        0 <= j <= b.len(),
    ensures
        ids_increasing(union_from(a, b, i, j)),
        forall|x: u32| #[trigger]
            union_from(a, b, i, j).contains(x) <==> a.skip(i).contains(x) || b.skip(j).contains(x),
    decreases a.len() + b.len() - i - j,
{
    let out = union_from(a, b, i, j);
    if i < a.len() && j < b.len() {
        lemma_skip_one(a, i);
        lemma_skip_one(b, j);
        let (head, rest) = if a[i] < b[j] {
            lemma_union_from(a, b, i + 1, j);
            (a[i], union_from(a, b, i + 1, j))
        } else if a[i] > b[j] {
            lemma_union_from(a, b, i, j + 1);
            (b[j], union_from(a, b, i, j + 1))
        } else {
            lemma_union_from(a, b, i + 1, j + 1);
            (a[i], union_from(a, b, i + 1, j + 1))
        };
        assert(out == seq![head] + rest);
        assert forall|x: u32| #[trigger] out.contains(x) <==> (x == head || rest.contains(x)) by {
            if rest.contains(x) {
                assert(out[rest.index_of(x) + 1] == x);
            }
            if x == head {
                assert(out[0] == x);
            }
            if out.contains(x) && x != head {
                assert(rest[out.index_of(x) - 1] == x);
            }
        }
        assert forall|k: int| 0 <= k < rest.len() implies head < #[trigger] rest[k] by {
            assert(rest.contains(rest[k]));
        }
    } else {
        assert(i >= a.len() ==> a.skip(i) =~= Seq::empty());
        assert(j >= b.len() ==> b.skip(j) =~= Seq::empty());
    }
}

/// Of two increasing lists, the intersection holds increasingly just what both
/// hold.
pub proof fn intersection_of_increasing(a: Seq<u32>, b: Seq<u32>)
    requires
        ids_increasing(a),
        ids_increasing(b),
    ensures
        ids_increasing(intersection(a, b)),
        forall|x: u32| #[trigger]
            intersection(a, b).contains(x) <==> a.contains(x) && b.contains(x),
{
    lemma_intersection_from(a, b, 0, 0);
    assert(a.skip(0) =~= a);
    assert(b.skip(0) =~= b);
}

/// Of two increasing lists, the union holds increasingly just what either
/// holds.
pub proof fn union_of_increasing(a: Seq<u32>, b: Seq<u32>)
    requires
        ids_increasing(a),
        ids_increasing(b),
    ensures
        ids_increasing(union(a, b)),
        forall|x: u32| #[trigger] union(a, b).contains(x) <==> a.contains(x) || b.contains(x),
{
    lemma_union_from(a, b, 0, 0);
    assert(a.skip(0) =~= a);
    assert(b.skip(0) =~= b);
}

/// No member is less than an earlier one.
pub open spec fn is_non_decreasing(s: Seq<u32>) -> bool {
    forall|i: int, j: int| 0 <= i < j < s.len() ==> #[trigger] s[i] <= #[trigger] s[j]
}

/// How often `x` is in the list.
pub open spec fn copies(s: Seq<u32>, x: u32) -> nat {
    s.to_multiset().count(x)
}

proof fn lemma_copies_front(head: u32, rest: Seq<u32>, x: u32)
    ensures
        copies(seq![head] + rest, x) == copies(rest, x) + if head == x {
            1nat
        } else {
            0
        },
{
    broadcast use vstd::multiset::group_multiset_axioms;
    broadcast use vstd::seq_lib::group_to_multiset_ensures;

    vstd::seq_lib::lemma_multiset_commutative(seq![head], rest);
    assert(seq![head] =~= Seq::<u32>::empty().push(head));
}

proof fn lemma_copies_skip(a: Seq<u32>, i: int, x: u32)
    requires
        is_non_decreasing(a),
        0 <= i < a.len(),
    ensures
        copies(a.skip(i), x) == copies(a.skip(i + 1), x) + if a[i] == x {
            1nat
        } else {
            0
        },
        x < a[i] ==> copies(a.skip(i), x) == 0,
{
    broadcast use vstd::seq_lib::group_to_multiset_ensures;

    assert(a.skip(i) =~= seq![a[i]] + a.skip(i + 1));
    lemma_copies_front(a[i], a.skip(i + 1), x);
    if x < a[i] {
        assert(!a.skip(i).contains(x)) by {
            if a.skip(i).contains(x) {
                let k = a.skip(i).index_of(x);
                assert(a[i + k] == x);
                if k > 0 {
                    assert(a[i] <= a[i + k]);
                }
            }
        }
    }
}

/// A head that is no more than all copies behind it keeps a list in order.
proof fn lemma_front_keeps_order(head: u32, rest: Seq<u32>)
    requires
        is_non_decreasing(rest),
        forall|x: u32| #[trigger] copies(rest, x) > 0 ==> head <= x,
    ensures
        is_non_decreasing(seq![head] + rest),
{
    broadcast use vstd::seq_lib::group_to_multiset_ensures;

    let out = seq![head] + rest;
    assert forall|i: int, j: int| 0 <= i < j < out.len() implies #[trigger] out[i]
        <= #[trigger] out[j] by {
        assert(out[j] == rest[j - 1]);
        if i == 0 {
            assert(rest.contains(rest[j - 1]));
            assert(copies(rest, rest[j - 1]) > 0);
        } else {
            assert(out[i] == rest[i - 1]);
        }
    }
}

/// The lesser of two numbers.
pub open spec fn lesser(a: nat, b: nat) -> nat {
    if a <= b {
        a
    } else {
        b
    }
}

/// The greater of two numbers.
pub open spec fn greater(a: nat, b: nat) -> nat {
    if a <= b {
        b
    } else {
        a
    }
}

proof fn lemma_intersection_copies(a: Seq<u32>, b: Seq<u32>, i: int, j: int)
    requires
        is_non_decreasing(a),
        is_non_decreasing(b),
        0 <= i <= a.len(),
        0 <= j <= b.len(),
    ensures
        is_non_decreasing(intersection_from(a, b, i, j)),
        forall|x: u32| #[trigger]
            copies(intersection_from(a, b, i, j), x) == lesser(
                copies(a.skip(i), x),
                copies(b.skip(j), x),
            ),
    decreases a.len() + b.len() - i - j,
{
    broadcast use vstd::seq_lib::group_to_multiset_ensures;

    let out = intersection_from(a, b, i, j);
    if i < a.len() && j < b.len() {
        let rest = if a[i] < b[j] {
            lemma_intersection_copies(a, b, i + 1, j);
            intersection_from(a, b, i + 1, j)
        } else if a[i] > b[j] {
            lemma_intersection_copies(a, b, i, j + 1);
            intersection_from(a, b, i, j + 1)
        } else {
            lemma_intersection_copies(a, b, i + 1, j + 1);
            intersection_from(a, b, i + 1, j + 1)
        };
        assert forall|x: u32| #[trigger]
            copies(out, x) == lesser(copies(a.skip(i), x), copies(b.skip(j), x)) by {
            lemma_copies_skip(a, i, x);
            lemma_copies_skip(b, j, x);
            if a[i] == b[j] {
                lemma_copies_front(a[i], rest, x);
            }
        }
        if a[i] == b[j] {
            assert forall|x: u32| #[trigger] copies(rest, x) > 0 implies a[i] <= x by {
                lemma_copies_skip(a, i, x);
            }
            lemma_front_keeps_order(a[i], rest);
        }
    } else {
        assert(i >= a.len() ==> a.skip(i) =~= Seq::empty());
        assert(j >= b.len() ==> b.skip(j) =~= Seq::empty());
    }
}

proof fn lemma_union_copies(a: Seq<u32>, b: Seq<u32>, i: int, j: int)
    requires
        is_non_decreasing(a),
        is_non_decreasing(b),
        0 <= i <= a.len(),
        0 <= j <= b.len(),
    ensures
        is_non_decreasing(union_from(a, b, i, j)),
        forall|x: u32| #[trigger]
            copies(union_from(a, b, i, j), x) == greater(
                copies(a.skip(i), x),
                copies(b.skip(j), x),
            ),
    decreases a.len() + b.len() - i - j,
{
    broadcast use vstd::seq_lib::group_to_multiset_ensures;

    let out = union_from(a, b, i, j);
    if i < a.len() && j < b.len() {
        let (head, rest) = if a[i] < b[j] {
            lemma_union_copies(a, b, i + 1, j);
            (a[i], union_from(a, b, i + 1, j))
        } else if a[i] > b[j] {
            lemma_union_copies(a, b, i, j + 1);
            (b[j], union_from(a, b, i, j + 1))
        } else {
            lemma_union_copies(a, b, i + 1, j + 1);
            (a[i], union_from(a, b, i + 1, j + 1))
        };
        assert forall|x: u32| #[trigger]
            copies(out, x) == greater(copies(a.skip(i), x), copies(b.skip(j), x)) by {
            lemma_copies_skip(a, i, x);
            lemma_copies_skip(b, j, x);
            lemma_copies_front(head, rest, x);
        }
        assert forall|x: u32| #[trigger] copies(rest, x) > 0 implies head <= x by {
            lemma_copies_skip(a, i, x);
            lemma_copies_skip(b, j, x);
        }
        lemma_front_keeps_order(head, rest);
    } else {
        assert(i >= a.len() ==> a.skip(i) =~= Seq::empty());
        assert(j >= b.len() ==> b.skip(j) =~= Seq::empty());
    }
}

/// Of two sorted lists, the intersection is sorted and holds each value as often
/// as both do.
pub proof fn intersection_of_sorted(a: Seq<u32>, b: Seq<u32>)
    requires
        is_non_decreasing(a),
        is_non_decreasing(b),
    ensures
        is_non_decreasing(intersection(a, b)),
        forall|x: u32| #[trigger]
            copies(intersection(a, b), x) == lesser(copies(a, x), copies(b, x)),
{
    lemma_intersection_copies(a, b, 0, 0);
    assert(a.skip(0) =~= a);
    assert(b.skip(0) =~= b);
}

/// Of two sorted lists, the union is sorted and holds each value as often as the
/// one of them does that holds it more often.
pub proof fn union_of_sorted(a: Seq<u32>, b: Seq<u32>)
    requires
        is_non_decreasing(a),
        is_non_decreasing(b),
    ensures
        is_non_decreasing(union(a, b)),
        forall|x: u32| #[trigger]
            copies(union(a, b), x) == greater(copies(a, x), copies(b, x)),
{
    lemma_union_copies(a, b, 0, 0);
    assert(a.skip(0) =~= a);
    assert(b.skip(0) =~= b);
}

/// One literal branch of a query: every covering n-gram must be present.
#[derive(Debug, Clone)]
pub struct Branch {
    /// Distinct covering n-grams of the literal (length >= 3).
    pub grams: Vec<Vec<u8>>,
    /// The literal bytes, folded if the plan is.
    pub literal: Vec<u8>,
}

/// What a [`Branch`] stands for.
#[verifier::ext_equal]
pub ghost struct BranchView {
    pub grams: Seq<Seq<u8>>,
    pub literal: Seq<u8>,
}

impl View for Branch {
    type V = BranchView;

    open spec fn view(&self) -> BranchView {
        BranchView { grams: byte_strings(self.grams@), literal: self.literal@ }
    }
}

/// What a list of branches stands for.
pub open spec fn branch_views(branches: Seq<Branch>) -> Seq<BranchView> {
    branches.map_values(|b: Branch| b@)
}

/// A decomposed query.
#[derive(Debug, Clone)]
pub struct QueryPlan {
    /// Literals that every match must *start* with (disjunction).
    pub prefix: Vec<Branch>,
    /// Literals that every match must *end* with (disjunction).
    pub suffix: Vec<Branch>,
    /// True when the pattern is trivially matched by every document
    /// (no useful literals could be extracted).
    pub none: bool,
}

/// What a [`QueryPlan`] stands for.
#[verifier::ext_equal]
pub ghost struct PlanView {
    pub prefix: Seq<BranchView>,
    pub suffix: Seq<BranchView>,
    pub none: bool,
}

impl View for QueryPlan {
    type V = PlanView;

    open spec fn view(&self) -> PlanView {
        PlanView {
            prefix: branch_views(self.prefix@),
            suffix: branch_views(self.suffix@),
            none: self.none,
        }
    }
}

/// One of the first `k` branches has the n-gram.
pub open spec fn has_gram(branches: Seq<BranchView>, k: int, gram: Seq<u8>) -> bool {
    exists|b: int| 0 <= b < k && (#[trigger] branches[b]).grams.contains(gram)
}

/// The n-grams of a plan.
pub open spec fn plan_grams(plan: PlanView) -> Set<Seq<u8>> {
    Set::new(
        |gram: Seq<u8>|
            has_gram(plan.prefix, plan.prefix.len() as int, gram) || has_gram(
                plan.suffix,
                plan.suffix.len() as int,
                gram,
            ),
    )
}

/// Adds n-grams to those in `table`.
fn add_grams(table: &mut KeyTable, grams: &[Vec<u8>])
    requires
        old(table).well_formed(),
        old(table)@.no_duplicates(),
    ensures
        final(table).well_formed(),
        final(table)@.no_duplicates(),
        forall|g: Seq<u8>| #[trigger]
            final(table)@.contains(g) <==> old(table)@.contains(g) || byte_strings(
                grams@,
            ).contains(g),
{
    let ghost strings = byte_strings(grams@);
    let ghost had = table@;
    let mut i: usize = 0;
    while i < grams.len()
        invariant
            i <= grams@.len(),
            strings == byte_strings(grams@),
            table.well_formed(),
            table@.no_duplicates(),
            forall|g: Seq<u8>| #[trigger]
                table@.contains(g) <==> had.contains(g) || strings.take(i as int).contains(g),
        decreases grams@.len() - i,
    {
        let ghost before = table@;
        let ghost gram = grams@[i as int]@;
        table.insert(grams[i].as_slice());
        proof {
            assert(strings[i as int] == gram);
            assert forall|g: Seq<u8>| #[trigger]
                table@.contains(g) <==> had.contains(g) || strings.take(i + 1).contains(g) by {
                lemma_push_contains(before, gram, g);
                assert(before.contains(g) <==> had.contains(g) || strings.take(
                    i as int,
                ).contains(g));
                lemma_push_contains(strings.take(i as int), gram, g);
                assert(strings.take(i + 1) =~= strings.take(i as int).push(gram));
            }
        }
        i += 1;
    }
    assert(strings.take(i as int) =~= strings);
}

proof fn lemma_push_contains<A>(list: Seq<A>, last: A, a: A)
    ensures
        list.push(last).contains(a) <==> list.contains(a) || a == last,
{
    let out = list.push(last);
    if list.contains(a) {
        assert(out[list.index_of(a)] == a);
    }
    if a == last {
        assert(out[list.len() as int] == a);
    }
    if out.contains(a) && a != last {
        assert(list[out.index_of(a)] == a);
    }
}

/// Adds the n-grams of branches to those in `table`.
fn add_branch_grams(table: &mut KeyTable, branches: &[Branch])
    requires
        old(table).well_formed(),
        old(table)@.no_duplicates(),
    ensures
        final(table).well_formed(),
        final(table)@.no_duplicates(),
        forall|g: Seq<u8>| #[trigger]
            final(table)@.contains(g) <==> old(table)@.contains(g) || has_gram(
                branch_views(branches@),
                branches@.len() as int,
                g,
            ),
{
    let ghost views = branch_views(branches@);
    let ghost had = table@;
    let mut i: usize = 0;
    while i < branches.len()
        invariant
            i <= branches@.len(),
            views == branch_views(branches@),
            table.well_formed(),
            table@.no_duplicates(),
            forall|g: Seq<u8>| #[trigger]
                table@.contains(g) <==> had.contains(g) || has_gram(views, i as int, g),
        decreases branches@.len() - i,
    {
        let ghost before = table@;
        add_grams(table, branches[i].grams.as_slice());
        proof {
            assert(views[i as int].grams == byte_strings(branches@[i as int].grams@));
            assert forall|g: Seq<u8>| #[trigger]
                table@.contains(g) <==> had.contains(g) || has_gram(views, i + 1, g) by {
                assert(before.contains(g) <==> had.contains(g) || has_gram(views, i as int, g));
                if has_gram(views, i as int, g) {
                    let b = choose|b: int|
                        0 <= b < i && (#[trigger] views[b]).grams.contains(g);
                    assert(views[b].grams.contains(g));
                }
                if has_gram(views, i + 1, g) && !views[i as int].grams.contains(g) {
                    let b = choose|b: int|
                        0 <= b < i + 1 && (#[trigger] views[b]).grams.contains(g);
                    assert(b < i);
                }
            }
        }
        i += 1;
    }
}

impl QueryPlan {
    /// Total number of distinct covering n-grams across all branches.
    pub fn gram_count(&self) -> (count: usize)
        ensures
            count == plan_grams(self@).len(),
    {
        let mut table = KeyTable::new();
        add_branch_grams(&mut table, self.prefix.as_slice());
        add_branch_grams(&mut table, self.suffix.as_slice());
        let keys = table.into_keys();
        proof {
            table@.unique_seq_to_set();
            assert(table@.to_set() =~= plan_grams(self@));
            assert(byte_strings(keys@).len() == keys@.len());
        }
        keys.len()
    }
}

/// The files that have all of the first `k` n-grams.
pub open spec fn branch_ids(index: IndexView, grams: Seq<Seq<u8>>, k: int) -> Seq<u32>
    decreases k,
{
    if k <= 1 {
        postings_of(index, gram_key(grams[0]))
    } else {
        intersection(
            branch_ids(index, grams, k - 1),
            postings_of(index, gram_key(grams[k - 1])),
        )
    }
}

/// The files that have all n-grams of one of the first `k` branches.
pub open spec fn side_ids(index: IndexView, branches: Seq<BranchView>, k: int) -> Seq<u32>
    decreases k,
{
    if k <= 0 {
        Seq::empty()
    } else {
        union(
            side_ids(index, branches, k - 1),
            branch_ids(index, branches[k - 1].grams, branches[k - 1].grams.len() as int),
        )
    }
}

/// Some branch has no n-grams, so that every file has all of them.
pub open spec fn has_empty_branch(branches: Seq<BranchView>) -> bool {
    exists|b: int| 0 <= b < branches.len() && (#[trigger] branches[b]).grams.len() == 0
}

/// The candidates of one side of a plan; `None` where it imposes no constraint.
pub open spec fn side_of(index: IndexView, branches: Seq<BranchView>) -> Option<Seq<u32>> {
    if branches.len() == 0 || has_empty_branch(branches) {
        None
    } else {
        Some(side_ids(index, branches, branches.len() as int))
    }
}

/// The candidates of a plan; `None` where it imposes no constraint.
pub open spec fn candidates_of(index: IndexView, plan: PlanView) -> Option<Seq<u32>> {
    if plan.none {
        None
    } else {
        match (side_of(index, plan.prefix), side_of(index, plan.suffix)) {
            (Some(a), Some(b)) => Some(intersection(a, b)),
            (Some(a), None) => Some(a),
            (None, Some(b)) => Some(b),
            (None, None) => None,
        }
    }
}

/// An optional list of ids.
pub open spec fn ids_view(ids: Option<Vec<u32>>) -> Option<Seq<u32>> {
    match ids {
        Some(v) => Some(v@),
        None => None,
    }
}

proof fn lemma_empty_merges(a: Seq<u32>)
    ensures
        intersection(a, Seq::empty()) == Seq::<u32>::empty(),
        intersection(Seq::empty(), a) == Seq::<u32>::empty(),
        union(Seq::empty(), a) == a,
        union(a, Seq::empty()) == a,
{
    assert(a.skip(0) =~= a);
    if a.len() == 0 {
        assert(a =~= Seq::empty());
        assert(Seq::<u32>::empty().skip(0) =~= a);
    }
}

/// Once nothing is left of a branch, nothing comes back.
proof fn lemma_branch_stays_empty(index: IndexView, grams: Seq<Seq<u8>>, i: int, k: int)
    requires
        1 <= i <= k,
        branch_ids(index, grams, i).len() == 0,
    ensures
        branch_ids(index, grams, k) == Seq::<u32>::empty(),
    decreases k - i,
{
    if i < k {
        lemma_branch_stays_empty(index, grams, i, k - 1);
        lemma_empty_merges(postings_of(index, gram_key(grams[k - 1])));
    } else {
        assert(branch_ids(index, grams, i) =~= Seq::empty());
    }
}

/// The files that have all n-grams of a branch. The lists are fetched into a
/// reused buffer.
fn branch_candidates(index: &Index, grams: &[Vec<u8>], post: &mut Vec<u32>) -> (ids: Vec<u32>)
    requires
        grams@.len() > 0,
    ensures
        ids@ == branch_ids(index@, byte_strings(grams@), grams@.len() as int),
{
    let ghost strings = byte_strings(grams@);
    let mut acc: Vec<u32> = index.postings(ngram_hash(grams[0].as_slice()));
    let mut i: usize = 1;
    assert(strings[0] == grams@[0]@);
    while i < grams.len() && acc.len() > 0
        invariant
            1 <= i <= grams@.len(),
            strings == byte_strings(grams@),
            acc@ == branch_ids(index@, strings, i as int),
        decreases grams@.len() - i,
    {
        assert(strings[i as int] == grams@[i as int]@);
        index.postings_into(ngram_hash(grams[i].as_slice()), post);
        acc = intersect_sorted(acc.as_slice(), post.as_slice());
        i += 1;
    }
    proof {
        if i < grams@.len() {
            lemma_branch_stays_empty(index@, strings, i as int, grams@.len() as int);
            assert(acc@ =~= Seq::empty());
        }
    }
    acc
}

/// Union over branches of (intersection over each branch's n-grams). `None`
/// where the branches impose no constraint.
fn side_candidates(index: &Index, branches: &[Branch]) -> (ids: Option<Vec<u32>>)
    ensures
        ids_view(ids) == side_of(index@, branch_views(branches@)),
{
    let ghost views = branch_views(branches@);
    if branches.len() == 0 {
        return None;
    }
    let mut post: Vec<u32> = Vec::new();
    let mut result: Vec<u32> = Vec::new();
    let mut i: usize = 0;
    while i < branches.len()
        invariant
            i <= branches@.len(),
            branches@.len() > 0,
            views == branch_views(branches@),
            forall|b: int| 0 <= b < i ==> (#[trigger] views[b]).grams.len() > 0,
            result@ == side_ids(index@, views, i as int),
        decreases branches@.len() - i,
    {
        assert(views[i as int] == branches@[i as int]@);
        if branches[i].grams.len() == 0 {
            assert(has_empty_branch(views));
            return None;
        }
        let ids = branch_candidates(index, branches[i].grams.as_slice(), &mut post);
        result = union_sorted(result.as_slice(), ids.as_slice());
        i += 1;
    }
    Some(result)
}

/// Compute the candidate file set for a plan against an index.
///
/// Candidates are all files whose postings contain *every* covering n-gram
/// of at least one prefix literal AND at least one suffix literal. Returns
/// `None` when the plan imposes no constraint (every file is a candidate).
pub fn candidates(index: &Index, plan: &QueryPlan) -> (ids: Option<Vec<u32>>)
    ensures
        ids_view(ids) == candidates_of(index@, plan@),
{
    if plan.none {
        return None;
    }
    let prefix = side_candidates(index, plan.prefix.as_slice());
    let suffix = side_candidates(index, plan.suffix.as_slice());
    match (prefix, suffix) {
        (Some(a), Some(b)) => Some(intersect_sorted(a.as_slice(), b.as_slice())),
        (Some(a), None) => Some(a),
        (None, Some(b)) => Some(b),
        (None, None) => None,
    }
}

/// The n-grams of a branch: the covering n-grams of its literal, sorted and
/// without repeats.
pub open spec fn branch_grams(literal: Seq<u8>) -> Seq<Seq<u8>> {
    without_repeats(sorted(covering_grams(literal, DEFAULT_MAX_NGRAM_LENGTH as int)))
}

/// A literal, folded if so asked.
pub open spec fn folded_if(fold_case: bool, bytes: Seq<u8>) -> Seq<u8> {
    if fold_case {
        fold(bytes)
    } else {
        bytes
    }
}

/// The branch of a literal.
pub open spec fn branch_of(literal: Seq<u8>, fold_case: bool) -> BranchView {
    let bytes = folded_if(fold_case, literal);
    BranchView { grams: branch_grams(bytes), literal: bytes }
}

/// The branch of each literal.
pub open spec fn literal_branches(literals: Seq<Seq<u8>>, fold_case: bool) -> Seq<BranchView> {
    literals.map_values(|l: Seq<u8>| branch_of(l, fold_case))
}

/// The branches for the literals of one side. There are none if nothing is
/// known of that side, or if one of the literals is too short to have n-grams:
/// a match may then be of that literal alone.
pub open spec fn branches_of(literals: Option<Seq<Seq<u8>>>, fold_case: bool) -> Seq<BranchView> {
    match literals {
        None => Seq::empty(),
        Some(list) => {
            let all = literal_branches(list, fold_case);
            if has_empty_branch(all) {
                Seq::empty()
            } else {
                all
            }
        },
    }
}

/// The plan for the literals of both sides.
pub open spec fn plan_of(
    prefix: Option<Seq<Seq<u8>>>,
    suffix: Option<Seq<Seq<u8>>>,
    fold_case: bool,
) -> PlanView {
    let (p, s) = (branches_of(prefix, fold_case), branches_of(suffix, fold_case));
    PlanView { prefix: p, suffix: s, none: p.len() == 0 && s.len() == 0 }
}

/// Removes repeats from a list of n-grams.
fn remove_repeats(grams: Vec<Vec<u8>>) -> (out: Vec<Vec<u8>>)
    ensures
        byte_strings(out@) == without_repeats(byte_strings(grams@)),
{
    let ghost strings = byte_strings(grams@);
    let mut out: Vec<Vec<u8>> = Vec::new();
    let mut i: usize = 0;
    assert(byte_strings(out@) =~= without_repeats(strings.take(0)));
    while i < grams.len()
        invariant
            i <= grams@.len(),
            strings == byte_strings(grams@),
            byte_strings(out@) == without_repeats(strings.take(i as int)),
        decreases grams@.len() - i,
    {
        assert(strings.take(i + 1).drop_last() =~= strings.take(i as int));
        assert(strings[i as int] == grams@[i as int]@);
        let ghost before = out@;
        let repeated: bool = out.len() > 0 && bytes_equal(
            out[out.len() - 1].as_slice(),
            grams[i].as_slice(),
        );
        assert(out@.len() > 0 ==> byte_strings(out@).last() == out@.last()@);
        if !repeated {
            let copy = slice_to_vec(grams[i].as_slice());
            out.push(copy);
            assert(byte_strings(out@) =~= byte_strings(before).push(strings[i as int]));
        }
        i += 1;
    }
    assert(strings.take(i as int) =~= strings);
    out
}

/// The branch of a literal.
fn make_branch(literal: &[u8], fold_case: bool) -> (branch: Branch)
    ensures
        branch@ == branch_of(literal@, fold_case),
{
    let bytes: Vec<u8> = if fold_case {
        fold_bytes(literal)
    } else {
        slice_to_vec(literal)
    };
    let grams = covering_ngrams(bytes.as_slice(), DEFAULT_MAX_NGRAM_LENGTH);
    proof {
        lemma_sorted_map(grams@, |v: Vec<u8>| v@);
    }
    let ordered = stable_sort(grams);
    let grams = remove_repeats(ordered);
    Branch { grams, literal: bytes }
}

/// The branch of each literal; `None` if one of them has no n-grams.
fn make_branches(list: &[Vec<u8>], fold_case: bool) -> (out: Option<Vec<Branch>>)
    ensures
        match out {
            Some(branches) => branch_views(branches@) == literal_branches(
                byte_strings(list@),
                fold_case,
            ) && !has_empty_branch(branch_views(branches@)),
            None => has_empty_branch(literal_branches(byte_strings(list@), fold_case)),
        },
{
    let ghost all = literal_branches(byte_strings(list@), fold_case);
    let mut out: Vec<Branch> = Vec::new();
    let mut i: usize = 0;
    assert(branch_views(out@) =~= all.take(0));
    while i < list.len()
        invariant
            i <= list@.len(),
            all == literal_branches(byte_strings(list@), fold_case),
            branch_views(out@) == all.take(i as int),
            forall|b: int| 0 <= b < i ==> (#[trigger] all[b]).grams.len() > 0,
        decreases list@.len() - i,
    {
        let branch = make_branch(list[i].as_slice(), fold_case);
        proof {
            lemma_branch_at(list@, i as int, fold_case);
        }
        assert(branch@.grams.len() == branch.grams@.len());
        if branch.grams.len() == 0 {
            assert(all[i as int].grams.len() == 0);
            return None;
        }
        let ghost had = out@;
        out.push(branch);
        i += 1;
        assert(branch_views(out@) =~= branch_views(had).push(branch@));
        assert(all.take(i as int) =~= all.take(i - 1).push(all[i - 1]));
    }
    assert(all.take(i as int) =~= all);
    Some(out)
}

proof fn lemma_branch_at(list: Seq<Vec<u8>>, i: int, fold_case: bool)
    requires
        0 <= i < list.len(),
    ensures
        literal_branches(byte_strings(list), fold_case)[i] == branch_of(list[i]@, fold_case),
        literal_branches(byte_strings(list), fold_case).len() == list.len(),
{
}

/// The branches for the literals of one side.
fn branches(literals: &Option<Vec<Vec<u8>>>, fold_case: bool) -> (out: Vec<Branch>)
    ensures
        branch_views(out@) == branches_of(literals_view(*literals), fold_case),
{
    let nothing: Vec<Branch> = Vec::new();
    assert(branch_views(nothing@) =~= Seq::empty());
    match literals {
        None => nothing,
        Some(list) => match make_branches(list.as_slice(), fold_case) {
            Some(out) => out,
            None => nothing,
        },
    }
}

/// The plan for the literals that every match starts and ends with.
pub fn plan_from_literals(
    prefix: &Option<Vec<Vec<u8>>>,
    suffix: &Option<Vec<Vec<u8>>>,
    fold_case: bool,
) -> (plan: QueryPlan)
    ensures
        plan@ == plan_of(literals_view(*prefix), literals_view(*suffix), fold_case),
{
    let prefix = branches(prefix, fold_case);
    let suffix = branches(suffix, fold_case);
    let none: bool = prefix.len() == 0 && suffix.len() == 0;
    assert(branch_views(prefix@).len() == prefix@.len());
    assert(branch_views(suffix@).len() == suffix@.len());
    QueryPlan { prefix, suffix, none }
}

/// `text` starts with the literal of one of the branches, if there are any.
pub open spec fn starts_with_branch(branches: Seq<BranchView>, text: Seq<u8>) -> bool {
    branches.len() > 0 ==> exists|b: int|
        0 <= b < branches.len() && (#[trigger] branches[b]).literal.is_prefix_of(text)
}

/// `text` ends with the literal of one of the branches, if there are any.
pub open spec fn ends_with_branch(branches: Seq<BranchView>, text: Seq<u8>) -> bool {
    branches.len() > 0 ==> exists|b: int|
        0 <= b < branches.len() && (#[trigger] branches[b]).literal.is_suffix_of(text)
}

/// What is between `span.0` and `span.1` in `haystack`, folded like the plan,
/// starts with a literal of its prefix side and ends with one of its suffix
/// side.
pub open spec fn is_framed(
    plan: PlanView,
    haystack: Seq<u8>,
    span: (usize, usize),
    fold_case: bool,
) -> bool {
    plan.prefix.len() + plan.suffix.len() > 0 ==> span.0 <= span.1 <= haystack.len() && {
        let found = folded_if(fold_case, haystack.subrange(span.0 as int, span.1 as int));
        starts_with_branch(plan.prefix, found) && ends_with_branch(plan.suffix, found)
    }
}

/// Every match of the pattern starts and ends with literals of the plan.
pub open spec fn plan_is_required(
    plan: PlanView,
    pattern: Seq<char>,
    ignore_case: bool,
    fold_case: bool,
) -> bool {
    forall|haystack: Seq<u8>, k: int|
        0 <= k < pattern_spans(pattern, ignore_case, haystack).len() ==> is_framed(
            plan,
            haystack,
            #[trigger] pattern_spans(pattern, ignore_case, haystack)[k],
            fold_case,
        )
}

/// A text that starts or ends with a literal does so when both are folded:
/// folding only widens what a plan lets through.
pub proof fn folding_keeps_frames(literal: Seq<u8>, text: Seq<u8>, fold_case: bool)
    ensures
        literal.is_prefix_of(text) ==> folded_if(fold_case, literal).is_prefix_of(
            folded_if(fold_case, text),
        ),
        literal.is_suffix_of(text) ==> folded_if(fold_case, literal).is_suffix_of(
            folded_if(fold_case, text),
        ),
{
    let (l, n) = (literal.len() as int, text.len() as int);
    if literal.is_prefix_of(text) {
        assert(fold(literal) =~= fold(text).subrange(0, l)) by {
            assert forall|i: int| 0 <= i < l implies literal[i] == text[i] by {
                assert(text.subrange(0, l)[i] == text[i]);
            }
        }
    }
    if literal.is_suffix_of(text) {
        assert(fold(literal) =~= fold(text).subrange(n - l, n)) by {
            assert forall|i: int| 0 <= i < l implies literal[i] == text[n - l + i] by {
                assert(text.subrange(n - l, n)[i] == text[n - l + i]);
            }
        }
    }
}

proof fn lemma_branch_literal(literals: Seq<Seq<u8>>, i: int, fold_case: bool)
    requires
        0 <= i < literals.len(),
        branches_of(Some(literals), fold_case).len() > 0,
    ensures
        i < branches_of(Some(literals), fold_case).len(),
        branches_of(Some(literals), fold_case)[i].literal == folded_if(fold_case, literals[i]),
{
}

/// A match that is framed by literals is framed by the branches made of them.
proof fn lemma_framed(
    prefix: Option<Seq<Seq<u8>>>,
    suffix: Option<Seq<Seq<u8>>>,
    fold_case: bool,
    haystack: Seq<u8>,
    span: (usize, usize),
)
    requires
        prefix matches Some(list) ==> starts_with_one(list, haystack, span),
        suffix matches Some(list) ==> ends_with_one(list, haystack, span),
    ensures
        is_framed(plan_of(prefix, suffix, fold_case), haystack, span, fold_case),
{
    let plan = plan_of(prefix, suffix, fold_case);
    let found = haystack.subrange(span.0 as int, span.1 as int);
    if plan.prefix.len() > 0 {
        let list = prefix->0;
        let i = choose|i: int| 0 <= i < list.len() && (#[trigger] list[i]).is_prefix_of(found);
        folding_keeps_frames(list[i], found, fold_case);
        lemma_branch_literal(list, i, fold_case);
    }
    if plan.suffix.len() > 0 {
        let list = suffix->0;
        let i = choose|i: int| 0 <= i < list.len() && (#[trigger] list[i]).is_suffix_of(found);
        folding_keeps_frames(list[i], found, fold_case);
        lemma_branch_literal(list, i, fold_case);
    }
}

/// Decompose a regex pattern into a query plan.
///
/// `fold_case` lowercases extracted literals so they match a case-folded
/// index. Every case-sensitive match of the pattern, folded like the literals,
/// starts with a literal of the prefix side, if it has any, and ends with one
/// of the suffix side.
pub fn decompose(pattern: &str, fold_case: bool) -> (plan: QueryPlan)
    ensures
        plan@ == plan_of(
            prefix_literals(pattern@, false, LITERAL_LIMIT, CLASS_LIMIT),
            suffix_literals(pattern@, false, LITERAL_LIMIT, CLASS_LIMIT),
            fold_case,
        ),
        plan_is_required(plan@, pattern@, false, fold_case),
{
    let prefix = extract_prefixes(pattern, false, LITERAL_LIMIT, CLASS_LIMIT);
    let suffix = extract_suffixes(pattern, false, LITERAL_LIMIT, CLASS_LIMIT);
    let plan = plan_from_literals(&prefix, &suffix, fold_case);
    proof {
        assert forall|haystack: Seq<u8>, k: int|
            0 <= k < pattern_spans(pattern@, false, haystack).len() implies is_framed(
            plan@,
            haystack,
            #[trigger] pattern_spans(pattern@, false, haystack)[k],
            fold_case,
        ) by {
            lemma_framed(
                literals_view(prefix),
                literals_view(suffix),
                fold_case,
                haystack,
                pattern_spans(pattern@, false, haystack)[k],
            );
        }
    }
    plan
}

/// A literal has n-grams if and only if it has three bytes. They are just its
/// covering n-grams, in ascending order; those of a literal in lower case are in
/// lower case.
pub proof fn branch_grams_are_the_covering_grams(literal: Seq<u8>)
    ensures
        branch_grams(literal).len() > 0 <==> literal.len() >= 3,
        forall|g: Seq<u8>| #[trigger]
            branch_grams(literal).contains(g) <==> covering_grams(
                literal,
                DEFAULT_MAX_NGRAM_LENGTH as int,
            ).contains(g),
        forall|i: int, j: int|
            0 <= i < j < branch_grams(literal).len() ==> bytes_before(
                #[trigger] branch_grams(literal)[i],
                #[trigger] branch_grams(literal)[j],
            ),
        fold(literal) == literal ==> forall|i: int|
            0 <= i < branch_grams(literal).len() ==> fold(#[trigger] branch_grams(literal)[i])
                == branch_grams(literal)[i],
{
    let max = DEFAULT_MAX_NGRAM_LENGTH as int;
    let grams = covering_grams(literal, max);
    let list = branch_grams(literal);
    covering_spans_are_few_and_short(literal, max);
    covering_spans_cover_the_literal(literal, max);
    if literal.len() >= 3 {
        assert(is_inside_some(covering_spans(weights(literal), max, 0), 0));
        assert(grams.len() > 0);
    }
    sorted_keeps_the_items(grams);
    sorted_is_sorted(grams);
    without_repeats_keeps_members(sorted(grams));
    lemma_without_repeats_ascending(sorted(grams));
    assert forall|g: Seq<u8>| #[trigger] list.contains(g) <==> grams.contains(g) by {
        assert(sorted(grams).contains(g) <==> grams.contains(g));
    }
    if fold(literal) == literal {
        assert forall|i: int| 0 <= i < list.len() implies fold(#[trigger] list[i]) == list[i] by {
            assert(list.contains(list[i]));
            lemma_lower_gram(literal, grams.index_of(list[i]));
        }
    }
}

/// The covering n-grams of a literal in lower case are in lower case.
proof fn lemma_lower_gram(literal: Seq<u8>, k: int)
    requires
        fold(literal) == literal,
        0 <= k < covering_grams(literal, DEFAULT_MAX_NGRAM_LENGTH as int).len(),
    ensures
        ({
            let gram = covering_grams(literal, DEFAULT_MAX_NGRAM_LENGTH as int)[k];
            fold(gram) == gram
        }),
{
    let gram = covering_grams(literal, DEFAULT_MAX_NGRAM_LENGTH as int)[k];
    covering_grams_stand_in_the_literal(literal, DEFAULT_MAX_NGRAM_LENGTH as int, k);
    let at = choose|at: int|
        0 <= at && at + gram.len() <= literal.len() && #[trigger] literal.subrange(
            at,
            at + gram.len(),
        ) == gram;
    assert forall|i: int| 0 <= i < gram.len() implies fold(gram)[i] == gram[i] by {
        assert(gram[i] == literal[at + i]);
        assert(fold(literal)[at + i] == literal[at + i]);
    }
    assert(fold(gram) =~= gram);
}

/// A sorted list of byte strings without repeats is ascending.
proof fn lemma_without_repeats_ascending(s: Seq<Seq<u8>>)
    requires
        is_sorted(s),
    ensures
        forall|i: int, j: int|
            0 <= i < j < without_repeats(s).len() ==> bytes_before(
                #[trigger] without_repeats(s)[i],
                #[trigger] without_repeats(s)[j],
            ),
    decreases s.len(),
{
    if s.len() > 0 {
        let init = s.drop_last();
        let rest = without_repeats(init);
        lemma_without_repeats_ascending(init);
        without_repeats_keeps_members(init);
        if !(rest.len() > 0 && rest.last() == s.last()) {
            assert forall|i: int| 0 <= i < rest.len() implies bytes_before(
                #[trigger] rest[i],
                s.last(),
            ) by {
                let last = rest.last();
                assert(init.last() == last);
                assert(!s[s.len() - 1].before(&s[s.len() - 2]));
                if !bytes_before(last, s.last()) {
                    lemma_bytes_before_total(last, s.last());
                }
                if i < rest.len() - 1 {
                    assert(bytes_before(rest[i], rest[rest.len() - 1]));
                    lemma_bytes_before_is_an_order(rest[i], last, s.last(), 0);
                }
            }
        }
    }
}

proof fn lemma_folded_branches(literals: Option<Seq<Seq<u8>>>)
    ensures
        branches_of(literals, true).len() == branches_of(literals, false).len(),
        forall|i: int|
            0 <= i < branches_of(literals, true).len() ==> (#[trigger] branches_of(
                literals,
                true,
            )[i]).literal == fold(branches_of(literals, false)[i].literal),
        forall|i: int, fold_case: bool|
            0 <= i < branches_of(literals, fold_case).len() ==> (#[trigger] branches_of(
                literals,
                fold_case,
            )[i]).grams == branch_grams(branches_of(literals, fold_case)[i].literal)
                && branches_of(literals, fold_case)[i].grams.len() > 0,
{
    if literals is Some {
        let list = literals->0;
        let (a, b) = (literal_branches(list, false), literal_branches(list, true));
        assert forall|i: int| 0 <= i < list.len() implies (#[trigger] a[i]).grams.len() == 0
            <==> b[i].grams.len() == 0 by {
            branch_grams_are_the_covering_grams(list[i]);
            branch_grams_are_the_covering_grams(fold(list[i]));
        }
        if has_empty_branch(a) {
            let i = choose|i: int| 0 <= i < a.len() && (#[trigger] a[i]).grams.len() == 0;
            assert(b[i].grams.len() == 0);
        }
        if has_empty_branch(b) {
            let i = choose|i: int| 0 <= i < b.len() && (#[trigger] b[i]).grams.len() == 0;
            assert(a[i].grams.len() == 0);
        }
        assert forall|i: int, fold_case: bool|
            0 <= i < branches_of(literals, fold_case).len() implies (#[trigger] branches_of(
            literals,
            fold_case,
        )[i]).grams == branch_grams(branches_of(literals, fold_case)[i].literal) && branches_of(
            literals,
            fold_case,
        )[i].grams.len() > 0 by {
            let all = literal_branches(list, fold_case);
            assert(!has_empty_branch(all));
            assert(all[i].grams.len() > 0);
        }
    }
}

/// A folded plan is the plan in lower case: it has the same branches in the same
/// order, each with the literal in lower case. Every branch has n-grams, and
/// they are those of its literal. A plan without branches imposes no
/// constraint.
pub proof fn folding_a_plan_lowers_its_literals(
    prefix: Option<Seq<Seq<u8>>>,
    suffix: Option<Seq<Seq<u8>>>,
)
    ensures
        ({
            let (a, b) = (plan_of(prefix, suffix, false), plan_of(prefix, suffix, true));
            &&& a.none == b.none
            &&& b.none == (b.prefix.len() == 0 && b.suffix.len() == 0)
            &&& is_lowered_side(a.prefix, b.prefix)
            &&& is_lowered_side(a.suffix, b.suffix)
        }),
{
    lemma_folded_branches(prefix);
    lemma_folded_branches(suffix);
    let (a, b) = (plan_of(prefix, suffix, false), plan_of(prefix, suffix, true));
    assert forall|i: int| 0 <= i < b.prefix.len() implies (#[trigger] b.prefix[i]).literal == fold(
        a.prefix[i].literal,
    ) && b.prefix[i].grams == branch_grams(b.prefix[i].literal) && b.prefix[i].grams.len() > 0 by {
        assert(branches_of(prefix, true)[i] == b.prefix[i]);
    }
    assert forall|i: int| 0 <= i < b.suffix.len() implies (#[trigger] b.suffix[i]).literal == fold(
        a.suffix[i].literal,
    ) && b.suffix[i].grams == branch_grams(b.suffix[i].literal) && b.suffix[i].grams.len() > 0 by {
        assert(branches_of(suffix, true)[i] == b.suffix[i]);
    }
}

/// The branches of `b` are those of `a` in lower case.
pub open spec fn is_lowered_side(a: Seq<BranchView>, b: Seq<BranchView>) -> bool {
    &&& a.len() == b.len()
    &&& forall|i: int|
        0 <= i < b.len() ==> (#[trigger] b[i]).literal == fold(a[i].literal) && b[i].grams
            == branch_grams(b[i].literal) && b[i].grams.len() > 0
}

/// Literals in lower case, each at its first occurrence only.
pub open spec fn lowered(literals: Option<Seq<Seq<u8>>>) -> Option<Seq<Seq<u8>>> {
    match literals {
        Some(list) => Some(distinct(list.map_values(|l: Seq<u8>| fold(l)))),
        None => None,
    }
}

/// Puts literals in lower case and leaves out those that are there already.
fn lower_literals(literals: &Option<Vec<Vec<u8>>>) -> (out: Option<Vec<Vec<u8>>>)
    ensures
        literals_view(out) == lowered(literals_view(*literals)),
{
    let list = match literals {
        Some(list) => list,
        None => {
            return None;
        },
    };
    let ghost folded = byte_strings(list@).map_values(|l: Seq<u8>| fold(l));
    let mut table = KeyTable::new();
    let mut i: usize = 0;
    assert(distinct(folded.take(0)) =~= Seq::empty());
    while i < list.len()
        invariant
            i <= list@.len(),
            folded == byte_strings(list@).map_values(|l: Seq<u8>| fold(l)),
            table.well_formed(),
            table@ == distinct(folded.take(i as int)),
        decreases list@.len() - i,
    {
        assert(folded.take(i + 1).drop_last() =~= folded.take(i as int));
        assert(folded.take(i + 1).last() == fold(list@[i as int]@));
        let literal = fold_bytes(list[i].as_slice());
        table.insert(literal.as_slice());
        i += 1;
    }
    assert(folded.take(i as int) =~= folded);
    Some(table.into_keys())
}

/// What starts or ends with one of the literals does so, folded, with one of
/// them in lower case.
proof fn lemma_lowered_frames(list: Seq<Seq<u8>>, i: int, found: Seq<u8>) -> (j: int)
    requires
        0 <= i < list.len(),
    ensures
        0 <= j < lowered(Some(list))->0.len(),
        list[i].is_prefix_of(found) ==> lowered(Some(list))->0[j].is_prefix_of(fold(found)),
        list[i].is_suffix_of(found) ==> lowered(Some(list))->0[j].is_suffix_of(fold(found)),
{
    let folded = list.map_values(|l: Seq<u8>| fold(l));
    distinct_keeps_each_once(folded);
    assert(folded[i] == fold(list[i]));
    assert(folded.contains(fold(list[i])));
    folding_keeps_frames(list[i], found, true);
    distinct(folded).index_of(fold(list[i]))
}

proof fn lemma_fold_twice(bytes: Seq<u8>)
    ensures
        fold(fold(bytes)) == fold(bytes),
{
    assert(fold(fold(bytes)) =~= fold(bytes));
}

proof fn lemma_lowered_branch(list: Seq<Seq<u8>>, j: int)
    requires
        0 <= j < lowered(Some(list))->0.len(),
        branches_of(lowered(Some(list)), true).len() > 0,
    ensures
        j < branches_of(lowered(Some(list)), true).len(),
        branches_of(lowered(Some(list)), true)[j].literal == lowered(Some(list))->0[j],
{
    let low = lowered(Some(list))->0;
    assert(fold(low[j]) == low[j]) by {
        let folded = list.map_values(|l: Seq<u8>| fold(l));
        distinct_keeps_each_once(folded);
        assert(distinct(folded).contains(low[j]));
        assert(folded.contains(low[j]));
        lemma_fold_twice(list[folded.index_of(low[j])]);
    }
    lemma_branch_literal(low, j, true);
}

/// Decompose a regex pattern into a plan for a case-insensitive search.
///
/// The pattern is read case-insensitively, so its literals spell out in which
/// cases a letter matches, letters outside ASCII included; in lower case most
/// of them fall together. Every case-insensitive match of the pattern, folded,
/// starts with a literal of the prefix side, if it has any, and ends with one of
/// the suffix side.
pub fn decompose_ignoring_case(pattern: &str) -> (plan: QueryPlan)
    ensures
        plan@ == plan_of(
            lowered(prefix_literals(pattern@, true, LITERAL_LIMIT, CLASS_LIMIT)),
            lowered(suffix_literals(pattern@, true, LITERAL_LIMIT, CLASS_LIMIT)),
            true,
        ),
        plan_is_required(plan@, pattern@, true, true),
{
    let prefix = extract_prefixes(pattern, true, LITERAL_LIMIT, CLASS_LIMIT);
    let suffix = extract_suffixes(pattern, true, LITERAL_LIMIT, CLASS_LIMIT);
    let low_prefix = lower_literals(&prefix);
    let low_suffix = lower_literals(&suffix);
    let plan = plan_from_literals(&low_prefix, &low_suffix, true);
    proof {
        assert forall|haystack: Seq<u8>, k: int|
            0 <= k < pattern_spans(pattern@, true, haystack).len() implies is_framed(
            plan@,
            haystack,
            #[trigger] pattern_spans(pattern@, true, haystack)[k],
            true,
        ) by {
            let span = pattern_spans(pattern@, true, haystack)[k];
            let found = haystack.subrange(span.0 as int, span.1 as int);
            if plan@.prefix.len() > 0 {
                let list = byte_strings(prefix->0@);
                assert(starts_with_one(list, haystack, span));
                let i = choose|i: int|
                    0 <= i < list.len() && (#[trigger] list[i]).is_prefix_of(found);
                let j = lemma_lowered_frames(list, i, found);
                lemma_lowered_branch(list, j);
                assert(plan@.prefix[j].literal.is_prefix_of(fold(found)));
            }
            if plan@.suffix.len() > 0 {
                let list = byte_strings(suffix->0@);
                assert(ends_with_one(list, haystack, span));
                let i = choose|i: int|
                    0 <= i < list.len() && (#[trigger] list[i]).is_suffix_of(found);
                let j = lemma_lowered_frames(list, i, found);
                lemma_lowered_branch(list, j);
                assert(plan@.suffix[j].literal.is_suffix_of(fold(found)));
            }
        }
    }
    plan
}

/// One side of a plan. There are no branches if nothing is known of the side or
/// if one of its literals has fewer than three bytes. Otherwise there is one for
/// each literal, in order: it has the literal, in lower case if the plan is
/// folded, and its covering n-grams, each once.
pub open spec fn is_side_of(
    branches: Seq<BranchView>,
    literals: Option<Seq<Seq<u8>>>,
    fold_case: bool,
) -> bool {
    match literals {
        None => branches.len() == 0,
        Some(list) => if exists|i: int| 0 <= i < list.len() && (#[trigger] list[i]).len() < 3 {
            branches.len() == 0
        } else {
            &&& branches.len() == list.len()
            &&& forall|i: int|
                0 <= i < list.len() ==> {
                    let b = #[trigger] branches[i];
                    &&& b.literal == if fold_case {
                        fold(list[i])
                    } else {
                        list[i]
                    }
                    &&& b.grams.no_duplicates()
                    &&& forall|g: Seq<u8>| #[trigger]
                        b.grams.contains(g) <==> covering_grams(b.literal, 16).contains(g)
                }
        },
    }
}

proof fn lemma_side_of(literals: Option<Seq<Seq<u8>>>, fold_case: bool)
    ensures
        is_side_of(branches_of(literals, fold_case), literals, fold_case),
{
    if let Some(list) = literals {
        let all = literal_branches(list, fold_case);
        assert forall|i: int| 0 <= i < list.len() implies {
            let b = #[trigger] all[i];
            &&& b.literal == folded_if(fold_case, list[i])
            &&& b.grams.no_duplicates()
            &&& (b.grams.len() == 0 <==> list[i].len() < 3)
            &&& forall|g: Seq<u8>| #[trigger]
                b.grams.contains(g) <==> covering_grams(b.literal, 16).contains(g)
        } by {
            let literal = folded_if(fold_case, list[i]);
            branch_grams_are_the_covering_grams(literal);
            let grams = branch_grams(literal);
            assert(literal.len() == list[i].len());
            assert(grams.no_duplicates()) by {
                assert forall|x: int, y: int| 0 <= x < y < grams.len() implies grams[x]
                    != grams[y] by {
                    assert(bytes_before(grams[x], grams[y]));
                    lemma_bytes_before_is_an_order(grams[x], grams[x], grams[x], 0);
                }
            }
        }
        if exists|i: int| 0 <= i < list.len() && (#[trigger] list[i]).len() < 3 {
            let i = choose|i: int| 0 <= i < list.len() && (#[trigger] list[i]).len() < 3;
            assert(all[i].grams.len() == 0);
            assert(has_empty_branch(all));
        } else {
            assert(!has_empty_branch(all)) by {
                if has_empty_branch(all) {
                    let i = choose|i: int| 0 <= i < all.len() && (#[trigger] all[i]).grams.len() == 0;
                    assert(list[i].len() < 3);
                }
            }
        }
    }
}

/// A plan has what its literals call for on either side, and nothing else. It
/// imposes no constraint exactly if it has no branches.
pub proof fn plans_have_a_branch_for_each_literal(
    prefix: Option<Seq<Seq<u8>>>,
    suffix: Option<Seq<Seq<u8>>>,
    fold_case: bool,
)
    ensures
        is_side_of(plan_of(prefix, suffix, fold_case).prefix, prefix, fold_case),
        is_side_of(plan_of(prefix, suffix, fold_case).suffix, suffix, fold_case),
        plan_of(prefix, suffix, fold_case).none <==> plan_of(prefix, suffix, fold_case).prefix.len()
            == 0 && plan_of(prefix, suffix, fold_case).suffix.len() == 0,
{
    lemma_side_of(prefix, fold_case);
    lemma_side_of(suffix, fold_case);
}

/// The n-grams of a plan are those of its branches on either side.
pub proof fn plans_have_the_grams_of_their_branches(plan: PlanView, gram: Seq<u8>)
    ensures
        plan_grams(plan).contains(gram) <==> (exists|b: int|
            0 <= b < plan.prefix.len() && (#[trigger] plan.prefix[b]).grams.contains(gram)) || (
        exists|b: int|
            0 <= b < plan.suffix.len() && (#[trigger] plan.suffix[b]).grams.contains(gram)),
{
}

/// A list of branches stands for its branches, each with its literal and its
/// n-grams.
pub proof fn branch_views_show_every_branch(branches: Seq<Branch>)
    ensures
        branch_views(branches).len() == branches.len(),
        forall|i: int|
            0 <= i < branches.len() ==> {
                let b = #[trigger] branch_views(branches)[i];
                &&& b.literal == branches[i].literal@
                &&& b.grams.len() == branches[i].grams@.len()
                &&& forall|k: int|
                    0 <= k < b.grams.len() ==> #[trigger] b.grams[k] == branches[i].grams@[k]@
            },
{
}

/// What both lists hold at their start comes first in their union and in their
/// intersection; and what is in one list only at its start, and less than the
/// other's, comes first in the union and is left out of the intersection.
pub proof fn lists_are_merged_from_the_front(a: Seq<u32>, b: Seq<u32>, x: u32, y: u32)
    requires
        x < y,
    ensures
        intersection(seq![x] + a, seq![x] + b) == seq![x] + intersection(a, b),
        union(seq![x] + a, seq![x] + b) == seq![x] + union(a, b),
        intersection(seq![x] + a, seq![y] + b) == intersection(a, seq![y] + b),
        intersection(seq![y] + a, seq![x] + b) == intersection(seq![y] + a, b),
        union(seq![x] + a, seq![y] + b) == seq![x] + union(a, seq![y] + b),
        union(seq![y] + a, seq![x] + b) == seq![x] + union(seq![y] + a, b),
        intersection(a, Seq::empty()).len() == 0,
        intersection(Seq::empty(), a).len() == 0,
        union(a, Seq::empty()) == a,
        union(Seq::empty(), a) == a,
{
    lemma_empty_merges(a);
    let (ax, bx) = (seq![x] + a, seq![x] + b);
    let (ay, by) = (seq![y] + a, seq![y] + b);
    assert(a.skip(0) =~= a && ax.skip(1) =~= a);
    assert(b.skip(0) =~= b && bx.skip(1) =~= b);
    lemma_merge_shifts(ax, bx, 1, 1, a, b, 0, 0);
    lemma_merge_shifts(ax, by, 1, 0, a, by, 0, 0);
    lemma_merge_shifts(ay, bx, 0, 1, ay, b, 0, 0);
}

/// Merging depends on what is left of the lists alone.
proof fn lemma_merge_shifts(
    a: Seq<u32>,
    b: Seq<u32>,
    i: int,
    j: int,
    c: Seq<u32>,
    d: Seq<u32>,
    k: int,
    l: int,
)
    requires
        0 <= i <= a.len(),
        0 <= j <= b.len(),
        0 <= k <= c.len(),
        0 <= l <= d.len(),
        a.skip(i) == c.skip(k),
        b.skip(j) == d.skip(l),
    ensures
        intersection_from(a, b, i, j) == intersection_from(c, d, k, l),
        union_from(a, b, i, j) == union_from(c, d, k, l),
    decreases a.len() + b.len() - i - j,
{
    assert(a.skip(i).len() == a.len() - i && c.skip(k).len() == c.len() - k);
    assert(b.skip(j).len() == b.len() - j && d.skip(l).len() == d.len() - l);
    if i < a.len() && j < b.len() {
        assert(a.skip(i)[0] == a[i]);
        assert(c.skip(k)[0] == c[k]);
        assert(b.skip(j)[0] == b[j]);
        assert(d.skip(l)[0] == d[l]);
        assert(a.skip(i + 1) =~= a.skip(i).skip(1));
        assert(c.skip(k + 1) =~= c.skip(k).skip(1));
        assert(b.skip(j + 1) =~= b.skip(j).skip(1));
        assert(d.skip(l + 1) =~= d.skip(l).skip(1));
        if a[i] < b[j] {
            lemma_merge_shifts(a, b, i + 1, j, c, d, k + 1, l);
        } else if a[i] > b[j] {
            lemma_merge_shifts(a, b, i, j + 1, c, d, k, l + 1);
        } else {
            lemma_merge_shifts(a, b, i + 1, j + 1, c, d, k + 1, l + 1);
        }
    }
}

/// A plan, a list of literals and a list of candidates stand for all they hold.
pub proof fn plans_show_all_they_hold(
    plan: QueryPlan,
    literals: Option<Vec<Vec<u8>>>,
    ids: Option<Vec<u32>>,
)
    ensures
        plan@.none == plan.none,
        plan@.prefix == branch_views(plan.prefix@) && plan@.suffix == branch_views(plan.suffix@),
        literals is None ==> literals_view(literals) is None,
        literals matches Some(list) ==> literals_view(literals) == Some(byte_strings(list@)),
        ids is None ==> ids_view(ids) is None,
        ids matches Some(list) ==> ids_view(ids) == Some(list@),
{
}

/// Literals in lower case are just those that were there, in lower case, and
/// each is there once.
pub proof fn lowered_literals_are_the_same_in_lower_case(list: Seq<Seq<u8>>, literal: Seq<u8>)
    ensures
        lowered(None) is None,
        lowered(Some(list)) matches Some(out) && out.no_duplicates() && (out.contains(literal)
            <==> exists|i: int| 0 <= i < list.len() && fold(#[trigger] list[i]) == literal),
{
    let all = list.map_values(|l: Seq<u8>| fold(l));
    distinct_keeps_each_once(all);
    assert(distinct(all).contains(literal) <==> all.contains(literal));
    if all.contains(literal) {
        let i = all.index_of(literal);
        assert(fold(list[i]) == literal);
    }
    if exists|i: int| 0 <= i < list.len() && fold(#[trigger] list[i]) == literal {
        let i = choose|i: int| 0 <= i < list.len() && fold(#[trigger] list[i]) == literal;
        assert(all[i] == literal);
    }
}

} // verus!
