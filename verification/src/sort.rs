//! Stable sorting, and what sorting promises.

use vstd::prelude::*;

verus! {

/// Types with a strict order under which some values may tie.
pub trait Ordered: Sized {
    /// `self` comes strictly before `other`.
    spec fn before(&self, other: &Self) -> bool;

    /// Nothing comes before itself, and what comes before something comes
    /// before or after any third value in step with it.
    proof fn before_is_an_order(a: &Self, b: &Self, c: &Self)
        ensures
            !a.before(a),
            a.before(b) ==> a.before(c) || c.before(b),
            a.before(b) && b.before(c) ==> a.before(c),
    ;
}

/// Types whose order can be computed.
pub trait Ranked: Ordered {
    /// Whether `self` comes strictly before `other`.
    fn is_before(&self, other: &Self) -> (yes: bool)
        ensures
            yes == self.before(other),
    ;
}

/// `a` and `b` interleaved, each in its own order: of two ends the later one
/// comes last, and of two that tie the one from `b`.
pub open spec fn merged<T: Ordered>(a: Seq<T>, b: Seq<T>) -> Seq<T>
    decreases a.len() + b.len(),
{
    if b.len() == 0 {
        a
    } else if a.len() == 0 {
        b
    } else if b.last().before(&a.last()) {
        merged(a.drop_last(), b).push(a.last())
    } else {
        merged(a, b.drop_last()).push(b.last())
    }
}

/// `s` in order. Members that tie keep the order they have in `s`.
pub open spec fn sorted<T: Ordered>(s: Seq<T>) -> Seq<T>
    decreases s.len(),
{
    if s.len() == 0 {
        s
    } else {
        merged(sorted(s.drop_last()), seq![s.last()])
    }
}

/// No member comes before an earlier one.
pub open spec fn is_sorted<T: Ordered>(s: Seq<T>) -> bool {
    forall|i: int, j: int|
        #![trigger s[i], s[j]]
        0 <= i < j < s.len() ==> !s[j].before(&s[i])
}

proof fn lemma_merged_len<T: Ordered>(a: Seq<T>, b: Seq<T>)
    ensures
        merged(a, b).len() == a.len() + b.len(),
        merged(a, b).to_multiset() == a.to_multiset().add(b.to_multiset()),
    decreases a.len() + b.len(),
{
    broadcast use vstd::multiset::group_multiset_axioms;
    broadcast use vstd::seq_lib::group_to_multiset_ensures;

    if b.len() == 0 {
        assert(a.to_multiset() =~= a.to_multiset().add(b.to_multiset()));
    } else if a.len() == 0 {
        assert(b.to_multiset() =~= a.to_multiset().add(b.to_multiset()));
    } else if b.last().before(&a.last()) {
        lemma_merged_len(a.drop_last(), b);
        assert(a =~= a.drop_last().push(a.last()));
        assert(merged(a, b).to_multiset() =~= a.to_multiset().add(b.to_multiset()));
    } else {
        lemma_merged_len(a, b.drop_last());
        assert(b =~= b.drop_last().push(b.last()));
        assert(merged(a, b).to_multiset() =~= a.to_multiset().add(b.to_multiset()));
    }
}

/// Merging associates.
proof fn lemma_merged_associates<T: Ordered>(a: Seq<T>, b: Seq<T>, c: Seq<T>)
    ensures
        merged(merged(a, b), c) == merged(a, merged(b, c)),
    decreases a.len() + b.len() + c.len(),
{
    lemma_merged_len(a, b);
    lemma_merged_len(b, c);
    if a.len() > 0 && b.len() > 0 && c.len() > 0 {
        let (x, y, z) = (a.last(), b.last(), c.last());
        T::before_is_an_order(&x, &y, &z);
        T::before_is_an_order(&y, &x, &z);
        T::before_is_an_order(&z, &x, &y);
        T::before_is_an_order(&z, &y, &x);
        T::before_is_an_order(&x, &z, &y);
        T::before_is_an_order(&y, &z, &x);
        let left = merged(a, b);
        let right = merged(b, c);
        if y.before(&x) {
            assert(left.drop_last() =~= merged(a.drop_last(), b));
        } else {
            assert(left.drop_last() =~= merged(a, b.drop_last()));
        }
        if z.before(&y) {
            assert(right.drop_last() =~= merged(b.drop_last(), c));
        } else {
            assert(right.drop_last() =~= merged(b, c.drop_last()));
        }
        if z.before(&left.last()) {
            if y.before(&x) {
                lemma_merged_associates(a.drop_last(), b, c);
            } else {
                lemma_merged_associates(a, b.drop_last(), c);
            }
        } else {
            lemma_merged_associates(a, b, c.drop_last());
        }
    }
}

/// The order of a concatenation is the merge of the orders of its parts.
proof fn lemma_sorted_concat<T: Ordered>(a: Seq<T>, b: Seq<T>)
    ensures
        sorted(a + b) == merged(sorted(a), sorted(b)),
    decreases b.len(),
{
    if b.len() == 0 {
        assert(a + b =~= a);
    } else {
        let c = b.drop_last();
        assert((a + b).drop_last() =~= a + c);
        lemma_sorted_concat(a, c);
        lemma_merged_associates(sorted(a), sorted(c), seq![b.last()]);
    }
}

/// Sorting loses nothing and adds nothing.
pub proof fn sorted_keeps_the_items<T: Ordered>(s: Seq<T>)
    ensures
        sorted(s).to_multiset() == s.to_multiset(),
        sorted(s).len() == s.len(),
        forall|t: T| sorted(s).contains(t) <==> #[trigger] s.contains(t),
    decreases s.len(),
{
    broadcast use vstd::multiset::group_multiset_axioms;
    broadcast use vstd::seq_lib::group_to_multiset_ensures;

    if s.len() > 0 {
        let init = s.drop_last();
        let one = seq![s.last()];
        sorted_keeps_the_items(init);
        lemma_merged_len(sorted(init), one);
        assert(one =~= Seq::<T>::empty().push(s.last()));
        assert(s =~= init.push(s.last()));
        assert(sorted(s).to_multiset() =~= s.to_multiset());
    }
    assert forall|t: T| sorted(s).contains(t) <==> #[trigger] s.contains(t) by {
        assert(sorted(s).contains(t) <==> sorted(s).to_multiset().count(t) > 0);
        assert(s.contains(t) <==> s.to_multiset().count(t) > 0);
    }
}

proof fn lemma_merged_is_sorted<T: Ordered>(a: Seq<T>, b: Seq<T>)
    requires
        is_sorted(a),
        is_sorted(b),
    ensures
        is_sorted(merged(a, b)),
        forall|t: T|
            merged(a, b).contains(t) ==> a.contains(t) || b.contains(t),
    decreases a.len() + b.len(),
{
    if a.len() > 0 && b.len() > 0 {
        T::before_is_an_order(&a.last(), &b.last(), &a.last());
        T::before_is_an_order(&b.last(), &a.last(), &b.last());
        assert forall|t: T| a.drop_last().contains(t) implies a.contains(t) by {
            assert(a[a.drop_last().index_of(t)] == t);
        }
        assert forall|t: T| b.drop_last().contains(t) implies b.contains(t) by {
            assert(b[b.drop_last().index_of(t)] == t);
        }
    }
    if b.len() == 0 || a.len() == 0 {
    } else if b.last().before(&a.last()) {
        let init = merged(a.drop_last(), b);
        lemma_merged_is_sorted(a.drop_last(), b);
        lemma_push_sorted(init, a.last(), a, b);
    } else {
        let init = merged(a, b.drop_last());
        lemma_merged_is_sorted(a, b.drop_last());
        lemma_push_sorted(init, b.last(), a, b);
    }
}

/// Adding to the members of two sorted sequences the later of their ends.
proof fn lemma_push_sorted<T: Ordered>(init: Seq<T>, last: T, a: Seq<T>, b: Seq<T>)
    requires
        is_sorted(init),
        is_sorted(a),
        is_sorted(b),
        a.len() > 0,
        b.len() > 0,
        forall|t: T| init.contains(t) ==> a.contains(t) || b.contains(t),
        last == a.last() || last == b.last(),
        !last.before(&a.last()),
        !last.before(&b.last()),
    ensures
        is_sorted(init.push(last)),
        forall|t: T| init.push(last).contains(t) ==> a.contains(t) || b.contains(t),
{
    let s = init.push(last);
    assert forall|i: int, j: int|
        #![trigger s[i], s[j]]
        0 <= i < j < s.len() implies !s[j].before(&s[i]) by {
        if j == init.len() {
            let t = init[i];
            assert(init.contains(t));
            if a.contains(t) {
                let k = a.index_of(t);
                if k < a.len() - 1 {
                    assert(!a[a.len() - 1].before(&a[k]));
                }
                T::before_is_an_order(&last, &t, &a.last());
                T::before_is_an_order(&t, &t, &t);
            } else {
                let k = b.index_of(t);
                if k < b.len() - 1 {
                    assert(!b[b.len() - 1].before(&b[k]));
                }
                T::before_is_an_order(&last, &t, &b.last());
                T::before_is_an_order(&t, &t, &t);
            }
        }
    }
    assert forall|t: T| s.contains(t) implies a.contains(t) || b.contains(t) by {
        let k = s.index_of(t);
        if k < init.len() {
            assert(init[k] == t);
        } else if last == a.last() {
            assert(a[a.len() - 1] == t);
        } else {
            assert(b[b.len() - 1] == t);
        }
    }
}

/// What comes out of sorting is in order.
pub proof fn sorted_is_sorted<T: Ordered>(s: Seq<T>)
    ensures
        is_sorted(sorted(s)),
    decreases s.len(),
{
    if s.len() > 0 {
        sorted_is_sorted(s.drop_last());
        lemma_merged_is_sorted(sorted(s.drop_last()), seq![s.last()]);
    }
}

/// The members of `s` that tie with `key`, in order.
pub open spec fn ties<T: Ordered>(s: Seq<T>, key: T) -> Seq<T> {
    s.filter(|t: T| !t.before(&key) && !key.before(&t))
}

proof fn lemma_merged_ties<T: Ordered>(a: Seq<T>, b: Seq<T>, key: T)
    requires
        is_sorted(a),
        is_sorted(b),
    ensures
        ties(merged(a, b), key) == ties(a, key) + ties(b, key),
    decreases a.len() + b.len(),
{
    broadcast use vstd::seq_lib::group_filter_ensures;

    let tied = |t: T| !t.before(&key) && !key.before(&t);
    if b.len() == 0 {
        assert(b =~= Seq::empty());
        assert(ties(b, key) =~= Seq::empty());
        assert(ties(a, key) + ties(b, key) =~= ties(a, key));
    } else if a.len() == 0 {
        assert(a =~= Seq::empty());
        assert(ties(a, key) =~= Seq::empty());
        assert(ties(a, key) + ties(b, key) =~= ties(b, key));
    } else if b.last().before(&a.last()) {
        let rest = merged(a.drop_last(), b);
        lemma_merged_ties(a.drop_last(), b, key);
        lemma_filter_push(rest, a.last(), tied);
        lemma_filter_push(a.drop_last(), a.last(), tied);
        assert(a =~= a.drop_last().push(a.last()));
        if tied(a.last()) {
            assert forall|k: int| 0 <= k < b.len() implies !tied(#[trigger] b[k]) by {
                let t = b[k];
                if k < b.len() - 1 {
                    assert(!b[b.len() - 1].before(&t));
                }
                T::before_is_an_order(&t, &t, &t);
                T::before_is_an_order(&b.last(), &a.last(), &t);
                T::before_is_an_order(&t, &a.last(), &key);
            }
            lemma_filter_none(b, tied);
        }
        assert(ties(merged(a, b), key) =~= ties(a, key) + ties(b, key));
    } else {
        let rest = merged(a, b.drop_last());
        lemma_merged_ties(a, b.drop_last(), key);
        lemma_filter_push(rest, b.last(), tied);
        lemma_filter_push(b.drop_last(), b.last(), tied);
        assert(b =~= b.drop_last().push(b.last()));
        assert(ties(merged(a, b), key) =~= ties(a, key) + ties(b, key));
    }
}

proof fn lemma_filter_push<T>(s: Seq<T>, t: T, keep: spec_fn(T) -> bool)
    ensures
        s.push(t).filter(keep) == if keep(t) {
            s.filter(keep).push(t)
        } else {
            s.filter(keep)
        },
{
    reveal(Seq::filter);
    assert(s.push(t).drop_last() =~= s);
}

proof fn lemma_filter_none<T>(s: Seq<T>, keep: spec_fn(T) -> bool)
    requires
        forall|k: int| 0 <= k < s.len() ==> !keep(#[trigger] s[k]),
    ensures
        s.filter(keep) == Seq::<T>::empty(),
    decreases s.len(),
{
    reveal(Seq::filter);
    if s.len() > 0 {
        lemma_filter_none(s.drop_last(), keep);
    }
}

/// Members that tie come out in the order in which they went in.
pub proof fn sorted_is_stable<T: Ordered>(s: Seq<T>, key: T)
    ensures
        ties(sorted(s), key) == ties(s, key),
    decreases s.len(),
{
    if s.len() > 0 {
        let init = s.drop_last();
        let tied = |t: T| !t.before(&key) && !key.before(&t);
        sorted_is_stable(init, key);
        sorted_is_sorted(init);
        lemma_merged_ties(sorted(init), seq![s.last()], key);
        assert(s =~= init.push(s.last()));
        lemma_filter_push(init, s.last(), tied);
        lemma_filter_push(Seq::<T>::empty(), s.last(), tied);
        lemma_filter_none(Seq::<T>::empty(), tied);
        assert(Seq::<T>::empty().push(s.last()) =~= seq![s.last()]);
        assert(ties(sorted(s), key) =~= ties(s, key));
    }
}

proof fn lemma_merged_map<T: Ordered, U: Ordered>(a: Seq<T>, b: Seq<T>, f: spec_fn(T) -> U)
    requires
        forall|x: T, y: T| #[trigger] f(x).before(&f(y)) == x.before(&y),
    ensures
        merged(a, b).map_values(f) == merged(a.map_values(f), b.map_values(f)),
    decreases a.len() + b.len(),
{
    let (c, d) = (a.map_values(f), b.map_values(f));
    if a.len() > 0 && b.len() > 0 {
        assert(c.last() == f(a.last()) && d.last() == f(b.last()));
        assert(f(b.last()).before(&f(a.last())) == b.last().before(&a.last()));
        if b.last().before(&a.last()) {
            lemma_merged_map(a.drop_last(), b, f);
            assert(c.drop_last() =~= a.drop_last().map_values(f));
        } else {
            lemma_merged_map(a, b.drop_last(), f);
            assert(d.drop_last() =~= b.drop_last().map_values(f));
        }
    }
    assert(merged(a, b).map_values(f) =~= merged(c, d));
}

/// Sorting commutes with a view that keeps the order.
pub proof fn lemma_sorted_map<T: Ordered, U: Ordered>(s: Seq<T>, f: spec_fn(T) -> U)
    requires
        forall|x: T, y: T| #[trigger] f(x).before(&f(y)) == x.before(&y),
    ensures
        sorted(s).map_values(f) == sorted(s.map_values(f)),
    decreases s.len(),
{
    if s.len() > 0 {
        let init = s.drop_last();
        lemma_sorted_map(init, f);
        lemma_merged_map(sorted(init), seq![s.last()], f);
        assert(s.map_values(f).drop_last() =~= init.map_values(f));
        assert(seq![s.last()].map_values(f) =~= seq![f(s.last())]);
    } else {
        assert(s.map_values(f) =~= Seq::empty());
        assert(sorted(s).map_values(f) =~= sorted(s.map_values(f)));
    }
}

/// The items of `v`, last first.
fn reversed<T>(v: Vec<T>) -> (r: Vec<T>)
    ensures
        r@ == v@.reverse(),
{
    let mut v = v;
    let ghost all = v@;
    let mut r: Vec<T> = Vec::new();
    while v.len() > 0
        invariant
            v@.len() <= all.len(),
            v@ == all.take(v@.len() as int),
            r@ == all.skip(v@.len() as int).reverse(),
        decreases v@.len(),
    {
        let ghost k = v@.len() as int;
        match v.pop() {
            Some(t) => {
                r.push(t);
            },
            None => {},
        }
        assert(v@ =~= all.take(k - 1));
        assert(r@ =~= all.skip(k - 1).reverse());
    }
    assert(all.skip(0) =~= all);
    r
}

/// Merges two lists from their ends.
fn merge<T: Ranked>(a: Vec<T>, b: Vec<T>) -> (out: Vec<T>)
    ensures
        out@ == merged(a@, b@),
{
    let mut a = a;
    let mut b = b;
    let ghost goal = merged(a@, b@);
    let mut back: Vec<T> = Vec::new();
    proof {
        lemma_merged_len(a@, b@);
        assert(merged(a@, b@) + back@.reverse() =~= goal);
    }
    while a.len() > 0 && b.len() > 0
        invariant
            merged(a@, b@) + back@.reverse() == goal,
        decreases a@.len() + b@.len(),
    {
        let ghost before = merged(a@, b@);
        let ghost tail = back@;
        proof {
            lemma_merged_len(a@, b@);
        }
        let from_a: bool = b[b.len() - 1].is_before(&a[a.len() - 1]);
        let next: Option<T> = if from_a {
            a.pop()
        } else {
            b.pop()
        };
        match next {
            Some(t) => {
                back.push(t);
                proof {
                    assert(before == merged(a@, b@).push(t));
                    assert(merged(a@, b@) + back@.reverse() =~= before + tail.reverse());
                }
            },
            None => {},
        }
    }
    let mut out: Vec<T> = if b.len() == 0 {
        a
    } else {
        b
    };
    let mut tail = reversed(back);
    out.append(&mut tail);
    out
}

/// Sorts `items`; those that tie keep their order.
pub fn stable_sort<T: Ranked>(items: Vec<T>) -> (out: Vec<T>)
    ensures
        out@ == sorted(items@),
    decreases items@.len(),
{
    if items.len() <= 1 {
        proof {
            reveal_with_fuel(sorted, 2);
            if items@.len() == 1 {
                assert(items@ =~= seq![items@.last()]);
            }
        }
        items
    } else {
        let ghost all = items@;
        let mut first = items;
        let half: usize = first.len() / 2;
        let second = first.split_off(half);
        proof {
            assert(all =~= first@ + second@);
            lemma_sorted_concat(first@, second@);
        }
        merge(stable_sort(first), stable_sort(second))
    }
}

impl Ordered for u64 {
    open spec fn before(&self, other: &Self) -> bool {
        *self < *other
    }

    proof fn before_is_an_order(a: &Self, b: &Self, c: &Self) {
    }
}

impl Ranked for u64 {
    fn is_before(&self, other: &Self) -> (yes: bool) {
        *self < *other
    }
}

/// `a` comes before `b` in byte order from position `i` on: at the first
/// difference it has the lesser byte, or it ends there.
pub open spec fn bytes_before_from(a: Seq<u8>, b: Seq<u8>, i: int) -> bool
    decreases b.len() - i,
{
    if i >= b.len() {
        false
    } else if i >= a.len() {
        true
    } else if a[i] != b[i] {
        a[i] < b[i]
    } else {
        bytes_before_from(a, b, i + 1)
    }
}

/// `a` comes before `b` in byte order.
pub open spec fn bytes_before(a: Seq<u8>, b: Seq<u8>) -> bool {
    bytes_before_from(a, b, 0)
}

pub proof fn lemma_bytes_before_is_an_order(a: Seq<u8>, b: Seq<u8>, c: Seq<u8>, i: int)
    requires
        0 <= i,
    ensures
        !bytes_before_from(a, a, i),
        bytes_before_from(a, b, i) ==> bytes_before_from(a, c, i) || bytes_before_from(c, b, i),
        bytes_before_from(a, b, i) && bytes_before_from(b, c, i) ==> bytes_before_from(a, c, i),
        i <= a.len() && i <= b.len() && a.take(i) == b.take(i) && !bytes_before_from(a, b, i)
            && !bytes_before_from(b, a, i) ==> a == b,
    decreases a.len() + b.len() + c.len() - i,
{
    if i < a.len() || i < b.len() || i < c.len() {
        lemma_bytes_before_is_an_order(a, b, c, i + 1);
        if i < a.len() && i < b.len() && a[i] == b[i] && a.take(i) == b.take(i) {
            assert(a.take(i + 1) =~= a.take(i).push(a[i]));
            assert(b.take(i + 1) =~= b.take(i).push(b[i]));
        }
        if i < b.len() && i < c.len() && b[i] == c[i] && i >= a.len() {
            lemma_bytes_before_is_an_order(b, c, a, i + 1);
        }
    } else {
        if i <= a.len() && i <= b.len() && a.take(i) == b.take(i) {
            assert(a.take(i) =~= a);
            assert(b.take(i) =~= b);
        }
    }
}

/// Two byte strings neither of which comes before the other are equal.
pub proof fn lemma_bytes_before_total(a: Seq<u8>, b: Seq<u8>)
    requires
        !bytes_before(a, b),
        !bytes_before(b, a),
    ensures
        a == b,
{
    assert(a.take(0) =~= b.take(0));
    lemma_bytes_before_is_an_order(a, b, a, 0);
}

/// Whether `a` comes before `b` in byte order.
pub fn is_bytes_before(a: &[u8], b: &[u8]) -> (yes: bool)
    ensures
        yes == bytes_before(a@, b@),
{
    let mut i: usize = 0;
    while i < a.len() && i < b.len()
        invariant
            i <= a@.len(),
            i <= b@.len(),
            bytes_before(a@, b@) == bytes_before_from(a@, b@, i as int),
        decreases a@.len() - i,
    {
        if a[i] != b[i] {
            return a[i] < b[i];
        }
        i += 1;
    }
    i < b.len()
}

impl Ordered for Seq<u8> {
    open spec fn before(&self, other: &Self) -> bool {
        bytes_before(*self, *other)
    }

    proof fn before_is_an_order(a: &Self, b: &Self, c: &Self) {
        lemma_bytes_before_is_an_order(*a, *b, *c, 0);
    }
}

impl Ordered for Vec<u8> {
    open spec fn before(&self, other: &Self) -> bool {
        bytes_before(self@, other@)
    }

    proof fn before_is_an_order(a: &Self, b: &Self, c: &Self) {
        lemma_bytes_before_is_an_order(a@, b@, c@, 0);
    }
}

impl Ranked for Vec<u8> {
    fn is_before(&self, other: &Self) -> (yes: bool) {
        is_bytes_before(self.as_slice(), other.as_slice())
    }
}

proof fn lemma_first_difference(a: Seq<u8>, b: Seq<u8>, i: int)
    requires
        0 <= i <= a.len(),
        i <= b.len(),
        a.take(i) == b.take(i),
    ensures
        bytes_before_from(a, b, i) <==> (a.len() < b.len() && b.take(a.len() as int) == a) || exists|
            k: int,
        |
            0 <= k < a.len() && k < b.len() && a.take(k) == b.take(k) && #[trigger] a[k]
                < #[trigger] b[k],
    decreases b.len() - i,
{
    assert forall|k: int| 0 <= k < i implies #[trigger] a[k] == b[k] by {
        assert(a.take(i)[k] == a[k]);
        assert(b.take(i)[k] == b[k]);
    }
    if i >= b.len() {
        assert forall|k: int| 0 <= k < a.len() && k < b.len() implies !(a[k] < b[k]) by {
            assert(a[k] == b[k]);
        }
    } else if i >= a.len() {
        assert(b.take(a.len() as int) =~= a);
    } else if a[i] != b[i] {
        if a.len() < b.len() && b.take(a.len() as int) == a {
            assert(b.take(a.len() as int)[i] == a[i]);
        }
        assert forall|k: int|
            0 <= k < a.len() && k < b.len() && a.take(k) == b.take(k) && a[k] < b[k] implies k
            == i by {
            if k > i {
                assert(a.take(k)[i] == b.take(k)[i]);
            }
        }
        if a[i] < b[i] {
            assert(a.take(i) == b.take(i) && a[i] < b[i]);
        }
    } else {
        assert(a.take(i + 1) =~= b.take(i + 1)) by {
            assert(a.take(i + 1) =~= a.take(i).push(a[i]));
            assert(b.take(i + 1) =~= b.take(i).push(b[i]));
        }
        lemma_first_difference(a, b, i + 1);
    }
}

/// One byte string comes before another exactly if it is a shorter start of it,
/// or has the lesser byte where they first differ.
pub proof fn bytes_are_ordered_at_their_first_difference(a: Seq<u8>, b: Seq<u8>)
    ensures
        bytes_before(a, b) <==> (a.len() < b.len() && b.take(a.len() as int) == a) || exists|
            k: int,
        |
            0 <= k < a.len() && k < b.len() && a.take(k) == b.take(k) && #[trigger] a[k]
                < #[trigger] b[k],
{
    assert(a.take(0) =~= b.take(0));
    lemma_first_difference(a, b, 0);
}

/// Sorted keys never fall, and are the same keys.
pub proof fn sorted_keys_never_fall(keys: Seq<u64>)
    ensures
        sorted(keys).to_multiset() == keys.to_multiset(),
        forall|i: int, j: int|
            0 <= i < j < keys.len() ==> #[trigger] sorted(keys)[i] <= #[trigger] sorted(keys)[j],
{
    sorted_keeps_the_items(keys);
    sorted_is_sorted(keys);
}

} // verus!
