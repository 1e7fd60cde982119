//! A table of distinct byte strings, numbered in the order of their arrival.

use crate::ngram::{byte_strings, gram_key, ngram_hash};
use std::collections::HashMap;
use vstd::prelude::*;
use vstd::slice::slice_to_vec;

verus! {

/// The members of `list`, each at its first occurrence only.
pub open spec fn distinct<A>(list: Seq<A>) -> Seq<A>
    decreases list.len(),
{
    if list.len() == 0 {
        Seq::empty()
    } else {
        let rest = distinct(list.drop_last());
        if rest.contains(list.last()) {
            rest
        } else {
            rest.push(list.last())
        }
    }
}

/// `distinct` keeps what `list` holds, and holds nothing twice.
pub proof fn distinct_keeps_each_once<A>(list: Seq<A>)
    ensures
        distinct(list).no_duplicates(),
        forall|a: A| distinct(list).contains(a) <==> #[trigger] list.contains(a),
    decreases list.len(),
{
    if list.len() > 0 {
        let init = list.drop_last();
        let rest = distinct(init);
        distinct_keeps_each_once(init);
        assert forall|a: A| distinct(list).contains(a) <==> #[trigger] list.contains(a) by {
            assert(init.contains(a) <==> rest.contains(a));
            if list.contains(a) {
                let k = list.index_of(a);
                if k < init.len() {
                    assert(init[k] == a);
                }
            }
            if init.contains(a) {
                let k = init.index_of(a);
                assert(list[k] == a);
            }
            if distinct(list).contains(a) && !rest.contains(a) {
                assert(list[list.len() - 1] == a);
            }
            if rest.contains(a) {
                let k = rest.index_of(a);
                assert(distinct(list)[k] == a);
            }
            if a == list.last() && !rest.contains(a) {
                assert(distinct(list)[rest.len() as int] == a);
            }
        }
    }
}

/// Whether two byte strings are equal.
pub fn bytes_equal(a: &[u8], b: &[u8]) -> (equal: bool)
    ensures
        equal == (a@ == b@),
{
    if a.len() != b.len() {
        return false;
    }
    let mut i: usize = 0;
    while i < a.len()
        invariant
            i <= a@.len(),
            a@.len() == b@.len(),
            forall|j: int| 0 <= j < i ==> a@[j] == b@[j],
        decreases a@.len() - i,
    {
        if a[i] != b[i] {
            return false;
        }
        i += 1;
    }
    assert(a@ =~= b@);
    true
}

/// Distinct byte strings with a hash index over them.
pub struct KeyTable {
    keys: Vec<Vec<u8>>,
    buckets: HashMap<u64, Vec<usize>>,
}

impl View for KeyTable {
    type V = Seq<Seq<u8>>;

    closed spec fn view(&self) -> Seq<Seq<u8>> {
        byte_strings(self.keys@)
    }
}

impl KeyTable {
    /// The strings are distinct, and the bucket of each one's hash holds its
    /// number.
    pub closed spec fn well_formed(&self) -> bool {
        &&& self@.no_duplicates()
        &&& forall|h: u64, b: int|
            #![trigger self.buckets@[h]@[b]]
            self.buckets@.contains_key(h) && 0 <= b < self.buckets@[h]@.len()
                ==> self.buckets@[h]@[b] < self.keys@.len()
        &&& forall|i: int|
            0 <= i < self.keys@.len() ==> self.buckets@.contains_key(
                gram_key(#[trigger] self.keys@[i]@),
            ) && self.buckets@[gram_key(self.keys@[i]@)]@.contains(i as usize)
    }

    /// A table without strings.
    pub fn new() -> (table: Self)
        ensures
            table.well_formed(),
            table@ == Seq::<Seq<u8>>::empty(),
    {
        broadcast use vstd::std_specs::hash::group_hash_axioms;

        let table = KeyTable { keys: Vec::new(), buckets: HashMap::new() };
        assert(table@ =~= Seq::<Seq<u8>>::empty());
        table
    }

    /// The number of `key`, if the table holds it.
    pub fn find(&self, key: &[u8]) -> (found: Option<usize>)
        requires
            self.well_formed(),
        ensures
            match found {
                Some(i) => i < self@.len() && self@[i as int] == key@,
                None => !self@.contains(key@),
            },
    {
        broadcast use vstd::std_specs::hash::group_hash_axioms;

        let h: u64 = ngram_hash(key);
        match self.buckets.get(&h) {
            None => {
                assert(!self@.contains(key@)) by {
                    if self@.contains(key@) {
                        let i = self@.index_of(key@);
                        assert(self.keys@[i]@ == key@);
                    }
                }
                None
            },
            Some(bucket) => {
                let count: usize = self.keys.len();
                let mut b: usize = 0;
                while b < bucket.len()
                    invariant
                        self.well_formed(),
                        self.buckets@.contains_key(h),
                        *bucket == self.buckets@[h],
                        b <= bucket@.len(),
                        forall|c: int|
                            0 <= c < b ==> self.keys@[(#[trigger] bucket@[c]) as int]@ != key@,
                    decreases bucket@.len() - b,
                {
                    let i: usize = bucket[b];
                    assert(self.buckets@[h]@[b as int] < self.keys@.len());
                    if bytes_equal(self.keys[i].as_slice(), key) {
                        return Some(i);
                    }
                    b += 1;
                }
                assert(!self@.contains(key@)) by {
                    if self@.contains(key@) {
                        let i = self@.index_of(key@);
                        assert(i < count);
                        assert(self.keys@[i]@ == key@);
                        assert(bucket@.contains(i as usize));
                        let c = bucket@.index_of(i as usize);
                        assert(self.keys@[bucket@[c] as int]@ != key@);
                    }
                }
                None
            },
        }
    }

    /// Adds `key` unless it is there, and gives its number.
    pub fn insert(&mut self, key: &[u8]) -> (number: usize)
        requires
            old(self).well_formed(),
        ensures
            final(self).well_formed(),
            final(self)@ == if old(self)@.contains(key@) {
                old(self)@
            } else {
                old(self)@.push(key@)
            },
            number < final(self)@.len(),
            final(self)@[number as int] == key@,
    {
        broadcast use vstd::std_specs::hash::group_hash_axioms;

        match self.find(key) {
            Some(i) => i,
            None => {
                let ghost before = *self;
                let number: usize = self.keys.len();
                let h: u64 = ngram_hash(key);
                let mut bucket: Vec<usize> = match self.buckets.remove(&h) {
                    Some(b) => b,
                    None => Vec::new(),
                };
                let ghost old_bucket = bucket@;
                bucket.push(number);
                let ghost new_bucket = bucket@;
                self.buckets.insert(h, bucket);
                self.keys.push(slice_to_vec(key));
                proof {
                    assert(self@ =~= before@.push(key@));
                    assert(new_bucket[old_bucket.len() as int] == number);
                    assert forall|i: int| 0 <= i < self.keys@.len() implies {
                        let k = gram_key(#[trigger] self.keys@[i]@);
                        self.buckets@.contains_key(k) && self.buckets@[k]@.contains(i as usize)
                    } by {
                        let k = gram_key(self.keys@[i]@);
                        if i < number {
                            assert(self.keys@[i] == before.keys@[i]);
                            assert(before.buckets@[k]@.contains(i as usize));
                            if k == h {
                                let c = old_bucket.index_of(i as usize);
                                assert(new_bucket[c] == i as usize);
                            }
                        } else {
                            assert(new_bucket[old_bucket.len() as int] == number);
                        }
                    }
                    assert forall|g: u64, b: int|
                        #![trigger self.buckets@[g]@[b]]
                        self.buckets@.contains_key(g) && 0 <= b < self.buckets@[g]@.len()
                        implies self.buckets@[g]@[b] < self.keys@.len() by {
                        if g == h {
                            if b < old_bucket.len() {
                                assert(new_bucket[b] == old_bucket[b]);
                                assert(before.buckets@[h]@[b] < before.keys@.len());
                            }
                        } else {
                            assert(before.buckets@[g]@[b] < before.keys@.len());
                        }
                    }
                }
                number
            },
        }
    }

    /// The strings themselves.
    pub fn into_keys(self) -> (keys: Vec<Vec<u8>>)
        ensures
            byte_strings(keys@) == self@,
    {
        self.keys
    }
}

/// Each member comes out where it first occurs: one more member is added unless
/// it is there already.
pub proof fn one_more_member_is_added_if_new<A>(list: Seq<A>, a: A)
    ensures
        distinct(Seq::<A>::empty()).len() == 0,
        distinct(list.push(a)) == if list.contains(a) {
            distinct(list)
        } else {
            distinct(list).push(a)
        },
{
    assert(list.push(a).drop_last() =~= list);
    distinct_keeps_each_once(list);
    assert(list.contains(a) == distinct(list).contains(a));
}

} // verus!
