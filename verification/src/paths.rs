//! When two paths are the same.
//!
//! Paths are compared by their components: repeated and trailing separators do
//! not count, nor does a `.` anywhere but at the very start, so `a//b`, `a/./b`
//! and `a/b/` are all the path `a/b`, while `./a` and `a` differ.

use crate::tables::push_bytes;
use vstd::prelude::*;
use vstd::slice::slice_subrange;

verus! {

/// `/`
pub const SEPARATOR: u8 = 47;

/// `.`
pub const DOT: u8 = 46;

/// Where the name that starts at `at` ends: at the next separator, or with the
/// path.
pub open spec fn name_end(path: Seq<u8>, at: int) -> int
    decreases path.len() - at,
{
    if at < path.len() && path[at] != SEPARATOR {
        name_end(path, at + 1)
    } else {
        at
    }
}

/// A name ends at a separator or with the path, and holds none.
pub proof fn lemma_name_end(path: Seq<u8>, at: int)
    requires
        0 <= at <= path.len(),
    ensures
        at <= name_end(path, at) <= path.len(),
        name_end(path, at) < path.len() ==> path[name_end(path, at)] == SEPARATOR,
        forall|i: int| at <= i < name_end(path, at) ==> path[i] != SEPARATOR,
    decreases path.len() - at,
{
    if at < path.len() && path[at] != SEPARATOR {
        lemma_name_end(path, at + 1);
    }
}

/// Whether what stands between two separators is a component: it is not empty,
/// and it is no `.` unless it starts the path.
pub open spec fn is_component(name: Seq<u8>, at: int) -> bool {
    name.len() > 0 && (name == seq![DOT] ==> at == 0)
}

/// The components from `at` on.
pub open spec fn components_from(path: Seq<u8>, at: int) -> Seq<Seq<u8>>
    decreases path.len() + 1 - at,
{
    if 0 <= at <= path.len() {
        proof {
            lemma_name_end(path, at);
        }
        let end = name_end(path, at);
        let name = path.subrange(at, end);
        let rest = components_from(path, end + 1);
        if is_component(name, at) {
            seq![name] + rest
        } else {
            rest
        }
    } else {
        Seq::empty()
    }
}

/// The components of a path, apart from its root.
pub open spec fn components(path: Seq<u8>) -> Seq<Seq<u8>> {
    components_from(path, 0)
}

/// Whether a path starts at the root.
pub open spec fn is_rooted(path: Seq<u8>) -> bool {
    path.len() > 0 && path[0] == SEPARATOR
}

/// The names with one separator between each two.
pub open spec fn joined(names: Seq<Seq<u8>>) -> Seq<u8>
    decreases names.len(),
{
    if names.len() == 0 {
        Seq::empty()
    } else if names.len() == 1 {
        names[0]
    } else {
        joined(names.drop_last()) + seq![SEPARATOR] + names.last()
    }
}

/// The plainest way to write a path.
pub open spec fn path_key(path: Seq<u8>) -> Seq<u8> {
    if is_rooted(path) {
        seq![SEPARATOR] + joined(components(path))
    } else {
        joined(components(path))
    }
}

/// Names that are not empty and hold no separator.
spec fn are_names(names: Seq<Seq<u8>>) -> bool {
    forall|i: int|
        0 <= i < names.len() ==> (#[trigger] names[i]).len() > 0 && !names[i].contains(SEPARATOR)
}

proof fn lemma_components_are_names(path: Seq<u8>, at: int)
    requires
        0 <= at,
    ensures
        are_names(components_from(path, at)),
    decreases path.len() + 1 - at,
{
    if at <= path.len() {
        lemma_name_end(path, at);
        lemma_components_are_names(path, name_end(path, at) + 1);
    }
}

/// What is joined of names is empty only if there are none, and starts with no
/// separator.
proof fn lemma_joined(names: Seq<Seq<u8>>)
    requires
        are_names(names),
    ensures
        names.len() == 0 <==> joined(names).len() == 0,
        names.len() > 0 ==> joined(names)[0] != SEPARATOR,
    decreases names.len(),
{
    if names.len() == 1 {
        assert(names[0].contains(names[0][0]));
    } else if names.len() > 1 {
        assert forall|i: int| 0 <= i < names.drop_last().len() implies (
        #[trigger] names.drop_last()[i]).len() > 0 && !names.drop_last()[i].contains(
            SEPARATOR,
        ) by {
            assert(names.drop_last()[i] == names[i]);
        }
        lemma_joined(names.drop_last());
    }
}

/// The last of the names that were joined cannot be longer in one list than in
/// another that gives the same.
proof fn lemma_last_name(a: Seq<Seq<u8>>, b: Seq<Seq<u8>>)
    requires
        are_names(a),
        are_names(b),
        a.len() > 0,
        b.len() > 0,
        joined(a) == joined(b),
    ensures
        b.last().len() <= a.last().len(),
{
    if a.last().len() < b.last().len() {
        let j = joined(a);
        let p = j.len() - 1 - a.last().len();
        assert(b.last() == b[b.len() - 1]);
        assert(j.subrange(j.len() - b.last().len(), j.len() as int) =~= b.last());
        assert(b.last().contains(b.last()[p - (j.len() - b.last().len())]));
        assert(j[p] != SEPARATOR);
        assert(a.len() > 1);
        assert(j[p] == SEPARATOR);
    }
}

/// What was joined tells the names.
proof fn lemma_joined_tells_names(a: Seq<Seq<u8>>, b: Seq<Seq<u8>>)
    requires
        are_names(a),
        are_names(b),
        joined(a) == joined(b),
    ensures
        a == b,
    decreases a.len(),
{
    lemma_joined(a);
    lemma_joined(b);
    if a.len() > 0 {
        let j = joined(a);
        lemma_last_name(a, b);
        lemma_last_name(b, a);
        let n = j.len() - a.last().len();
        assert(j.subrange(n, j.len() as int) =~= a.last());
        assert(j.subrange(n, j.len() as int) =~= b.last());
        if a.len() > 1 && b.len() > 1 {
            let (c, d) = (a.drop_last(), b.drop_last());
            assert forall|i: int| 0 <= i < c.len() implies (#[trigger] c[i]).len() > 0
                && !c[i].contains(SEPARATOR) by {
                assert(c[i] == a[i]);
            }
            assert forall|i: int| 0 <= i < d.len() implies (#[trigger] d[i]).len() > 0
                && !d[i].contains(SEPARATOR) by {
                assert(d[i] == b[i]);
            }
            assert(j.subrange(0, n - 1) =~= joined(c));
            assert(j.subrange(0, n - 1) =~= joined(d));
            lemma_joined_tells_names(c, d);
        }
        assert(a =~= a.drop_last().push(a.last()));
        assert(b =~= b.drop_last().push(b.last()));
        assert(a.drop_last() =~= b.drop_last());
    }
}

/// Two paths have one key exactly if they start at the same place and have the
/// same components.
pub proof fn keys_tell_paths_by_components(a: Seq<u8>, b: Seq<u8>)
    ensures
        path_key(a) == path_key(b) <==> is_rooted(a) == is_rooted(b) && components(a)
            == components(b),
{
    let (c, d) = (components(a), components(b));
    lemma_components_are_names(a, 0);
    lemma_components_are_names(b, 0);
    lemma_joined(c);
    lemma_joined(d);
    if path_key(a) == path_key(b) {
        if is_rooted(a) {
            assert(path_key(a)[0] == SEPARATOR);
        }
        if is_rooted(b) {
            assert(path_key(b)[0] == SEPARATOR);
        }
        assert(is_rooted(a) == is_rooted(b));
        if is_rooted(a) {
            assert(path_key(a).subrange(1, path_key(a).len() as int) =~= joined(c));
            assert(path_key(b).subrange(1, path_key(b).len() as int) =~= joined(d));
        }
        lemma_joined_tells_names(c, d);
    }
}

/// Where the name that starts at `at` ends.
fn find_name_end(path: &[u8], at: usize) -> (end: usize)
    requires
        at <= path@.len(),
    ensures
        end == name_end(path@, at as int),
        at <= end <= path@.len(),
{
    let mut end: usize = at;
    while end < path.len() && path[end] != SEPARATOR
        invariant
            at <= end <= path@.len(),
            name_end(path@, at as int) == name_end(path@, end as int),
        decreases path@.len() - end,
    {
        end += 1;
    }
    end
}

/// The plainest way to write a path.
pub fn key_of_path(path: &[u8]) -> (key: Vec<u8>)
    ensures
        key@ == path_key(path@),
{
    let mut key: Vec<u8> = Vec::new();
    if path.len() > 0 && path[0] == SEPARATOR {
        key.push(SEPARATOR);
    }
    let ghost root = key@;
    let ghost mut done: Seq<Seq<u8>> = Seq::empty();
    let mut first: bool = true;
    let mut at: usize = 0;
    let mut more: bool = true;
    assert(root =~= if is_rooted(path@) {
        seq![SEPARATOR]
    } else {
        Seq::empty()
    });
    assert(key@ =~= root + joined(done));
    assert(done + components(path@) =~= components(path@));
    while more
        invariant
            more ==> at <= path@.len(),
            first == (done.len() == 0),
            key@ == root + joined(done),
            components(path@) == done + if more {
                components_from(path@, at as int)
            } else {
                Seq::empty()
            },
        decreases
            if more {
                path@.len() - at + 1
            } else {
                0
            },
    {
        let end: usize = find_name_end(path, at);
        let name = slice_subrange(path, at, end);
        let dot = name.len() == 1 && name[0] == DOT;
        assert(dot == (name@ == seq![DOT])) by {
            if dot {
                assert(name@ =~= seq![DOT]);
            }
        }
        let ghost rest = components_from(path@, end + 1);
        if name.len() > 0 && (!dot || at == 0) {
            if !first {
                key.push(SEPARATOR);
            }
            push_bytes(&mut key, name);
            first = false;
            proof {
                let now = done.push(name@);
                assert(now.drop_last() =~= done);
                assert(key@ =~= root + joined(now));
                assert(done + (seq![name@] + rest) =~= now + rest);
                done = now;
            }
        }
        if end < path.len() {
            at = end + 1;
        } else {
            more = false;
        }
    }
    assert(done =~= components(path@));
    assert(key@ =~= path_key(path@));
    key
}

proof fn lemma_names_appended(path: Seq<u8>, name: Seq<u8>, at: int)
    requires
        0 <= at <= path.len(),
        !name.contains(SEPARATOR),
    ensures
        components_from(path + seq![SEPARATOR] + name, at) == components_from(path, at)
            + if name.len() > 0 && name != seq![DOT] {
            seq![name]
        } else {
            Seq::empty()
        },
    decreases path.len() - at,
{
    let longer = path + seq![SEPARATOR] + name;
    let (x, y) = (name_end(path, at), name_end(longer, at));
    lemma_name_end(path, at);
    lemma_name_end(longer, at);
    assert(x == y) by {
        if x < y {
            assert(longer[x] != SEPARATOR);
        }
        if y < x {
            assert(path[y] != SEPARATOR);
        }
    }
    assert(longer.subrange(at, x) =~= path.subrange(at, x));
    if x < path.len() {
        lemma_names_appended(path, name, x + 1);
    } else {
        assert(components_from(path, x + 1) =~= Seq::empty());
        let z = name_end(longer, x + 1);
        lemma_name_end(longer, x + 1);
        assert(z == longer.len()) by {
            if z < longer.len() {
                assert(name[z - x - 1] == SEPARATOR);
            }
        }
        assert(longer.subrange(x + 1, z) =~= name);
        assert(components_from(longer, z + 1) =~= Seq::empty());
        if name.len() > 0 && name != seq![DOT] {
            assert(components_from(longer, x + 1) =~= seq![name]);
        } else {
            assert(components_from(longer, x + 1) =~= Seq::empty());
        }
    }
    assert(components_from(longer, at) =~= components_from(path, at) + if name.len() > 0 && name
        != seq![DOT] {
        seq![name]
    } else {
        Seq::empty()
    });
}

/// The components of a path are its names in order. Adding a separator and a
/// name to any path adds the name, unless it is empty or a dot: that adds
/// nothing. A path without separators is its own component if it is not empty.
pub proof fn a_path_has_the_components_it_names(path: Seq<u8>, name: Seq<u8>)
    requires
        !name.contains(47),
    ensures
        components(path + seq![47u8] + name) == components(path) + if name.len() > 0 && name
            != seq![46u8] {
            seq![name]
        } else {
            Seq::empty()
        },
        name.len() > 0 ==> components(name) == seq![name],
        components(Seq::empty()).len() == 0,
        is_rooted(seq![47u8] + path),
        !is_rooted(name),
        path.len() > 0 ==> is_rooted(path + seq![47u8] + name) == is_rooted(path),
{
    lemma_names_appended(path, name, 0);
    lemma_name_end(name, 0);
    let end = name_end(name, 0);
    assert(end == name.len()) by {
        if end < name.len() {
            assert(name.contains(name[end]));
        }
    }
    assert(name.subrange(0, end) =~= name);
    assert(components_from(name, end + 1) =~= Seq::empty());
    if name.len() > 0 {
        assert(components(name) =~= seq![name]);
        assert(name.contains(name[0]));
    }
    let none = Seq::<u8>::empty();
    assert(name_end(none, 0) == 0);
    assert(components_from(none, 1) =~= Seq::empty());
}

} // verus!
