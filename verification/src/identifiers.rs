//! The identifier table: a bijection between dense indices `0..counter` and
//! the names they stand for, held in a `bimap::BiHashMap`.

use bimap::BiHashMap;
use vstd::prelude::*;

use crate::text::chars_of;

verus! {

/// `bimap::BiHashMap`, whose contents Verus sees only through `bimap_pairs`.
#[verifier::external_type_specification]
#[verifier::external_body]
#[verifier::reject_recursive_types(L)]
#[verifier::reject_recursive_types(R)]
#[verifier::reject_recursive_types(LS)]
#[verifier::reject_recursive_types(RS)]
pub struct ExBiHashMap<L, R, LS, RS>(BiHashMap<L, R, LS, RS>);

/// The left-to-right pairs that a bimap of indices and names holds, each name
/// taken by its characters.
pub uninterp spec fn bimap_pairs(m: BiHashMap<usize, String>) -> Map<usize, Seq<char>>;

/// `Clone` of `BiHashMap`: inserts a clone of each pair into a new bimap, so
/// the copy holds the same pairs.
#[verifier::external_body]
fn bimap_clone(m: &BiHashMap<usize, String>) -> (copy: BiHashMap<usize, String>)
    ensures
        bimap_pairs(copy) == bimap_pairs(*m),
{
    m.clone()
}

/// `BiHashMap::new`: a bimap that holds no pair.
#[verifier::external_body]
fn bimap_new() -> (fresh: BiHashMap<usize, String>)
    ensures
        bimap_pairs(fresh) =~= Map::empty(),
{
    BiHashMap::new()
}

/// `BiHashMap::insert`: drops the pair that holds `left` and the pair that
/// holds `right`, if any, then adds the pair `(left, right)`. What it returns
/// about the dropped pairs is not passed on.
#[verifier::external_body]
fn bimap_insert(m: &mut BiHashMap<usize, String>, left: usize, right: String)
    ensures
        bimap_pairs(*final(m)) == Map::new(
            |k: usize|
                k == left || (bimap_pairs(*old(m)).dom().contains(k) && bimap_pairs(*old(m))[k]
                    != right@),
            |k: usize|
                if k == left {
                    right@
                } else {
                    bimap_pairs(*old(m))[k]
                },
        ),
{
    m.insert(left, right);
}

/// `BiHashMap::get_by_left`: the name paired with `left`, if any.
#[verifier::external_body]
fn bimap_get_by_left(m: &BiHashMap<usize, String>, left: usize) -> (found: Option<&String>)
    ensures
        match found {
            Some(s) => bimap_pairs(*m).dom().contains(left) && s@ == bimap_pairs(*m)[left],
            None => !bimap_pairs(*m).dom().contains(left),
        },
{
    m.get_by_left(&left)
}

/// `BiHashMap::get_by_right`: an index paired with the name `right`, if any.
#[verifier::external_body]
fn bimap_get_by_right<'a>(m: &'a BiHashMap<usize, String>, right: &str) -> (found: Option<
    &'a usize,
>)
    ensures
        match found {
            Some(l) => bimap_pairs(*m).dom().contains(*l) && bimap_pairs(*m)[*l] == right@,
            None => forall|l: usize|
                bimap_pairs(*m).dom().contains(l) ==> bimap_pairs(*m)[l] != right@,
        },
{
    m.get_by_right(right)
}

/// The table after looking up `n`: an index of a name already present is its
/// position; a new name is appended and gets the next index.
pub open spec fn intern(names: Seq<Seq<char>>, n: Seq<char>) -> (Seq<Seq<char>>, usize) {
    if names.contains(n) {
        (names, names.index_of(n) as usize)
    } else {
        (names.push(n), names.len() as usize)
    }
}

/// No name occurs twice.
pub open spec fn distinct_names(names: Seq<Seq<char>>) -> bool {
    forall|i: int, j: int| 0 <= i < names.len() && 0 <= j < names.len() && i != j ==> names[i] != names[j]
}

pub proof fn lemma_intern(names: Seq<Seq<char>>, n: Seq<char>)
    requires
        distinct_names(names),
        names.len() < usize::MAX,
    ensures
        distinct_names(intern(names, n).0),
        intern(names, n).0.len() <= names.len() + 1,
        names.is_prefix_of(intern(names, n).0),
        (intern(names, n).1 as int) < intern(names, n).0.len(),
        intern(names, n).0[intern(names, n).1 as int] == n,
{
    if names.contains(n) {
        let i = names.index_of(n);
        assert(0 <= i < names.len() && names[i] == n);
        assert(names.is_prefix_of(names)) by {
            assert(names.take(names.len() as int) =~= names);
        }
    } else {
        let s = names.push(n);
        assert(names.is_prefix_of(s)) by {
            assert(s.take(names.len() as int) =~= names);
        }
        assert forall|i: int, j: int| 0 <= i < s.len() && 0 <= j < s.len() && i != j implies s[i]
            != s[j] by {
            if i < names.len() && j < names.len() {
            } else if i == names.len() {
                assert(!names.contains(n));
                assert(s[j] == names[j]);
            } else {
                assert(s[i] == names[i]);
            }
        }
    }
}

/// The table after looking up each of `ns` in turn.
pub open spec fn intern_all(names: Seq<Seq<char>>, ns: Seq<Seq<char>>) -> Seq<Seq<char>>
    decreases ns.len(),
{
    if ns.len() == 0 {
        names
    } else {
        intern(intern_all(names, ns.drop_last()), ns.last()).0
    }
}

/// The index of each name: its position in the table.
pub open spec fn index_in(names: Seq<Seq<char>>) -> spec_fn(Seq<char>) -> usize {
    |n: Seq<char>| names.index_of(n) as usize
}

/// Looking up names keeps the table distinct, only appends to it, appends
/// at most one entry per name, and leaves every name looked up in it.
pub proof fn lemma_intern_all(names: Seq<Seq<char>>, ns: Seq<Seq<char>>)
    requires
        distinct_names(names),
        names.len() + ns.len() < usize::MAX,
    ensures
        distinct_names(intern_all(names, ns)),
        names.is_prefix_of(intern_all(names, ns)),
        intern_all(names, ns).len() <= names.len() + ns.len(),
        forall|k: int| 0 <= k < ns.len() ==> intern_all(names, ns).contains(#[trigger] ns[k]),
    decreases ns.len(),
{
    if ns.len() > 0 {
        let prev = intern_all(names, ns.drop_last());
        lemma_intern_all(names, ns.drop_last());
        lemma_intern(prev, ns.last());
        let next = intern_all(names, ns);
        assert(prev.is_prefix_of(next));
        assert(names.is_prefix_of(next)) by {
            assert forall|i: int| 0 <= i < names.len() implies next[i] == names[i] by {
                assert(prev[i] == names[i]);
            }
        }
        assert forall|k: int| 0 <= k < ns.len() implies next.contains(#[trigger] ns[k]) by {
            if k < ns.len() - 1 {
                assert(ns.drop_last()[k] == ns[k]);
                assert(prev.contains(ns[k]));
                let i = choose|i: int| 0 <= i < prev.len() && prev[i] == ns[k];
                assert(next[i] == ns[k]);
            } else {
                let i = intern(prev, ns.last()).1 as int;
                assert(next[i] == ns[k]);
            }
        }
    }
}

/// In a distinct table that extends `a`, a name of `a` keeps its index.
pub proof fn lemma_index_of_prefix(a: Seq<Seq<char>>, b: Seq<Seq<char>>, n: Seq<char>)
    requires
        distinct_names(b),
        a.is_prefix_of(b),
        a.contains(n),
    ensures
        b.contains(n),
        b.index_of(n) == a.index_of(n),
        0 <= a.index_of(n) < a.len(),
        a[a.index_of(n)] == n,
{
    let i = a.index_of(n);
    assert(0 <= i < a.len() && a[i] == n);
    assert(b[i] == n);
    assert(b.contains(n));
    let j = b.index_of(n);
    assert(0 <= j < b.len() && b[j] == n);
}

/// The names of a program, indexed densely from 0.
#[derive(PartialEq, Eq, Debug)]
pub(crate) struct IdentifierTable {
    pub(crate) counter: usize,
    pub(crate) mapping: BiHashMap<usize, String>,
}

impl IdentifierTable {
    /// A copy of the table with the same pairs.
    pub(crate) fn duplicate(&self) -> (r: Self)
        ensures
            r.counter == self.counter,
            bimap_pairs(r.mapping) == bimap_pairs(self.mapping),
    {
        IdentifierTable { counter: self.counter, mapping: bimap_clone(&self.mapping) }
    }

    /// Name of index `i` is entry `i`.
    pub(crate) open spec fn view(&self) -> Seq<Seq<char>> {
        Seq::new(self.counter as nat, |i: int| bimap_pairs(self.mapping)[i as usize])
    }

    /// The bimap pairs exactly the indices below `counter` with distinct names.
    pub(crate) open spec fn wf(&self) -> bool {
        &&& bimap_pairs(self.mapping).dom() =~= Set::new(|i: usize| i < self.counter)
        &&& distinct_names(self@)
    }

    pub(crate) fn new() -> (t: Self)
        ensures
            t.wf(),
            t@ =~= Seq::<Seq<char>>::empty(),
    {
        IdentifierTable { counter: 0, mapping: bimap_new() }
    }

    /// The index of `name`, adding it as a new entry when it is not present.
    pub(crate) fn ident_by_name(&mut self, name: &str) -> (id: usize)
        requires
            old(self).wf(),
            old(self).counter < usize::MAX,
        ensures
            final(self).wf(),
            (final(self)@, id) == intern(old(self)@, name@),
            final(self).counter <= old(self).counter + 1,
    {
        let ghost names = self@;
        match bimap_get_by_right(&self.mapping, name) {
            Some(res) => {
                let r = *res;
                proof {
                    assert(names[r as int] == name@);
                    assert(names.contains(name@));
                    let i = names.index_of(name@);
                    assert(0 <= i < names.len() && names[i] == name@);
                    assert(i == r as int);
                }
                r
            },
            None => {
                let idx = self.counter;
                proof {
                    assert forall|i: int| 0 <= i < names.len() implies names[i] != name@ by {
                        assert(bimap_pairs(self.mapping).dom().contains(i as usize));
                    }
                }
                self.counter = self.counter + 1;
                bimap_insert(&mut self.mapping, idx, name.to_owned());
                proof {
                    assert(!names.contains(name@));
                    assert(self@ =~= names.push(name@));
                    lemma_intern(names, name@);
                }
                idx
            },
        }
    }

    /// The name of index `idx`.
    pub(crate) fn get(&self, idx: usize) -> (name: &str)
        requires
            self.wf(),
            idx < self.counter,
        ensures
            name@ == self@[idx as int],
    {
        assert(bimap_pairs(self.mapping).dom().contains(idx));
        bimap_get_by_left(&self.mapping, idx).unwrap().as_str()
    }

    /// The index of `name`, if it has one.
    pub(crate) fn get_by_name_opt(&self, name: &str) -> (id: Option<usize>)
        requires
            self.wf(),
        ensures
            match id {
                Some(i) => self@.contains(name@) && i as int == self@.index_of(name@),
                None => !self@.contains(name@),
            },
            id matches Some(i) ==> i < self.counter && self@[i as int] == name@,
    {
        match bimap_get_by_right(&self.mapping, name) {
            Some(res) => {
                let r = *res;
                proof {
                    let names = self@;
                    assert(names[r as int] == name@);
                    assert(names.contains(name@));
                    let i = names.index_of(name@);
                    assert(0 <= i < names.len() && names[i] == name@);
                    assert(i == r as int);
                }
                Some(r)
            },
            None => {
                proof {
                    assert forall|i: int| 0 <= i < self@.len() implies self@[i] != name@ by {
                        assert(bimap_pairs(self.mapping).dom().contains(i as usize));
                    }
                }
                None
            },
        }
    }

    /// The index of `name`, which must have one.
    pub(crate) fn get_by_name(&self, name: &str) -> (id: usize)
        requires
            self.wf(),
            self@.contains(name@),
        ensures
            id < self.counter,
            self@[id as int] == name@,
            id as int == self@.index_of(name@),
    {
        self.get_by_name_opt(name).unwrap()
    }

    /// Whether the name of index `idx` starts with `c`.
    pub(crate) fn name_starts_with(&self, idx: usize, c: char) -> (b: bool)
        requires
            self.wf(),
            idx < self.counter,
        ensures
            b == (self@[idx as int].len() > 0 && self@[idx as int][0] == c),
    {
        let chars = chars_of(self.get(idx));
        chars.len() > 0 && chars[0] == c
    }
}

} // verus!
