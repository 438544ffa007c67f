use crate::lookup::Lookup;
use crate::named::{
    names_distinct, seq_has_name, seq_index_of_name, spec_upsert, spec_upsert_all, Named,
};
use vstd::pervasive::unreached;
use vstd::prelude::*;

verus! {

/// A vector whose elements each carry a unique name.
///
/// Elements implement the [`Named`] trait so that they can be reached by name
/// as well as by position. Each element's name must be unique; [`push`]
/// replaces an existing element rather than adding a new one when the new
/// element's name is already in use.
///
/// Internally the collection keeps an ordered sequence of elements beside an
/// index of name-to-position entries; every mutating operation maintains the
/// standing invariant that the index holds exactly one entry per element,
/// pointing at its current position.
///
/// [`push`]: NamedVec::push
#[derive(Debug)]
pub struct NamedVec<T: Named> {
    map: Vec<(String, usize)>,
    items: Vec<T>,
}

impl<T: Named> View for NamedVec<T> {
    type V = Seq<T>;

    closed spec fn view(&self) -> Seq<T> {
        self.items@
    }
}

/// Relies on `Vec::capacity`: the number of elements the vector can hold
/// without reallocating, which is never below its length.
#[verifier::external_body]
fn vec_capacity<T>(v: &Vec<T>) -> (r: usize)
    ensures
        r >= v@.len(),
{
    v.capacity()
}

/// Relies on `Vec::shrink_to_fit`: it changes only the allocation headroom,
/// never the contents.
#[verifier::external_body]
fn vec_shrink_to_fit<T>(v: &mut Vec<T>)
    ensures
        final(v)@ == old(v)@,
{
    v.shrink_to_fit();
}

/// Swaps the element at position `i` with the last element of `v`.
fn swap_with_last<T>(v: &mut Vec<T>, i: usize)
    requires
        i < old(v)@.len(),
    ensures
        final(v)@ == old(v)@.update(i as int, old(v)@.last()).update(
            old(v)@.len() - 1,
            old(v)@[i as int],
        ),
{
    let e = v.swap_remove(i);
    v.push(e);
    proof {
        assert(v@ =~= old(v)@.update(i as int, old(v)@.last()).update(
            old(v)@.len() - 1,
            old(v)@[i as int],
        ));
    }
}

impl<T: Named> NamedVec<T> {
    /// The name-index entry at position `j` points inside the sequence, at an
    /// element whose name is the entry's key.
    spec fn entry_consistent(&self, j: int) -> bool {
        &&& (self.map@[j].1 as int) < self.items@.len()
        &&& self.items@[self.map@[j].1 as int].spec_name() == self.map@[j].0@
    }

    /// Some name-index entry points at position `i` of the sequence.
    spec fn position_indexed(&self, i: int) -> bool {
        exists|j: int| 0 <= j < self.map@.len() && (#[trigger] self.map@[j]).1 == i
    }

    /// No two name-index entries share a key.
    spec fn keys_distinct(&self) -> bool {
        forall|j1: int, j2: int|
            0 <= j1 < j2 < self.map@.len() ==> (#[trigger] self.map@[j1]).0@ != (
            #[trigger] self.map@[j2]).0@
    }

    /// The standing invariant: the name index and the element sequence agree.
    /// Every entry points at an element bearing the entry's key, every
    /// position is pointed at, and no key occurs twice. Every constructor
    /// establishes this and every operation preserves it.
    pub closed spec fn wf(&self) -> bool {
        &&& forall|j: int| 0 <= j < self.map@.len() ==> self.entry_consistent(j)
        &&& forall|i: int| 0 <= i < self.items@.len() ==> self.position_indexed(i)
        &&& self.keys_distinct()
    }

    /// The position a lookup key resolves to: the indexed position for a name
    /// that is present, the position itself when it is in bounds, and nothing
    /// otherwise.
    pub open spec fn spec_resolve<'a>(&self, lookup: Lookup<'a>) -> Option<int> {
        match lookup {
            Lookup::Name(s) => if seq_has_name(self@, s@) {
                Some(seq_index_of_name(self@, s@))
            } else {
                None
            },
            Lookup::Index(i) => if i < self@.len() {
                Some(i as int)
            } else {
                None
            },
        }
    }

    /// Creates an empty `NamedVec<T>`.
    pub fn new() -> (r: Self)
        ensures
            r@ == Seq::<T>::empty(),
            r.wf(),
    {
        NamedVec { map: Vec::new(), items: Vec::new() }
    }

    /// Creates an empty `NamedVec<T>` whose sequence and name index are both
    /// pre-sized to hold `capacity` elements without reallocating.
    pub fn with_capacity(capacity: usize) -> (r: Self)
        ensures
            r@ == Seq::<T>::empty(),
            r.wf(),
    {
        NamedVec { map: Vec::with_capacity(capacity), items: Vec::with_capacity(capacity) }
    }

    /// Two positions that hold elements of the same name are the same
    /// position: under the invariant, names are unique across the sequence.
    pub proof fn lemma_wf_unique(&self, i1: int, i2: int)
        requires
            self.wf(),
            0 <= i1 < self@.len(),
            0 <= i2 < self@.len(),
            self@[i1].spec_name() == self@[i2].spec_name(),
        ensures
            i1 == i2,
    {
        assert(self.position_indexed(i1));
        assert(self.position_indexed(i2));
        let j1 = choose|j: int| 0 <= j < self.map@.len() && (#[trigger] self.map@[j]).1 == i1;
        let j2 = choose|j: int| 0 <= j < self.map@.len() && (#[trigger] self.map@[j]).1 == i2;
        assert(self.entry_consistent(j1));
        assert(self.entry_consistent(j2));
        if j1 != j2 {
            assert(self.map@[j1].0@ != self.map@[j2].0@);
            assert(false);
        }
    }

    /// Under the invariant, no two elements of the sequence share a name.
    pub proof fn lemma_wf_names_distinct(&self)
        requires
            self.wf(),
        ensures
            names_distinct(self@),
    {
        assert forall|i1: int, i2: int| 0 <= i1 < i2 < self@.len() implies self@[i1].spec_name()
            != self@[i2].spec_name() by {
            if self@[i1].spec_name() == self@[i2].spec_name() {
                self.lemma_wf_unique(i1, i2);
            }
        }
    }

    /// Finds the position in the name index of the entry keyed `name`, if any.
    fn find_entry(&self, name: &String) -> (r: Option<usize>)
        ensures
            match r {
                Some(j) => j < self.map@.len() && self.map@[j as int].0@ == name@,
                None => forall|k: int| 0 <= k < self.map@.len() ==> self.map@[k].0@ != name@,
            },
    {
        let mut j: usize = 0;
        while j < self.map.len()
            invariant
                j <= self.map@.len(),
                forall|k: int| 0 <= k < j ==> self.map@[k].0@ != name@,
            decreases self.map@.len() - j,
        {
            if self.map[j].0 == *name {
                return Some(j);
            }
            j += 1;
        }
        None
    }

    /// Appends an element at the back of the collection, or replaces the
    /// element of the same name in place if one exists.
    pub fn push(&mut self, item: T)
        requires
            old(self).wf(),
        ensures
            final(self).wf(),
            final(self)@ == spec_upsert(old(self)@, item),
            seq_has_name(old(self)@, item.spec_name()) ==> final(self)@.len() == old(self)@.len()
                && final(self)@ == old(self)@.update(
                seq_index_of_name(old(self)@, item.spec_name()),
                item,
            ),
            !seq_has_name(old(self)@, item.spec_name()) ==> final(self)@ == old(self)@.push(item),
    {
        let name = item.name().to_owned();
        proof {
            assert(name@ == item.spec_name());
        }
        match self.find_entry(&name) {
            Some(j) => {
                let i = self.map[j].1;
                proof {
                    assert(self.entry_consistent(j as int));
                    assert(self@[i as int].spec_name() == item.spec_name());
                    assert(seq_has_name(self@, item.spec_name()));
                    let ix = seq_index_of_name(self@, item.spec_name());
                    self.lemma_wf_unique(ix, i as int);
                }
                self.items[i] = item;
                proof {
                    assert forall|j2: int|
                        0 <= j2 < self.map@.len() implies self.entry_consistent(j2) by {
                        assert(old(self).entry_consistent(j2));
                    }
                    assert forall|i2: int|
                        0 <= i2 < self.items@.len() implies self.position_indexed(i2) by {
                        assert(old(self).position_indexed(i2));
                    }
                }
            },
            None => {
                proof {
                    assert forall|i2: int|
                        0 <= i2 < self@.len() implies self@[i2].spec_name() != item.spec_name() by {
                        assert(self.position_indexed(i2));
                        let j2 = choose|j: int|
                            0 <= j < self.map@.len() && (#[trigger] self.map@[j]).1 == i2;
                        assert(self.entry_consistent(j2));
                        assert(self.map@[j2].0@ != name@);
                    }
                    assert(!seq_has_name(self@, item.spec_name()));
                }
                let i = self.items.len();
                self.map.push((name, i));
                self.items.push(item);
                proof {
                    assert forall|j2: int|
                        0 <= j2 < self.map@.len() implies self.entry_consistent(j2) by {
                        if j2 < old(self).map@.len() {
                            assert(old(self).entry_consistent(j2));
                        }
                    }
                    assert forall|i2: int|
                        0 <= i2 < self.items@.len() implies self.position_indexed(i2) by {
                        if i2 < old(self).items@.len() {
                            assert(old(self).position_indexed(i2));
                            let j2 = choose|j: int|
                                0 <= j < old(self).map@.len() && (#[trigger] old(
                                    self,
                                ).map@[j]).1 == i2;
                            assert(self.map@[j2] == old(self).map@[j2]);
                        } else {
                            assert(self.map@[self.map@.len() - 1].1 == i2);
                        }
                    }
                    assert forall|j1: int, j2: int|
                        0 <= j1 < j2 < self.map@.len() implies (#[trigger] self.map@[j1]).0@ != (
                    #[trigger] self.map@[j2]).0@ by {
                        if j2 < old(self).map@.len() {
                        } else {
                            if j1 < old(self).map@.len() {
                                assert(old(self).entry_consistent(j1));
                                assert(old(self)@[old(self).map@[j1].1 as int].spec_name()
                                    != item.spec_name());
                            }
                        }
                    }
                }
            },
        }
    }

    /// Removes the last element from the vector and returns it, dropping its
    /// name-index entry as well, or returns `None` if the vector is empty.
    pub fn pop(&mut self) -> (r: Option<T>)
        requires
            old(self).wf(),
        ensures
            final(self).wf(),
            old(self)@.len() == 0 ==> r is None && *final(self) == *old(self),
            old(self)@.len() > 0 ==> r == Some(old(self)@.last()) && final(self)@ == old(
                self,
            )@.drop_last(),
    {
        if self.items.len() == 0 {
            None
        } else {
            let ghost n = old(self)@.len() - 1;
            let last_item = match self.items.pop() {
                Some(x) => x,
                None => unreached(),
            };
            let name = last_item.name().to_owned();
            proof {
                assert(old(self).position_indexed(n));
                let j0 = choose|j: int|
                    0 <= j < old(self).map@.len() && (#[trigger] old(self).map@[j]).1 == n;
                assert(old(self).entry_consistent(j0));
                assert(self.map@[j0].0@ == name@);
            }
            let j = match self.find_entry(&name) {
                Some(j) => j,
                None => unreached(),
            };
            proof {
                assert(old(self).entry_consistent(j as int));
                old(self).lemma_wf_unique(old(self).map@[j as int].1 as int, n);
                assert(old(self).map@[j as int].1 == n);
            }
            let ghost m = old(self).map@;
            self.map.swap_remove(j);
            proof {
                let jj = j as int;
                assert forall|k: int|
                    0 <= k < self.map@.len() implies self.entry_consistent(k) by {
                    let k2: int = if k == jj {
                        m.len() - 1
                    } else {
                        k
                    };
                    assert(self.map@[k] == m[k2]);
                    assert(k2 != jj);
                    assert(old(self).entry_consistent(k2));
                    if m[k2].1 == n {
                        assert(m[k2].0@ == m[jj].0@);
                        assert(false);
                    }
                }
                assert forall|i: int|
                    0 <= i < self.items@.len() implies self.position_indexed(i) by {
                    assert(old(self).position_indexed(i));
                    let j2 = choose|k: int| 0 <= k < m.len() && (#[trigger] m[k]).1 == i;
                    assert(j2 != jj);
                    if j2 == m.len() - 1 {
                        assert(self.map@[jj] == m[j2]);
                    } else {
                        assert(self.map@[j2] == m[j2]);
                    }
                }
                assert forall|k1: int, k2: int|
                    0 <= k1 < k2 < self.map@.len() implies (#[trigger] self.map@[k1]).0@ != (
                #[trigger] self.map@[k2]).0@ by {
                    let s1: int = if k1 == jj {
                        m.len() - 1
                    } else {
                        k1
                    };
                    let s2: int = if k2 == jj {
                        m.len() - 1
                    } else {
                        k2
                    };
                    assert(self.map@[k1] == m[s1]);
                    assert(self.map@[k2] == m[s2]);
                }
            }
            Some(last_item)
        }
    }

    /// Shortens the vector, keeping the first `len` elements and dropping the
    /// rest. Every name-index entry for a dropped position is removed as well.
    ///
    /// If `len` is greater than or equal to the vector's current length, this
    /// has no effect.
    pub fn truncate(&mut self, len: usize)
        requires
            old(self).wf(),
        ensures
            final(self).wf(),
            len >= old(self)@.len() ==> *final(self) == *old(self),
            len < old(self)@.len() ==> final(self)@ == old(self)@.subrange(0, len as int),
    {
        if len < self.items.len() {
            let ghost m = old(self).map@;
            let mut j: usize = 0;
            while j < self.map.len()
                invariant
                    self.items@ == old(self).items@,
                    len < self.items@.len(),
                    j <= self.map@.len(),
                    forall|k: int| 0 <= k < j ==> (#[trigger] self.map@[k]).1 < len,
                    forall|k: int|
                        0 <= k < self.map@.len() ==> m.contains(#[trigger] self.map@[k]),
                    forall|k: int|
                        0 <= k < m.len() && (#[trigger] m[k]).1 < len ==> self.map@.contains(m[k]),
                    forall|k1: int, k2: int|
                        0 <= k1 < k2 < self.map@.len() ==> (#[trigger] self.map@[k1]).0@ != (
                        #[trigger] self.map@[k2]).0@,
                decreases self.map@.len() - j,
            {
                if self.map[j].1 >= len {
                    let ghost pre = self.map@;
                    let ghost jj = j as int;
                    self.map.swap_remove(j);
                    proof {
                        assert forall|k: int|
                            0 <= k < self.map@.len() implies m.contains(
                            #[trigger] self.map@[k],
                        ) by {
                            let s: int = if k == jj {
                                pre.len() - 1
                            } else {
                                k
                            };
                            assert(self.map@[k] == pre[s]);
                            assert(m.contains(pre[s]));
                        }
                        assert forall|k: int|
                            0 <= k < m.len() && (#[trigger] m[k]).1 < len implies self.map@.contains(
                            m[k],
                        ) by {
                            assert(pre.contains(m[k]));
                            let w = choose|w: int| 0 <= w < pre.len() && pre[w] == m[k];
                            assert(w != jj);
                            if w == pre.len() - 1 {
                                assert(self.map@[jj] == m[k]);
                            } else {
                                assert(self.map@[w] == m[k]);
                            }
                        }
                        assert forall|k1: int, k2: int|
                            0 <= k1 < k2 < self.map@.len() implies (#[trigger] self.map@[k1]).0@
                            != (#[trigger] self.map@[k2]).0@ by {
                            let s1: int = if k1 == jj {
                                pre.len() - 1
                            } else {
                                k1
                            };
                            let s2: int = if k2 == jj {
                                pre.len() - 1
                            } else {
                                k2
                            };
                            assert(self.map@[k1] == pre[s1]);
                            assert(self.map@[k2] == pre[s2]);
                        }
                    }
                } else {
                    j += 1;
                }
            }
            self.items.truncate(len);
            proof {
                assert forall|k: int|
                    0 <= k < self.map@.len() implies self.entry_consistent(k) by {
                    assert(m.contains(self.map@[k]));
                    let w = choose|w: int| 0 <= w < m.len() && m[w] == self.map@[k];
                    assert(old(self).entry_consistent(w));
                }
                assert forall|i: int|
                    0 <= i < self.items@.len() implies self.position_indexed(i) by {
                    assert(old(self).position_indexed(i));
                    let w = choose|k: int| 0 <= k < m.len() && (#[trigger] m[k]).1 == i;
                    assert(self.map@.contains(m[w]));
                    let k2 = choose|k: int| 0 <= k < self.map@.len() && self.map@[k] == m[w];
                    assert((self.map@[k2]).1 == i);
                }
            }
        }
    }

    /// Clears the vector, removing all elements and all name-index entries.
    pub fn clear(&mut self)
        ensures
            final(self)@ == Seq::<T>::empty(),
            final(self).wf(),
    {
        self.map.clear();
        self.items.clear();
    }

    /// Resolves a lookup key to a position in the sequence: a name resolves
    /// through the name index, a position stands for itself (unchecked, as the
    /// caller may still reject it as out of range).
    fn index_from_lookup<'a>(&self, lookup: Lookup<'a>) -> (r: Option<usize>)
        requires
            self.wf(),
        ensures
            match lookup {
                Lookup::Name(s) => {
                    &&& seq_has_name(self@, s@) ==> r is Some && r.unwrap() as int
                        == seq_index_of_name(self@, s@)
                    &&& !seq_has_name(self@, s@) ==> r is None
                },
                Lookup::Index(i) => r == Some(i),
            },
    {
        match lookup {
            Lookup::Name(name) => {
                let owned = name.to_owned();
                match self.find_entry(&owned) {
                    Some(j) => {
                        proof {
                            assert(self.entry_consistent(j as int));
                            assert(seq_has_name(self@, owned@));
                            self.lemma_wf_unique(
                                seq_index_of_name(self@, owned@),
                                self.map@[j as int].1 as int,
                            );
                        }
                        Some(self.map[j].1)
                    },
                    None => {
                        proof {
                            assert forall|i2: int|
                                0 <= i2 < self@.len() implies self@[i2].spec_name() != owned@ by {
                                assert(self.position_indexed(i2));
                                let j2 = choose|j: int|
                                    0 <= j < self.map@.len() && (#[trigger] self.map@[j]).1 == i2;
                                assert(self.entry_consistent(j2));
                                assert(self.map@[j2].0@ != owned@);
                            }
                            assert(!seq_has_name(self@, owned@));
                        }
                        None
                    },
                }
            },
            Lookup::Index(index) => Some(index),
        }
    }

    /// Resolves a lookup key to the name it stands for: a name stands for
    /// itself, a position gives the name of the element there, if in range.
    fn name_from_lookup<'a>(&self, lookup: Lookup<'a>) -> (r: Option<String>)
        ensures
            match lookup {
                Lookup::Name(s) => r is Some && r.unwrap()@ == s@,
                Lookup::Index(i) => {
                    &&& (i as int) < self@.len() ==> r is Some && r.unwrap()@ == self@[
                        i as int
                    ].spec_name()
                    &&& (i as int) >= self@.len() ==> r is None
                },
            },
    {
        match lookup {
            Lookup::Name(name) => Some(name.to_owned()),
            Lookup::Index(index) => {
                if index < self.items.len() {
                    Some(self.items[index].name().to_owned())
                } else {
                    None
                }
            },
        }
    }

    /// Returns a reference to an element.
    ///
    /// The element is named by a [`Lookup`]: a position or a name, e.g.
    /// `v.get(0.into())` or `v.get("foo".into())`.
    ///
    /// Returns `None` if a position is out of bounds or a name is not in use.
    pub fn get(&self, lookup: Lookup<'_>) -> (r: Option<&T>)
        requires
            self.wf(),
        ensures
            match self.spec_resolve(lookup) {
                Some(i) => r is Some && *r.unwrap() == self@[i],
                None => r is None,
            },
    {
        match self.index_from_lookup(lookup) {
            Some(i) => {
                if i < self.items.len() {
                    Some(&self.items[i])
                } else {
                    None
                }
            },
            None => None,
        }
    }

    /// Returns a mutable reference to an element; see [`get`](NamedVec::get)
    /// for how the lookup key resolves.
    ///
    /// The invariant is kept as long as the caller does not change the
    /// element's name through the returned reference; writing an element whose
    /// name differs is a caller error that leaves the name index stale.
    pub fn get_mut(&mut self, lookup: Lookup<'_>) -> (r: Option<&mut T>)
        requires
            old(self).wf(),
        ensures
            match old(self).spec_resolve(lookup) {
                Some(i) => {
                    &&& r is Some
                    &&& *r.unwrap() == old(self)@[i]
                    &&& final(self)@ == old(self)@.update(i, *final(r.unwrap()))
                    &&& ((*final(r.unwrap())).spec_name() == old(self)@[i].spec_name()
                        ==> final(self).wf())
                },
                None => r is None && *final(self) == *old(self),
            },
    {
        match self.index_from_lookup(lookup) {
            Some(i) => {
                if i < self.items.len() {
                    proof {
                        let ii = i as int;
                        assert forall|x: T, v: Self|
                            #![trigger v.wf(), old(self).items@.update(ii, x)]
                            v.map@ == old(self).map@ && v.items@ == old(self).items@.update(ii, x)
                                && x.spec_name() == old(self)@[ii].spec_name() implies v.wf() by {
                            assert forall|j2: int|
                                0 <= j2 < v.map@.len() implies v.entry_consistent(j2) by {
                                assert(old(self).entry_consistent(j2));
                            }
                            assert forall|i2: int|
                                0 <= i2 < v.items@.len() implies v.position_indexed(i2) by {
                                assert(old(self).position_indexed(i2));
                            }
                        }
                    }
                    Some(&mut self.items[i])
                } else {
                    None
                }
            },
            None => None,
        }
    }

    /// Swaps two elements, each named by a lookup key.
    ///
    /// Both keys must resolve: a name must be in use and a position must be in
    /// range. An unresolved key is a precondition violation, not a silent
    /// no-op. Swapping an element with itself leaves the collection unchanged.
    pub fn swap(&mut self, first: Lookup<'_>, second: Lookup<'_>)
        requires
            old(self).wf(),
            old(self).spec_resolve(first) is Some,
            old(self).spec_resolve(second) is Some,
        ensures
            final(self).wf(),
            ({
                let i1 = old(self).spec_resolve(first).unwrap();
                let i2 = old(self).spec_resolve(second).unwrap();
                &&& final(self)@ == old(self)@.update(i1, old(self)@[i2]).update(
                    i2,
                    old(self)@[i1],
                )
                &&& (i1 == i2 ==> *final(self) == *old(self))
            }),
    {
        let ghost o = old(self)@;
        let ghost m0 = old(self).map@;
        let old_i1 = match self.index_from_lookup(first) {
            Some(i) => i,
            None => unreached(),
        };
        let old_i2 = match self.index_from_lookup(second) {
            Some(i) => i,
            None => unreached(),
        };
        let ghost r1 = old_i1 as int;
        let ghost r2 = old_i2 as int;
        proof {
            assert(r1 == old(self).spec_resolve(first).unwrap());
            assert(r2 == old(self).spec_resolve(second).unwrap());
            assert(0 <= r1 < o.len());
            assert(0 <= r2 < o.len());
        }
        // Don't bother swapping if the two keys resolve to the same element.
        if old_i1 == old_i2 {
            proof {
                assert(o.update(r1, o[r2]).update(r2, o[r1]) =~= o);
            }
            return;
        }
        let old_s1 = match self.name_from_lookup(first) {
            Some(s) => s,
            None => unreached(),
        };
        let old_s2 = match self.name_from_lookup(second) {
            Some(s) => s,
            None => unreached(),
        };
        let ghost s1 = old_s1@;
        let ghost s2 = old_s2@;
        proof {
            assert(s1 == o[r1].spec_name());
            assert(s2 == o[r2].spec_name());
            assert(s1 != s2) by {
                if s1 == s2 {
                    self.lemma_wf_unique(r1, r2);
                }
            }
            assert(self.position_indexed(r1));
            let j0 = choose|j: int| 0 <= j < m0.len() && (#[trigger] m0[j]).1 == r1;
            assert(self.entry_consistent(j0));
            assert(m0[j0].0@ == s1);
        }
        let j1 = match self.find_entry(&old_s1) {
            Some(j) => j,
            None => unreached(),
        };
        proof {
            assert(self.entry_consistent(j1 as int));
            self.lemma_wf_unique(self.map@[j1 as int].1 as int, r1);
            assert(m0[j1 as int].1 == r1);
        }
        self.map[j1] = (old_s1, old_i2);
        proof {
            assert(old(self).position_indexed(r2));
            let j0 = choose|j: int| 0 <= j < m0.len() && (#[trigger] m0[j]).1 == r2;
            assert(old(self).entry_consistent(j0));
            assert(m0[j0].0@ == s2);
            assert(j0 != j1 as int);
            assert(self.map@[j0].0@ == s2);
        }
        let j2 = match self.find_entry(&old_s2) {
            Some(j) => j,
            None => unreached(),
        };
        proof {
            assert(j2 != j1);
            assert(self.map@[j2 as int] == m0[j2 as int]);
            assert(old(self).entry_consistent(j2 as int));
            old(self).lemma_wf_unique(m0[j2 as int].1 as int, r2);
            assert(m0[j2 as int].1 == r2);
        }
        self.map[j2] = (old_s2, old_i1);
        let last_pos = self.items.len() - 1;
        if old_i2 == last_pos {
            swap_with_last(&mut self.items, old_i1);
        } else if old_i1 == last_pos {
            swap_with_last(&mut self.items, old_i2);
        } else {
            swap_with_last(&mut self.items, old_i1);
            swap_with_last(&mut self.items, old_i2);
            swap_with_last(&mut self.items, old_i1);
        }
        proof {
            let jj1 = j1 as int;
            let jj2 = j2 as int;
            let target = o.update(r1, o[r2]).update(r2, o[r1]);
            let ll = o.len() - 1;
            if r2 == ll {
                assert(self.items@ =~= target);
            } else if r1 == ll {
                assert(self.items@ =~= target);
            } else {
                let a = o.update(r1, o[ll]).update(ll, o[r1]);
                let b = a.update(r2, a[ll]).update(ll, a[r2]);
                let c = b.update(r1, b[ll]).update(ll, b[r1]);
                assert(self.items@ == c);
                assert forall|k: int| 0 <= k < c.len() implies c[k] == target[k] by {
                    if k == r1 {
                    } else if k == r2 {
                    } else if k == ll {
                    }
                }
                assert(self.items@ =~= target);
            }
            assert(self.items@ == target);
            assert forall|k: int|
                0 <= k < self.map@.len() implies (#[trigger] self.map@[k]).0@ == m0[k].0@ by {}
            assert forall|k: int| 0 <= k < self.map@.len() implies self.entry_consistent(k) by {
                if k == jj1 {
                    assert(self.map@[k].1 == r2 && self.map@[k].0@ == s1);
                } else if k == jj2 {
                    assert(self.map@[k].1 == r1 && self.map@[k].0@ == s2);
                } else {
                    assert(self.map@[k] == m0[k]);
                    assert(old(self).entry_consistent(k));
                    let p = m0[k].1 as int;
                    if p == r1 {
                        assert(m0[k].0@ == s1 && m0[jj1].0@ == s1);
                        assert(false);
                    }
                    if p == r2 {
                        assert(m0[k].0@ == s2 && m0[jj2].0@ == s2);
                        assert(false);
                    }
                    assert(self.items@[p] == o[p]);
                }
            }
            assert forall|i: int| 0 <= i < self.items@.len() implies self.position_indexed(i) by {
                assert(old(self).position_indexed(i));
                let j0 = choose|j: int| 0 <= j < m0.len() && (#[trigger] m0[j]).1 == i;
                if j0 == jj1 {
                    assert((self.map@[jj2]).1 == i);
                } else if j0 == jj2 {
                    assert((self.map@[jj1]).1 == i);
                } else {
                    assert((self.map@[j0]).1 == i);
                }
            }
            assert forall|k1: int, k2: int|
                0 <= k1 < k2 < self.map@.len() implies (#[trigger] self.map@[k1]).0@ != (
            #[trigger] self.map@[k2]).0@ by {
                assert(m0[k1].0@ != m0[k2].0@);
            }
        }
    }

    /// Returns the number of elements in the vector.
    pub fn len(&self) -> (r: usize)
        ensures
            r == self@.len(),
    {
        self.items.len()
    }

    /// Returns `true` if the vector contains no elements.
    pub fn is_empty(&self) -> (r: bool)
        ensures
            r == (self@.len() == 0),
    {
        self.len() == 0
    }

    /// Returns the number of elements the vector can hold without
    /// reallocating.
    pub fn capacity(&self) -> (r: usize)
        ensures
            r >= self@.len(),
    {
        vec_capacity(&self.items)
    }

    /// Reserves capacity for at least `additional` more elements in both the
    /// sequence and the name index. The contents, and with them every lookup
    /// result, stay exactly as they were; only allocation headroom changes.
    ///
    /// Aborts if the new allocation size overflows `usize`, which is a fatal
    /// condition rather than a recoverable error.
    pub fn reserve(&mut self, additional: usize)
        requires
            old(self).wf(),
        ensures
            final(self)@ == old(self)@,
            final(self).wf(),
    {
        self.items.reserve(additional);
        self.map.reserve(additional);
        proof {
            assert forall|j: int| 0 <= j < self.map@.len() implies self.entry_consistent(j) by {
                assert(old(self).entry_consistent(j));
            }
            assert forall|i: int| 0 <= i < self.items@.len() implies self.position_indexed(i) by {
                assert(old(self).position_indexed(i));
            }
        }
    }

    /// Shrinks the capacity of the sequence and the name index as much as
    /// possible. The contents stay exactly as they were.
    pub fn shrink_to_fit(&mut self)
        requires
            old(self).wf(),
        ensures
            final(self)@ == old(self)@,
            final(self).wf(),
    {
        vec_shrink_to_fit(&mut self.items);
        vec_shrink_to_fit(&mut self.map);
        proof {
            assert forall|j: int| 0 <= j < self.map@.len() implies self.entry_consistent(j) by {
                assert(old(self).entry_consistent(j));
            }
            assert forall|i: int| 0 <= i < self.items@.len() implies self.position_indexed(i) by {
                assert(old(self).position_indexed(i));
            }
        }
    }

    /// Returns a read-only view of the whole sequence in position order.
    pub fn as_slice(&self) -> (r: &[T])
        ensures
            r@ == self@,
    {
        self.items.as_slice()
    }

    /// Returns a read-only view of positions `start..end` of the sequence.
    /// Endpoints out of bounds are a precondition violation.
    pub fn range(&self, start: usize, end: usize) -> (r: &[T])
        requires
            start <= end <= self@.len(),
        ensures
            r@ == self@.subrange(start as int, end as int),
    {
        let (head, _) = self.items.as_slice().split_at(end);
        let (_, mid) = head.split_at(start);
        proof {
            assert(mid@ =~= self@.subrange(start as int, end as int));
        }
        mid
    }

    /// Returns a read-only view of positions `start..` of the sequence.
    pub fn range_from(&self, start: usize) -> (r: &[T])
        requires
            start <= self@.len(),
        ensures
            r@ == self@.subrange(start as int, self@.len() as int),
    {
        self.range(start, self.items.len())
    }

    /// Returns a read-only view of positions `..end` of the sequence.
    pub fn range_to(&self, end: usize) -> (r: &[T])
        requires
            end <= self@.len(),
        ensures
            r@ == self@.subrange(0, end as int),
    {
        self.range(0, end)
    }

    /// The standing invariant, stated observably: the name of the element at
    /// any position resolves back to exactly that position.
    pub proof fn lemma_name_resolves_to_position(&self, i: int)
        requires
            self.wf(),
            0 <= i < self@.len(),
        ensures
            seq_has_name(self@, self@[i].spec_name()),
            seq_index_of_name(self@, self@[i].spec_name()) == i,
    {
        assert(seq_has_name(self@, self@[i].spec_name()));
        self.lemma_wf_unique(seq_index_of_name(self@, self@[i].spec_name()), i);
    }

    /// Pop/push duality: the popped element's name is no longer present, so
    /// upserting the element back appends it, and the original sequence (and
    /// with it every lookup result) is restored exactly.
    pub proof fn lemma_pop_push_restores(&self)
        requires
            self.wf(),
            self@.len() > 0,
        ensures
            !seq_has_name(self@.drop_last(), self@.last().spec_name()),
            spec_upsert(self@.drop_last(), self@.last()) == self@,
    {
        let s = self@;
        let d = s.drop_last();
        assert forall|i: int| 0 <= i < d.len() implies (#[trigger] d[i].spec_name())
            != s.last().spec_name() by {
            if d[i].spec_name() == s.last().spec_name() {
                self.lemma_wf_unique(i, s.len() - 1);
            }
        }
        assert(d.push(s.last()) =~= s);
    }

    /// Capacity transparency: upserting a sequence of elements depends only on
    /// the contents of the collection, so two collections with equal contents
    /// — for instance, one that reserved capacity (which keeps the contents,
    /// see [`reserve`](NamedVec::reserve)) and one that did not — end with
    /// equal contents after the same insertions.
    pub proof fn lemma_capacity_transparent(v1: &Self, v2: &Self, items: Seq<T>)
        requires
            v1@ == v2@,
        ensures
            spec_upsert_all(v1@, items) == spec_upsert_all(v2@, items),
    {
    }
}

} // verus!
