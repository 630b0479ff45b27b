//! A map from names to values whose lookups go through a `DashMap`.
//!
//! The values stand in a list; the `DashMap` holds, for each name, its position there.
use crate::assoc::{
    lemma_paired_push, lemma_paired_swap_remove, lemma_position, lemma_value_changes, names_of,
    paired, position, swap_removed, value_of_pair, values_of,
};
use dashmap::DashMap;
use vstd::prelude::*;

verus! {

#[verifier::external_type_specification]
#[verifier::external_body]
#[verifier::reject_recursive_types(K)]
#[verifier::reject_recursive_types(V)]
#[verifier::reject_recursive_types(S)]
pub struct ExDashMap<K, V, S>(dashmap::DashMap<K, V, S>);

/// What a `DashMap` from names to positions holds.
pub uninterp spec fn slots(m: DashMap<String, u64>) -> Map<Seq<char>, u64>;

/// `DashMap::new` gives an empty map.
#[verifier::external_body]
fn no_slots() -> (r: DashMap<String, u64>)
    ensures
        forall|k: Seq<char>| !slots(r).contains_key(k),
{
    DashMap::new()
}

/// `DashMap::get` gives the value stored under the key, and nothing where there is none.
#[verifier::external_body]
fn slot_of(m: &DashMap<String, u64>, name: &str) -> (r: Option<u64>)
    ensures
        match r {
            Some(i) => slots(*m).contains_key(name@) && slots(*m)[name@] == i,
            None => !slots(*m).contains_key(name@),
        },
{
    m.get(name).map(|e| *e.value())
}

/// `DashMap::insert` stores the value under the key, in place of an earlier one.
#[verifier::external_body]
fn put_slot(m: &mut DashMap<String, u64>, name: String, i: u64)
    ensures
        slots(*final(m)) == slots(*old(m)).insert(name@, i),
{
    m.insert(name, i);
}

/// `DashMap::remove` takes the key and its value out, and changes nothing where it is absent.
#[verifier::external_body]
fn drop_slot(m: &mut DashMap<String, u64>, name: &str)
    ensures
        slots(*final(m)) == slots(*old(m)).remove(name@),
{
    m.remove(name);
}

/// A map from names to values. The order in which it lists the names is its own affair.
pub struct NameMap<V> {
    entries: Vec<(String, V)>,
    index: DashMap<String, u64>,
}

impl<V> NameMap<V> {
    /// The names, in the order in which they are listed.
    pub closed spec fn names(self) -> Seq<Seq<char>> {
        names_of(self.entries@)
    }

    /// The values, in the order of the names.
    pub closed spec fn values(self) -> Seq<V> {
        values_of(self.entries@)
    }

    /// The map itself.
    pub open spec fn view(self) -> Map<Seq<char>, V> {
        paired(self.names(), self.values())
    }

    /// No name is listed twice, and the index gives each name its position and nothing else.
    pub closed spec fn wf(self) -> bool {
        &&& self.names().no_duplicates()
        &&& forall|i: int|
            0 <= i < self.names().len() ==> slots(self.index).contains_key(
                #[trigger] self.names()[i],
            ) && slots(self.index)[self.names()[i]] == i
        &&& forall|k: Seq<char>|
            #[trigger] slots(self.index).contains_key(k) ==> slots(self.index)[k]
                < self.names().len() && self.names()[slots(self.index)[k] as int] == k
    }

    pub fn new() -> (r: Self)
        ensures
            r.wf(),
            r.names() == Seq::<Seq<char>>::empty(),
            r@ == Map::<Seq<char>, V>::empty(),
    {
        let r = NameMap { entries: Vec::new(), index: no_slots() };
        assert(r.names() =~= Seq::<Seq<char>>::empty());
        assert(r@ =~= Map::<Seq<char>, V>::empty());
        r
    }

    /// How many names there are.
    pub fn len(&self) -> (r: usize)
        requires
            self.wf(),
        ensures
            r == self.names().len(),
            r == self.values().len(),
            self.names().no_duplicates(),
            forall|i: int|
                0 <= i < r ==> self@.contains_key(#[trigger] self.names()[i])
                    && self@[self.names()[i]] == self.values()[i],
    {
        self.entries.len()
    }

    /// The position of `name`.
    pub fn find(&self, name: &str) -> (r: Option<usize>)
        requires
            self.wf(),
        ensures
            match r {
                Some(i) => i < self.names().len() && self.names()[i as int] == name@
                    && self@.contains_key(name@) && self@[name@] == self.values()[i as int],
                None => !self@.contains_key(name@),
            },
    {
        match slot_of(&self.index, name) {
            Some(i) => {
                proof {
                    lemma_position(self.names(), i as int);
                    assert(i < self.entries.len());
                }
                Some(i as usize)
            },
            None => None,
        }
    }

    pub fn contains(&self, name: &str) -> (r: bool)
        requires
            self.wf(),
        ensures
            r == self@.contains_key(name@),
    {
        self.find(name).is_some()
    }

    pub fn name_at(&self, i: usize) -> (r: &String)
        requires
            self.wf(),
            i < self.names().len(),
        ensures
            r@ == self.names()[i as int],
            self@.contains_key(r@),
            self@[r@] == self.values()[i as int],
    {
        proof {
            lemma_position(self.names(), i as int);
        }
        let r = &self.entries[i].0;
        assert(r@ == self.names()[i as int]);
        r
    }

    pub fn value_at(&self, i: usize) -> (r: &V)
        requires
            i < self.names().len(),
        ensures
            *r == self.values()[i as int],
    {
        &self.entries[i].1
    }

    pub fn get(&self, name: &str) -> (r: Option<&V>)
        requires
            self.wf(),
        ensures
            match r {
                Some(v) => self@.contains_key(name@) && *v == self@[name@],
                None => !self@.contains_key(name@),
            },
    {
        match self.find(name) {
            Some(i) => Some(&self.entries[i].1),
            None => None,
        }
    }

    /// The value at position `i`, to be changed in place.
    pub fn value_mut(&mut self, i: usize) -> (r: &mut V)
        requires
            old(self).wf(),
            i < old(self).names().len(),
        ensures
            *r == old(self).values()[i as int],
            final(self).wf(),
            final(self).names() == old(self).names(),
            final(self).values() == old(self).values().update(i as int, *final(r)),
            final(self)@ == old(self)@.insert(old(self).names()[i as int], *final(r)),
    {
        proof {
            lemma_value_changes(self.entries@, i as int);
        }
        value_of_pair(&mut self.entries, i)
    }

    /// Gives `name` the value `value`, in place of the one it had, if it had one.
    pub fn insert(&mut self, name: String, value: V)
        requires
            old(self).wf(),
        ensures
            final(self).wf(),
            final(self)@ == old(self)@.insert(name@, value),
            old(self)@.contains_key(name@) ==> final(self).names() == old(self).names(),
            !old(self)@.contains_key(name@) ==> final(self).names() == old(self).names().push(
                name@,
            ) && final(self).values() == old(self).values().push(value),
    {
        match self.find(name.as_str()) {
            Some(i) => {
                let slot = self.value_mut(i);
                *slot = value;
            },
            None => {
                put_slot(&mut self.index, name.clone(), self.entries.len() as u64);
                self.entries.push((name, value));
                proof {
                    lemma_paired_push(old(self).names(), old(self).values(), name@, value);
                    assert(self.names() =~= old(self).names().push(name@));
                    assert(self.values() =~= old(self).values().push(value));
                    assert forall|k: Seq<char>| #[trigger]
                        slots(self.index).contains_key(k) implies slots(self.index)[k]
                        < self.names().len() && self.names()[slots(self.index)[k] as int] == k by {
                        if k != name@ {
                            assert(slots(old(self).index).contains_key(k));
                        }
                    }
                }
            },
        }
    }

    /// Takes `name` and its value out.
    pub fn remove(&mut self, name: &str) -> (r: Option<V>)
        requires
            old(self).wf(),
        ensures
            final(self).wf(),
            final(self)@ == old(self)@.remove(name@),
            match r {
                Some(v) => old(self)@.contains_key(name@) && v == old(self)@[name@],
                None => !old(self)@.contains_key(name@) && *final(self) == *old(self),
            },
            old(self)@.contains_key(name@) ==> final(self).names() == swap_removed(
                old(self).names(),
                position(old(self).names(), name@),
            ) && final(self).values() == swap_removed(
                old(self).values(),
                position(old(self).names(), name@),
            ),
    {
        match self.find(name) {
            Some(i) => {
                let pair = self.entries.swap_remove(i);
                drop_slot(&mut self.index, name);
                if i < self.entries.len() {
                    let moved: String = self.entries[i].0.clone();
                    put_slot(&mut self.index, moved, i as u64);
                }
                proof {
                    lemma_position(old(self).names(), i as int);
                    lemma_paired_swap_remove(old(self).names(), old(self).values(), i as int);
                    assert(self.names() =~= swap_removed(old(self).names(), i as int));
                    assert(self.values() =~= swap_removed(old(self).values(), i as int));
                    let last = old(self).names().len() - 1;
                    assert forall|k: Seq<char>| #[trigger]
                        slots(self.index).contains_key(k) implies slots(self.index)[k]
                        < self.names().len() && self.names()[slots(self.index)[k] as int] == k by {
                        assert(slots(old(self).index).contains_key(k));
                        if slots(old(self).index)[k] as int != last {
                            assert(k != old(self).names()[last]);
                        }
                    }
                    assert forall|j: int| 0 <= j < self.names().len() implies slots(
                        self.index,
                    ).contains_key(#[trigger] self.names()[j]) && slots(self.index)[self.names()[j]]
                        == j by {
                        if j != i {
                            assert(self.names()[j] == old(self).names()[j]);
                        } else {
                            assert(self.names()[j] == old(self).names()[last]);
                        }
                    }
                }
                Some(pair.1)
            },
            None => {
                assert(self@.remove(name@) =~= self@);
                None
            },
        }
    }
}

} // verus!
