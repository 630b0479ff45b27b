//! A map from names to values, kept as a list of pairs in which no name occurs twice.
use crate::text::same_text;
use vstd::prelude::*;

verus! {

/// The position of `k` in `keys`, where it has one.
pub open spec fn position(keys: Seq<Seq<char>>, k: Seq<char>) -> int {
    choose|i: int| 0 <= i < keys.len() && keys[i] == k
}

/// The map that sends each name to the value at its position.
pub open spec fn paired<V>(names: Seq<Seq<char>>, values: Seq<V>) -> Map<Seq<char>, V> {
    Map::new(|k: Seq<char>| names.contains(k), |k: Seq<char>| values[position(names, k)])
}

/// Distinct names stand at distinct positions.
pub proof fn lemma_position(names: Seq<Seq<char>>, i: int)
    requires
        names.no_duplicates(),
        0 <= i < names.len(),
    ensures
        position(names, names[i]) == i,
{
}

/// Pairing after a new name came in at the end.
pub proof fn lemma_paired_push<V>(names: Seq<Seq<char>>, values: Seq<V>, k: Seq<char>, v: V)
    requires
        names.no_duplicates(),
        names.len() == values.len(),
        !names.contains(k),
    ensures
        names.push(k).no_duplicates(),
        paired(names.push(k), values.push(v)) == paired(names, values).insert(k, v),
{
    let names2 = names.push(k);
    let values2 = values.push(v);
    assert(names2.no_duplicates());
    assert forall|x: Seq<char>| names2.contains(x) == (names.contains(x) || x == k) by {
        if names.contains(x) {
            assert(names2[position(names, x)] == x);
        }
        if x == k {
            assert(names2[names.len() as int] == x);
        }
    }
    assert forall|x: Seq<char>| names2.contains(x) implies values2[position(names2, x)] == paired(
        names,
        values,
    ).insert(k, v)[x] by {
        if x == k {
            lemma_position(names2, names.len() as int);
        } else {
            lemma_position(names2, position(names, x));
        }
    }
    assert(paired(names2, values2) =~= paired(names, values).insert(k, v));
}

/// Pairing after the name at position `i` and its value went out.
pub proof fn lemma_paired_remove<V>(names: Seq<Seq<char>>, values: Seq<V>, i: int)
    requires
        names.no_duplicates(),
        names.len() == values.len(),
        0 <= i < names.len(),
    ensures
        names.remove(i).no_duplicates(),
        paired(names.remove(i), values.remove(i)) == paired(names, values).remove(names[i]),
{
    let names2 = names.remove(i);
    let values2 = values.remove(i);
    assert forall|a: int, b: int| 0 <= a < names2.len() && 0 <= b < names2.len() && a != b implies
        names2[a] != names2[b] by {
        let a1 = if a < i { a } else { a + 1 };
        let b1 = if b < i { b } else { b + 1 };
        assert(names2[a] == names[a1] && names2[b] == names[b1]);
    }
    assert forall|x: Seq<char>| names2.contains(x) == (names.contains(x) && x != names[i]) by {
        if names.contains(x) && x != names[i] {
            let p = position(names, x);
            assert(names2[if p < i { p } else { p - 1 }] == x);
        }
        if names2.contains(x) {
            let q = position(names2, x);
            assert(names[if q < i { q } else { q + 1 }] == x);
        }
    }
    assert forall|x: Seq<char>| names2.contains(x) implies values2[position(names2, x)]
        == values[position(names, x)] by {
        let p = position(names, x);
        lemma_position(names2, if p < i { p } else { p - 1 });
    }
    assert(paired(names2, values2) =~= paired(names, values).remove(names[i]));
}

/// Pairing after the value at position `i` changed.
pub proof fn lemma_paired_update<V>(names: Seq<Seq<char>>, values: Seq<V>, i: int, v: V)
    requires
        names.no_duplicates(),
        names.len() == values.len(),
        0 <= i < names.len(),
    ensures
        paired(names, values.update(i, v)) == paired(names, values).insert(names[i], v),
{
    lemma_position(names, i);
    assert(paired(names, values.update(i, v)) =~= paired(names, values).insert(names[i], v));
}

/// The list without the item at `i`, whose place the last one takes.
pub open spec fn swap_removed<T>(s: Seq<T>, i: int) -> Seq<T> {
    s.update(i, s.last()).drop_last()
}

/// Pairing after the name at position `i` and its value went out and the last ones took
/// their place.
pub proof fn lemma_paired_swap_remove<V>(names: Seq<Seq<char>>, values: Seq<V>, i: int)
    requires
        names.no_duplicates(),
        names.len() == values.len(),
        0 <= i < names.len(),
    ensures
        swap_removed(names, i).no_duplicates(),
        paired(swap_removed(names, i), swap_removed(values, i)) == paired(names, values).remove(
            names[i],
        ),
{
    let names2 = swap_removed(names, i);
    let values2 = swap_removed(values, i);
    let last = names.len() - 1;
    assert forall|a: int, b: int| 0 <= a < names2.len() && 0 <= b < names2.len() && a != b implies
        names2[a] != names2[b] by {
        let a1 = if a == i { last } else { a };
        let b1 = if b == i { last } else { b };
        assert(names2[a] == names[a1] && names2[b] == names[b1]);
    }
    assert forall|x: Seq<char>| names2.contains(x) == (names.contains(x) && x != names[i]) by {
        if names.contains(x) && x != names[i] {
            let p = position(names, x);
            assert(names2[if p == last { i } else { p }] == x);
        }
        if names2.contains(x) {
            let q = position(names2, x);
            assert(names[if q == i { last } else { q }] == x);
        }
    }
    assert forall|x: Seq<char>| names2.contains(x) implies values2[position(names2, x)]
        == values[position(names, x)] by {
        let p = position(names, x);
        lemma_position(names2, if p == last { i } else { p });
    }
    assert(paired(names2, values2) =~= paired(names, values).remove(names[i]));
}

/// A map from names to values. The names are listed in the order in which they came in.
pub struct AssocMap<V> {
    entries: Vec<(String, V)>,
}

/// The names in a list of pairs.
pub open spec fn names_of<V>(entries: Seq<(String, V)>) -> Seq<Seq<char>> {
    entries.map_values(|e: (String, V)| e.0@)
}

/// The values in a list of pairs.
pub open spec fn values_of<V>(entries: Seq<(String, V)>) -> Seq<V> {
    entries.map_values(|e: (String, V)| e.1)
}

/// A new value at position `i` changes the map there and the names nowhere.
pub proof fn lemma_value_changes<V>(entries: Seq<(String, V)>, i: int)
    requires
        names_of(entries).no_duplicates(),
        0 <= i < entries.len(),
    ensures
        forall|v: V|
            #![trigger entries.update(i, (entries[i].0, v))]
            {
                let after = entries.update(i, (entries[i].0, v));
                &&& names_of(after) == names_of(entries)
                &&& values_of(after) == values_of(entries).update(i, v)
                &&& paired(names_of(after), values_of(after)) == paired(
                    names_of(entries),
                    values_of(entries),
                ).insert(names_of(entries)[i], v)
            },
{
    assert forall|v: V|
        #![trigger entries.update(i, (entries[i].0, v))]
        {
            let after = entries.update(i, (entries[i].0, v));
            &&& names_of(after) == names_of(entries)
            &&& values_of(after) == values_of(entries).update(i, v)
            &&& paired(names_of(after), values_of(after)) == paired(
                names_of(entries),
                values_of(entries),
            ).insert(names_of(entries)[i], v)
        } by {
        let after = entries.update(i, (entries[i].0, v));
        assert(names_of(after) =~= names_of(entries));
        assert(values_of(after) =~= values_of(entries).update(i, v));
        lemma_paired_update(names_of(entries), values_of(entries), i, v);
    }
}

/// The value of the pair at `i`, to be changed in place.
pub(crate) fn value_of_pair<V>(entries: &mut Vec<(String, V)>, i: usize) -> (r: &mut V)
    requires
        i < old(entries)@.len(),
    ensures
        *r == old(entries)@[i as int].1,
        final(entries)@ == old(entries)@.update(i as int, (old(entries)@[i as int].0, *final(r))),
    no_unwind
{
    &mut entries[i].1
}

impl<V> AssocMap<V> {
    /// The names, in order.
    pub closed spec fn names(self) -> Seq<Seq<char>> {
        names_of(self.entries@)
    }

    /// The values, in the order of the names.
    pub closed spec fn values(self) -> Seq<V> {
        values_of(self.entries@)
    }

    #[verifier::type_invariant]
    closed spec fn distinct(self) -> bool {
        self.names().no_duplicates()
    }

    /// The map itself.
    pub open spec fn view(self) -> Map<Seq<char>, V> {
        paired(self.names(), self.values())
    }

    pub fn new() -> (r: Self)
        ensures
            r.names() == Seq::<Seq<char>>::empty(),
            r.values() == Seq::<V>::empty(),
            r@ == Map::<Seq<char>, V>::empty(),
    {
        let r = AssocMap { entries: Vec::new() };
        assert(r.names() =~= Seq::<Seq<char>>::empty());
        assert(r.values() =~= Seq::<V>::empty());
        assert(r@ =~= Map::<Seq<char>, V>::empty());
        r
    }

    /// How many names there are.
    pub fn len(&self) -> (r: usize)
        ensures
            r == self.names().len(),
            r == self.values().len(),
            self.names().no_duplicates(),
            forall|i: int|
                0 <= i < r ==> self@.contains_key(#[trigger] self.names()[i])
                    && self@[self.names()[i]] == self.values()[i],
    {
        proof {
            use_type_invariant(self);
        }
        self.entries.len()
    }

    /// The position of `name`.
    pub fn find(&self, name: &str) -> (r: Option<usize>)
        ensures
            match r {
                Some(i) => i < self.names().len() && self.names()[i as int] == name@
                    && self@.contains_key(name@) && self@[name@] == self.values()[i as int],
                None => !self@.contains_key(name@),
            },
    {
        proof {
            use_type_invariant(self);
        }
        let mut i: usize = 0;
        while i < self.entries.len()
            invariant
                i <= self.entries.len(),
                self.names().no_duplicates(),
                forall|j: int| 0 <= j < i ==> self.names()[j] != name@,
            decreases self.entries.len() - i,
        {
            if same_text(self.entries[i].0.as_str(), name) {
                assert(self.names()[i as int] == name@);
                return Some(i);
            }
            i = i + 1;
        }
        None
    }

    pub fn contains(&self, name: &str) -> (r: bool)
        ensures
            r == self@.contains_key(name@),
    {
        self.find(name).is_some()
    }

    pub fn name_at(&self, i: usize) -> (r: &String)
        requires
            i < self.names().len(),
        ensures
            r@ == self.names()[i as int],
            self@.contains_key(r@),
            self@[r@] == self.values()[i as int],
    {
        proof {
            use_type_invariant(self);
        }
        let r = &self.entries[i].0;
        assert(r@ == self.names()[i as int]);
        r
    }

    pub fn value_at(&self, i: usize) -> (r: &V)
        requires
            i < self.names().len(),
        ensures
            *r == self.values()[i as int],
    {
        &self.entries[i].1
    }

    pub fn get(&self, name: &str) -> (r: Option<&V>)
        ensures
            match r {
                Some(v) => self@.contains_key(name@) && *v == self@[name@],
                None => !self@.contains_key(name@),
            },
    {
        match self.find(name) {
            Some(i) => Some(&self.entries[i].1),
            None => None,
        }
    }

    /// The value at position `i`, to be changed in place.
    pub fn value_mut(&mut self, i: usize) -> (r: &mut V)
        requires
            i < old(self).names().len(),
        ensures
            *r == old(self).values()[i as int],
            final(self).names() == old(self).names(),
            final(self).values() == old(self).values().update(i as int, *final(r)),
            final(self)@ == old(self)@.insert(old(self).names()[i as int], *final(r)),
    {
        proof {
            use_type_invariant(&*self);
            lemma_value_changes(self.entries@, i as int);
        }
        value_of_pair(&mut self.entries, i)
    }

    /// Gives `name` the value `value`, in place of the one it had, if it had one.
    pub fn insert(&mut self, name: String, value: V)
        ensures
            final(self)@ == old(self)@.insert(name@, value),
            old(self)@.contains_key(name@) ==> final(self).names() == old(self).names(),
            !old(self)@.contains_key(name@) ==> final(self).names() == old(self).names().push(
                name@,
            ) && final(self).values() == old(self).values().push(value),
    {
        match self.find(name.as_str()) {
            Some(i) => {
                let slot = self.value_mut(i);
                *slot = value;
            },
            None => {
                proof {
                    use_type_invariant(&*self);
                }
                let mut entries: Vec<(String, V)> = Vec::new();
                core::mem::swap(&mut self.entries, &mut entries);
                entries.push((name, value));
                proof {
                    lemma_paired_push(old(self).names(), old(self).values(), name@, value);
                    assert(names_of(entries@) =~= old(self).names().push(name@));
                    assert(values_of(entries@) =~= old(self).values().push(value));
                }
                self.entries = entries;
            },
        }
    }

    /// Takes `name` and its value out.
    pub fn remove(&mut self, name: &str) -> (r: Option<V>)
        ensures
            final(self)@ == old(self)@.remove(name@),
            match r {
                Some(v) => old(self)@.contains_key(name@) && v == old(self)@[name@],
                None => !old(self)@.contains_key(name@) && *final(self) == *old(self),
            },
            old(self)@.contains_key(name@) ==> final(self).names() == old(self).names().remove(
                position(old(self).names(), name@),
            ) && final(self).values() == old(self).values().remove(
                position(old(self).names(), name@),
            ),
    {
        match self.find(name) {
            Some(i) => {
                proof {
                    use_type_invariant(&*self);
                }
                let mut entries: Vec<(String, V)> = Vec::new();
                core::mem::swap(&mut self.entries, &mut entries);
                let pair = entries.remove(i);
                proof {
                    lemma_position(old(self).names(), i as int);
                    lemma_paired_remove(old(self).names(), old(self).values(), i as int);
                    assert(names_of(entries@) =~= old(self).names().remove(i as int));
                    assert(values_of(entries@) =~= old(self).values().remove(i as int));
                }
                self.entries = entries;
                Some(pair.1)
            },
            None => {
                assert(self@.remove(name@) =~= self@);
                None
            },
        }
    }
}

} // verus!
