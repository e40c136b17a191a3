//! A map from names to values, kept as a list of entries with distinct names.

use vstd::prelude::*;

verus! {

/// Whether two texts hold the same characters.
pub fn same_text(a: &str, b: &str) -> (r: bool)
    ensures
        r == (a@ == b@),
{
    let x = a.to_owned();
    let y = b.to_owned();
    x == y
}

/// The map that a list of entries makes: each name with its value, a later
/// entry in place of an earlier one of the same name.
pub open spec fn mapped<T>(entries: Seq<(Seq<char>, T)>) -> Map<Seq<char>, T>
    decreases entries.len(),
{
    if entries.len() == 0 {
        Map::empty()
    } else {
        mapped(entries.drop_last()).insert(entries.last().0, entries.last().1)
    }
}

/// Whether `entries` lists `map`: each key of the map once, with its value,
/// and nothing else.
pub open spec fn lists_map<T>(entries: Seq<(Seq<char>, T)>, map: Map<Seq<char>, T>) -> bool {
    &&& forall|i: int|
        0 <= i < entries.len() ==> map.contains_key((#[trigger] entries[i]).0) && map[entries[i].0]
            == entries[i].1
    &&& forall|k: Seq<char>|
        map.contains_key(k) ==> exists|i: int| 0 <= i < entries.len() && (#[trigger] entries[i]).0 == k
    &&& forall|i: int, j: int|
        0 <= i < j < entries.len() ==> (#[trigger] entries[i]).0 != (#[trigger] entries[j]).0
}

/// What a list of entries maps: the keys are the names in the list, and each
/// has the value of the last entry of its name.
pub proof fn lemma_mapped<T>(entries: Seq<(Seq<char>, T)>)
    ensures
        forall|k: Seq<char>|
            mapped(entries).contains_key(k) <==> exists|i: int|
                0 <= i < entries.len() && (#[trigger] entries[i]).0 == k,
        forall|i: int|
            0 <= i < entries.len() && (forall|j: int|
                i < j < entries.len() ==> (#[trigger] entries[j]).0 != entries[i].0) ==> mapped(
                entries,
            )[(#[trigger] entries[i]).0] == entries[i].1,
    decreases entries.len(),
{
    if entries.len() > 0 {
        let front = entries.drop_last();
        let last = entries.last();
        lemma_mapped(front);
        assert forall|k: Seq<char>|
            mapped(entries).contains_key(k) <==> exists|i: int|
                0 <= i < entries.len() && (#[trigger] entries[i]).0 == k by {
            if mapped(entries).contains_key(k) {
                if k == last.0 {
                    assert(entries[entries.len() - 1].0 == k);
                } else {
                    assert(mapped(front).contains_key(k));
                    let i = choose|i: int| 0 <= i < front.len() && (#[trigger] front[i]).0 == k;
                    assert(front[i] == entries[i]);
                }
            }
            if exists|i: int| 0 <= i < entries.len() && (#[trigger] entries[i]).0 == k {
                let i = choose|i: int| 0 <= i < entries.len() && (#[trigger] entries[i]).0 == k;
                if i < front.len() {
                    assert(front[i] == entries[i]);
                    assert(mapped(front).contains_key(k));
                }
            }
        }
        assert forall|i: int|
            0 <= i < entries.len() && (forall|j: int|
                i < j < entries.len() ==> (#[trigger] entries[j]).0 != entries[i].0) implies mapped(
            entries,
        )[(#[trigger] entries[i]).0] == entries[i].1 by {
            if i < front.len() {
                assert(entries[entries.len() - 1].0 != entries[i].0);
                assert(front[i] == entries[i]);
                assert forall|j: int| i < j < front.len() implies (#[trigger] front[j]).0
                    != front[i].0 by {
                    assert(front[j] == entries[j]);
                }
            }
        }
    }
}

/// Every value of the map that a list of entries makes is the value of an
/// entry of that name.
pub proof fn lemma_mapped_values<T>(entries: Seq<(Seq<char>, T)>)
    ensures
        forall|k: Seq<char>| #[trigger]
            mapped(entries).contains_key(k) ==> exists|i: int|
                0 <= i < entries.len() && #[trigger] entries[i] == (k, mapped(entries)[k]),
    decreases entries.len(),
{
    if entries.len() > 0 {
        let front = entries.drop_last();
        let last = entries.last();
        lemma_mapped_values(front);
        assert forall|k: Seq<char>| #[trigger] mapped(entries).contains_key(k) implies exists|i: int|
            0 <= i < entries.len() && #[trigger] entries[i] == (k, mapped(entries)[k]) by {
            if k == last.0 {
                assert(entries[entries.len() - 1] == (k, mapped(entries)[k]));
            } else {
                assert(mapped(front).contains_key(k));
                let i = choose|i: int|
                    0 <= i < front.len() && #[trigger] front[i] == (k, mapped(front)[k]);
                assert(entries[i] == front[i]);
            }
        }
    }
}

/// A map is rebuilt from any list of its entries, whatever their order.
pub proof fn lemma_mapped_listing<T>(entries: Seq<(Seq<char>, T)>, map: Map<Seq<char>, T>)
    requires
        lists_map(entries, map),
    ensures
        mapped(entries) == map,
{
    lemma_mapped(entries);
    assert forall|k: Seq<char>| mapped(entries).contains_key(k) implies #[trigger] map.contains_key(k)
        && mapped(entries)[k] == map[k] by {
        let i = choose|i: int| 0 <= i < entries.len() && (#[trigger] entries[i]).0 == k;
        assert(map.contains_key(entries[i].0));
    }
    assert(mapped(entries) =~= map);
}

/// A finite map keyed by name. No name occurs twice among its entries.
#[derive(Debug)]
pub struct Registry<V> {
    entries: Vec<(String, V)>,
}

impl<V: DeepView> View for Registry<V> {
    type V = Map<Seq<char>, V::V>;

    closed spec fn view(&self) -> Map<Seq<char>, V::V> {
        Map::new(
            |k: Seq<char>| exists|i: int| self.holds_at(i, k),
            |k: Seq<char>| self.entries@[self.slot(k)].1.deep_view(),
        )
    }
}

impl<V> Registry<V> {
    #[verifier::type_invariant]
    closed spec fn distinct(&self) -> bool {
        forall|i: int, j: int|
            0 <= i < j < self.entries@.len() ==> self.entries@[i].0@ != self.entries@[j].0@
    }
}

impl<V: DeepView> Registry<V> {
    closed spec fn holds_at(&self, i: int, k: Seq<char>) -> bool {
        0 <= i < self.entries@.len() && self.entries@[i].0@ == k
    }

    closed spec fn slot(&self, k: Seq<char>) -> int {
        choose|i: int| self.holds_at(i, k)
    }

    proof fn lemma_slot(&self, i: int)
        requires
            self.distinct(),
            0 <= i < self.entries@.len(),
        ensures
            self@.contains_key(self.entries@[i].0@),
            self.slot(self.entries@[i].0@) == i,
            self@[self.entries@[i].0@] == self.entries@[i].1.deep_view(),
    {
        let k = self.entries@[i].0@;
        assert(self.holds_at(i, k));
        let j = self.slot(k);
        assert(self.holds_at(j, k));
        if j < i {
            assert(self.entries@[j].0@ != self.entries@[i].0@);
        } else if i < j {
            assert(self.entries@[i].0@ != self.entries@[j].0@);
        }
    }

    /// An empty map.
    pub fn new() -> (r: Self)
        ensures
            r@ == Map::<Seq<char>, V::V>::empty(),
    {
        let r = Registry { entries: Vec::new() };
        assert(r@ =~= Map::<Seq<char>, V::V>::empty()) by {
            assert forall|k: Seq<char>| !r@.contains_key(k) by {
                if r@.contains_key(k) {
                    let i = choose|i: int| r.holds_at(i, k);
                    assert(r.holds_at(i, k));
                }
            }
        }
        r
    }

    /// Where `key` is stored, if it is.
    fn position(&self, key: &str) -> (r: Option<usize>)
        ensures
            match r {
                Some(i) => self.holds_at(i as int, key@),
                None => !self@.contains_key(key@),
            },
    {
        let mut i: usize = 0;
        while i < self.entries.len()
            invariant
                i <= self.entries@.len(),
                forall|j: int| 0 <= j < i ==> self.entries@[j].0@ != key@,
            decreases self.entries@.len() - i,
        {
            if same_text(self.entries[i].0.as_str(), key) {
                return Some(i);
            }
            i += 1;
        }
        proof {
            if self@.contains_key(key@) {
                let j = choose|j: int| self.holds_at(j, key@);
                assert(self.holds_at(j, key@));
            }
        }
        None
    }

    /// Whether `key` has a value.
    pub fn contains(&self, key: &str) -> (r: bool)
        ensures
            r == self@.contains_key(key@),
    {
        let found = self.position(key);
        proof {
            use_type_invariant(self);
            if let Some(i) = found {
                self.lemma_slot(i as int);
            }
        }
        found.is_some()
    }

    /// The value stored under `key`.
    pub fn get(&self, key: &str) -> (r: Option<&V>)
        ensures
            match r {
                Some(v) => self@.contains_key(key@) && self@[key@] == v.deep_view(),
                None => !self@.contains_key(key@),
            },
    {
        match self.position(key) {
            Some(i) => {
                proof {
                    use_type_invariant(self);
                    self.lemma_slot(i as int);
                }
                Some(&self.entries[i].1)
            },
            None => None,
        }
    }

    /// Stores `value` under `key`, in place of any value that was there.
    pub fn insert(&mut self, key: &str, value: V)
        ensures
            final(self)@ == old(self)@.insert(key@, value.deep_view()),
    {
        proof {
            use_type_invariant(&*self);
        }
        let found = self.position(key);
        let ghost before = *self;
        let mut entries: Vec<(String, V)> = Vec::new();
        core::mem::swap(&mut self.entries, &mut entries);
        match found {
            Some(i) => {
                entries.set(i, (key.to_owned(), value));
                core::mem::swap(&mut self.entries, &mut entries);
                proof {
                    assert(self@ =~= before@.insert(key@, value.deep_view())) by {
                        assert forall|k: Seq<char>|
                            self@.contains_key(k) <==> before@.insert(
                                key@,
                                value.deep_view(),
                            ).contains_key(k) by {
                            if self@.contains_key(k) {
                                let j = choose|j: int| self.holds_at(j, k);
                                assert(self.holds_at(j, k));
                                assert(before.holds_at(j, k));
                            }
                            if before@.contains_key(k) {
                                let j = choose|j: int| before.holds_at(j, k);
                                assert(before.holds_at(j, k));
                                assert(self.holds_at(j, k));
                            }
                            if k == key@ {
                                assert(self.holds_at(i as int, k));
                            }
                        }
                        assert forall|k: Seq<char>| self@.contains_key(k) implies self@[k]
                            == before@.insert(key@, value.deep_view())[k] by {
                            let j = choose|j: int| self.holds_at(j, k);
                            assert(self.holds_at(j, k));
                            self.lemma_slot(j);
                            if j != i {
                                before.lemma_slot(j);
                            }
                        }
                    }
                }
            },
            None => {
                entries.push((key.to_owned(), value));
                proof {
                    assert forall|a: int, b: int| 0 <= a < b < entries@.len() implies entries@[a].0@
                        != entries@[b].0@ by {
                        if b < before.entries@.len() {
                            assert(before.entries@[a].0@ != before.entries@[b].0@);
                        } else {
                            assert(before.holds_at(a, before.entries@[a].0@));
                        }
                    }
                }
                core::mem::swap(&mut self.entries, &mut entries);
                proof {
                    let n = before.entries@.len() as int;
                    assert(self@ =~= before@.insert(key@, value.deep_view())) by {
                        assert forall|k: Seq<char>|
                            self@.contains_key(k) <==> before@.insert(
                                key@,
                                value.deep_view(),
                            ).contains_key(k) by {
                            if self@.contains_key(k) {
                                let j = choose|j: int| self.holds_at(j, k);
                                assert(self.holds_at(j, k));
                                if j < n {
                                    assert(before.holds_at(j, k));
                                }
                            }
                            if before@.contains_key(k) {
                                let j = choose|j: int| before.holds_at(j, k);
                                assert(before.holds_at(j, k));
                                assert(self.holds_at(j, k));
                            }
                            if k == key@ {
                                assert(self.holds_at(n, k));
                            }
                        }
                        assert forall|k: Seq<char>| self@.contains_key(k) implies self@[k]
                            == before@.insert(key@, value.deep_view())[k] by {
                            let j = choose|j: int| self.holds_at(j, k);
                            assert(self.holds_at(j, k));
                            self.lemma_slot(j);
                            if j < n {
                                before.lemma_slot(j);
                            }
                        }
                    }
                }
            },
        }
    }

    /// Takes the value stored under `key` out of the map.
    pub fn remove(&mut self, key: &str) -> (r: Option<V>)
        ensures
            final(self)@ == old(self)@.remove(key@),
            match r {
                Some(v) => old(self)@.contains_key(key@) && old(self)@[key@] == v.deep_view(),
                None => !old(self)@.contains_key(key@),
            },
    {
        proof {
            use_type_invariant(&*self);
        }
        let found = self.position(key);
        let ghost before = *self;
        match found {
            Some(i) => {
                proof {
                    before.lemma_slot(i as int);
                }
                let mut entries: Vec<(String, V)> = Vec::new();
                core::mem::swap(&mut self.entries, &mut entries);
                let taken = entries.remove(i);
                core::mem::swap(&mut self.entries, &mut entries);
                proof {
                    assert(self@ =~= before@.remove(key@)) by {
                        assert forall|k: Seq<char>|
                            self@.contains_key(k) <==> before@.remove(key@).contains_key(k) by {
                            if self@.contains_key(k) {
                                let j = choose|j: int| self.holds_at(j, k);
                                assert(self.holds_at(j, k));
                                let j0 = if j < i { j } else { j + 1 };
                                assert(before.holds_at(j0, k));
                                if k == key@ {
                                    if j0 < i {
                                        assert(before.entries@[j0].0@ != before.entries@[i as int].0@);
                                    } else {
                                        assert(before.entries@[i as int].0@ != before.entries@[j0].0@);
                                    }
                                }
                            }
                            if before@.contains_key(k) && k != key@ {
                                let j = choose|j: int| before.holds_at(j, k);
                                assert(before.holds_at(j, k));
                                let j1 = if j < i { j } else { j - 1 };
                                assert(self.holds_at(j1, k));
                            }
                        }
                        assert forall|k: Seq<char>| self@.contains_key(k) implies self@[k]
                            == before@.remove(key@)[k] by {
                            let j = choose|j: int| self.holds_at(j, k);
                            assert(self.holds_at(j, k));
                            self.lemma_slot(j);
                            let j0 = if j < i { j } else { j + 1 };
                            before.lemma_slot(j0);
                        }
                    }
                }
                Some(taken.1)
            },
            None => {
                assert(self@ =~= before@.remove(key@));
                None
            },
        }
    }

    /// All entries, each key of the map once, in the order of storage.
    pub fn entries(&self) -> (r: &Vec<(String, V)>)
        ensures
            lists_map(r.deep_view(), self@),
    {
        proof {
            use_type_invariant(self);
            let listing = self.entries.deep_view();
            assert forall|i: int| 0 <= i < listing.len() implies self@.contains_key(
                (#[trigger] listing[i]).0,
            ) && self@[listing[i].0] == listing[i].1 by {
                self.lemma_slot(i);
            }
            assert forall|k: Seq<char>| self@.contains_key(k) implies exists|i: int|
                0 <= i < listing.len() && (#[trigger] listing[i]).0 == k by {
                let j = choose|j: int| self.holds_at(j, k);
                assert(self.holds_at(j, k));
                assert(listing[j].0 == k);
            }
            assert forall|i: int, j: int| 0 <= i < j < listing.len() implies (#[trigger] listing[i]).0
                != (#[trigger] listing[j]).0 by {
                assert(self.entries@[i].0@ != self.entries@[j].0@);
            }
        }
        &self.entries
    }

    /// The map that `entries` makes: a later entry replaces an earlier one of
    /// the same name.
    pub fn from_entries(entries: Vec<(String, V)>) -> (r: Self)
        ensures
            r@ == mapped(entries.deep_view()),
    {
        let mut out: Registry<V> = Registry::new();
        let ghost all = entries.deep_view();
        let mut rest = entries;
        let mut taken: Vec<(String, V)> = Vec::new();
        // The entries are moved out from the end, so they are put in order first.
        while rest.len() > 0
            invariant
                rest@.len() + taken@.len() == all.len(),
                forall|i: int| 0 <= i < rest@.len() ==> rest.deep_view()[i] == all[i],
                forall|i: int|
                    0 <= i < taken@.len() ==> taken.deep_view()[i] == all[all.len() - 1 - i],
            decreases rest@.len(),
        {
            let ghost before = rest.deep_view();
            let ghost moved = taken.deep_view();
            let e = rest.pop().unwrap();
            taken.push(e);
            assert forall|i: int| 0 <= i < rest@.len() implies rest.deep_view()[i] == all[i] by {
                assert(rest.deep_view()[i] == before[i]);
            }
            assert forall|i: int| 0 <= i < taken@.len() implies taken.deep_view()[i] == all[all.len()
                - 1 - i] by {
                if i < moved.len() {
                    assert(taken.deep_view()[i] == moved[i]);
                } else {
                    assert(taken.deep_view()[i] == before[before.len() - 1]);
                }
            }
        }
        let ghost n = all.len() as int;
        while taken.len() > 0
            invariant
                n == all.len(),
                taken@.len() <= n,
                forall|i: int| 0 <= i < taken@.len() ==> taken.deep_view()[i] == all[n - 1 - i],
                out@ == mapped(all.take(n - taken@.len())),
            decreases taken@.len(),
        {
            let ghost before = taken.deep_view();
            let e = taken.pop().unwrap();
            proof {
                let at = n - before.len();
                assert(before[before.len() - 1] == all[at]);
                assert((e.0@, e.1.deep_view()) == all[at]);
                let upto = all.take(at + 1);
                assert(upto.drop_last() =~= all.take(at));
                assert(upto.last() == all[at]);
                assert forall|i: int| 0 <= i < taken@.len() implies taken.deep_view()[i] == all[n - 1
                    - i] by {
                    assert(taken.deep_view()[i] == before[i]);
                }
            }
            out.insert(e.0.as_str(), e.1);
        }
        assert(all.take(n) =~= all);
        out
    }
}

} // verus!
