//! Stock snapshots: a finite mapping from stock names to quantities.

use vstd::prelude::*;

verus! {

/// The quantity that a snapshot holds of `name`: names outside the key set hold 0.
pub open spec fn quantity(m: Map<Seq<char>, nat>, name: Seq<char>) -> nat {
    if m.dom().contains(name) {
        m[name]
    } else {
        0
    }
}

/// `entries` holds `key` at some position.
pub open spec fn has_name(entries: Seq<(String, u64)>, key: Seq<char>) -> bool {
    exists|i: int| 0 <= i < entries.len() && (#[trigger] entries[i]).0@ == key
}

/// A position at which `entries` holds `key`.
pub open spec fn position_of(entries: Seq<(String, u64)>, key: Seq<char>) -> int {
    choose|i: int| 0 <= i < entries.len() && (#[trigger] entries[i]).0@ == key
}

/// No name occurs at two positions.
pub open spec fn distinct_names(entries: Seq<(String, u64)>) -> bool {
    forall|i: int, j: int|
        0 <= i < entries.len() && 0 <= j < entries.len() && (#[trigger] entries[i]).0@ == (
        #[trigger] entries[j]).0@ ==> i == j
}

/// A stock snapshot. Names are kept in the order in which they were first set.
#[derive(Debug)]
pub struct Stocks {
    entries: Vec<(String, u64)>,
}

impl View for Stocks {
    type V = Map<Seq<char>, nat>;

    closed spec fn view(&self) -> Map<Seq<char>, nat> {
        Map::new(
            |k: Seq<char>| has_name(self.entries@, k),
            |k: Seq<char>| self.entries@[position_of(self.entries@, k)].1 as nat,
        )
    }
}

impl Stocks {
    /// The invariant of the type: no name occurs twice.
    #[verifier::type_invariant]
    pub closed spec fn wf(self) -> bool {
        distinct_names(self.entries@)
    }

    /// The names of the snapshot, in order of first appearance.
    pub closed spec fn keys(&self) -> Seq<Seq<char>> {
        Seq::new(self.entries@.len(), |i: int| self.entries@[i].0@)
    }

    /// The quantities of the snapshot, in the order of `keys`.
    pub closed spec fn values(&self) -> Seq<u64> {
        Seq::new(self.entries@.len(), |i: int| self.entries@[i].1)
    }

    /// `keys` lists the key set without repetition, and `values` the quantities beside it.
    pub proof fn lemma_keys(&self)
        requires
            self.wf(),
        ensures
            self.keys().len() == self.values().len(),
            self.keys().no_duplicates(),
            forall|k: Seq<char>| self@.dom().contains(k) <==> self.keys().contains(k),
            forall|i: int|
                0 <= i < self.keys().len() ==> self@[#[trigger] self.keys()[i]]
                    == self.values()[i],
    {
        assert forall|k: Seq<char>| self@.dom().contains(k) implies self.keys().contains(k) by {
            let i = position_of(self.entries@, k);
            assert(self.keys()[i] == k);
        }
        assert forall|k: Seq<char>| self.keys().contains(k) implies self@.dom().contains(k) by {
            let i = choose|i: int| 0 <= i < self.keys().len() && self.keys()[i] == k;
            assert(self.entries@[i].0@ == k);
        }
        assert forall|i: int| 0 <= i < self.keys().len() implies self@[#[trigger] self.keys()[i]]
            == self.values()[i] by {
            let k = self.keys()[i];
            assert(self.entries@[i].0@ == k);
            let j = position_of(self.entries@, k);
            assert(i == j);
        }
    }

    /// No quantity of a snapshot exceeds the machine's range.
    pub proof fn lemma_bounded(&self, k: Seq<char>)
        ensures
            quantity(self@, k) <= u64::MAX,
    {
    }

    /// The empty snapshot.
    pub fn new() -> (s: Stocks)
        ensures
            s@ == Map::<Seq<char>, nat>::empty(),
            s.keys() == Seq::<Seq<char>>::empty(),
    {
        let s = Stocks { entries: Vec::new() };
        assert(s@ =~= Map::<Seq<char>, nat>::empty());
        assert(s.keys() =~= Seq::<Seq<char>>::empty());
        s
    }

    /// The number of names in the key set.
    pub fn len(&self) -> (n: usize)
        ensures
            n == self.keys().len(),
    {
        self.entries.len()
    }

    /// The position of `name` in `keys`, if the snapshot holds it.
    pub fn find(&self, name: &String) -> (r: Option<usize>)
        ensures
            match r {
                Some(i) => i < self.keys().len() && self.keys()[i as int] == name@,
                None => !self@.dom().contains(name@),
            },
            r is Some <==> self@.dom().contains(name@),
    {
        let mut i: usize = 0;
        while i < self.entries.len()
            invariant
                i <= self.entries@.len(),
                forall|j: int| 0 <= j < i ==> self.entries@[j].0@ != name@,
            decreases self.entries@.len() - i,
        {
            if self.entries[i].0 == *name {
                assert(self.keys()[i as int] == name@);
                assert(self.entries@[i as int].0@ == name@);
                return Some(i);
            }
            i += 1;
        }
        None
    }

    /// Whether `name` is in the key set.
    pub fn contains(&self, name: &String) -> (b: bool)
        ensures
            b == self@.dom().contains(name@),
    {
        self.find(name).is_some()
    }

    /// The quantity held of `name`, 0 for a name outside the key set.
    pub fn get(&self, name: &String) -> (q: u64)
        ensures
            q == quantity(self@, name@),
    {
        match self.find(name) {
            Some(i) => {
                proof {
                    use_type_invariant(self);
                    self.lemma_keys();
                }
                self.entries[i].1
            },
            None => 0,
        }
    }

    /// The name at position `i` of `keys`.
    pub fn name_at(&self, i: usize) -> (name: &String)
        requires
            i < self.keys().len(),
        ensures
            name@ == self.keys()[i as int],
    {
        &self.entries[i].0
    }

    /// The quantity at position `i` of `values`.
    pub fn amount_at(&self, i: usize) -> (q: u64)
        requires
            i < self.keys().len(),
        ensures
            q == self.values()[i as int],
            q == self@[self.keys()[i as int]],
            self@.dom().contains(self.keys()[i as int]),
    {
        proof {
            use_type_invariant(self);
            self.lemma_keys();
            assert(self.keys().contains(self.keys()[i as int]));
        }
        self.entries[i].1
    }

    /// Sets the quantity of `name`, adding the name to the key set if it is new.
    pub fn set(&mut self, name: String, qty: u64)
        ensures
            final(self)@ == old(self)@.insert(name@, qty as nat),
            old(self)@.dom().contains(name@) ==> final(self).keys() == old(self).keys(),
            !old(self)@.dom().contains(name@) ==> final(self).keys() == old(self).keys().push(
                name@,
            ),
    {
        proof {
            use_type_invariant(&*self);
        }
        let found = self.find(&name);
        let mut held = Stocks { entries: Vec::new() };
        std::mem::swap(self, &mut held);
        let mut entries = held.entries;
        let ghost before = entries@;
        match found {
            Some(i) => {
                assert(before[i as int].0@ == old(self).keys()[i as int]);
                entries.set(i, (name, qty));
                assert forall|k: Seq<char>| has_name(entries@, k) == has_name(before, k) by {
                    if has_name(before, k) {
                        let j = position_of(before, k);
                        assert(entries@[j].0@ == k);
                    }
                    if has_name(entries@, k) {
                        let j = position_of(entries@, k);
                        assert(before[j].0@ == k);
                    }
                }
                assert forall|k: Seq<char>| has_name(before, k) implies position_of(entries@, k)
                    == position_of(before, k) by {
                    let j = position_of(before, k);
                    let l = position_of(entries@, k);
                    assert(before[l].0@ == k);
                }
                assert(distinct_names(entries@)) by {
                    assert forall|a: int, b: int|
                        0 <= a < entries@.len() && 0 <= b < entries@.len() && (
                        #[trigger] entries@[a]).0@ == (#[trigger] entries@[b]).0@ implies a
                        == b by {
                        assert(before[a].0@ == before[b].0@);
                    }
                }
            },
            None => {
                entries.push((name, qty));
                assert forall|k: Seq<char>| has_name(entries@, k) == (has_name(before, k) || k
                    == name@) by {
                    if has_name(before, k) {
                        let j = position_of(before, k);
                        assert(entries@[j].0@ == k);
                    }
                    if k == name@ {
                        assert(entries@[before.len() as int].0@ == k);
                    }
                    if has_name(entries@, k) {
                        let j = position_of(entries@, k);
                        if j < before.len() {
                            assert(before[j].0@ == k);
                        }
                    }
                }
                assert forall|k: Seq<char>| has_name(before, k) implies position_of(entries@, k)
                    == position_of(before, k) by {
                    let j = position_of(before, k);
                    assert(entries@[j].0@ == k);
                    let l = position_of(entries@, k);
                    if l < before.len() {
                        assert(before[l].0@ == k);
                    }
                }
                assert(distinct_names(entries@)) by {
                    assert forall|a: int, b: int|
                        0 <= a < entries@.len() && 0 <= b < entries@.len() && (
                        #[trigger] entries@[a]).0@ == (#[trigger] entries@[b]).0@ implies a
                        == b by {
                        if a < before.len() {
                            assert(before[a].0@ == entries@[a].0@);
                        }
                        if b < before.len() {
                            assert(before[b].0@ == entries@[b].0@);
                        }
                    }
                }
            },
        }
        *self = Stocks { entries };
        assert(self.entries@[position_of(self.entries@, name@)].0@ == name@) by {
            assert(has_name(self.entries@, name@));
        }
        assert(self@ =~= old(self)@.insert(name@, qty as nat));
        assert(old(self)@.dom().contains(name@) ==> self.keys() =~= old(self).keys());
        assert(!old(self)@.dom().contains(name@) ==> self.keys() =~= old(self).keys().push(name@));
    }

    /// A copy of the snapshot, with the names in the same order.
    pub fn duplicate(&self) -> (copy: Stocks)
        ensures
            copy@ == self@,
            copy.keys() == self.keys(),
            copy.values() == self.values(),
    {
        proof {
            use_type_invariant(self);
        }
        let mut entries: Vec<(String, u64)> = Vec::new();
        let mut i: usize = 0;
        while i < self.entries.len()
            invariant
                i <= self.entries@.len(),
                entries@.len() == i,
                forall|j: int|
                    0 <= j < i ==> (#[trigger] entries@[j]).0@ == self.entries@[j].0@
                        && entries@[j].1 == self.entries@[j].1,
            decreases self.entries@.len() - i,
        {
            entries.push((self.entries[i].0.clone(), self.entries[i].1));
            i += 1;
        }
        proof {
            assert forall|k: Seq<char>| has_name(entries@, k) == has_name(self.entries@, k) by {
                if has_name(self.entries@, k) {
                    let j = position_of(self.entries@, k);
                    assert(entries@[j].0@ == k);
                }
                if has_name(entries@, k) {
                    let j = position_of(entries@, k);
                    assert(self.entries@[j].0@ == k);
                }
            }
            assert forall|k: Seq<char>| has_name(entries@, k) implies position_of(entries@, k)
                == position_of(self.entries@, k) by {
                let j = position_of(entries@, k);
                let l = position_of(self.entries@, k);
                assert(self.entries@[j].0@ == k);
            }
            assert forall|a: int, b: int|
                0 <= a < entries@.len() && 0 <= b < entries@.len() && (#[trigger] entries@[a]).0@
                    == (#[trigger] entries@[b]).0@ implies a == b by {
                assert(self.entries@[a].0@ == self.entries@[b].0@);
            }
        }
        let copy = Stocks { entries };
        assert(copy@ =~= self@);
        assert(copy.keys() =~= self.keys());
        assert(copy.values() =~= self.values());
        copy
    }

    /// Whether every name of `self` is a name of `other` with the same quantity.
    pub fn included_in(&self, other: &Stocks) -> (b: bool)
        ensures
            b <==> forall|k: Seq<char>| #[trigger]
                self@.dom().contains(k) ==> other@.dom().contains(k) && other@[k] == self@[k],
    {
        proof {
            use_type_invariant(self);
            use_type_invariant(other);
            self.lemma_keys();
            other.lemma_keys();
        }
        let mut i: usize = 0;
        while i < self.len()
            invariant
                i <= self.keys().len(),
                self.keys().len() == self.values().len(),
                forall|j: int|
                    0 <= j < i ==> other@.dom().contains(#[trigger] self.keys()[j]) && other@[self.keys()[j]]
                        == self@[self.keys()[j]],
            decreases self.keys().len() - i,
        {
            let q = self.amount_at(i);
            match other.find(self.name_at(i)) {
                None => {
                    return false;
                },
                Some(j) => {
                    if other.amount_at(j) != q {
                        return false;
                    }
                },
            }
            i += 1;
        }
        proof {
            assert forall|k: Seq<char>| #[trigger] self@.dom().contains(k) implies other@.dom().contains(k)
                && other@[k] == self@[k] by {
                assert(self.keys().contains(k));
                let j = choose|j: int| 0 <= j < self.keys().len() && self.keys()[j] == k;
                assert(other@.dom().contains(self.keys()[j]));
            }
        }
        true
    }

    /// Whether two snapshots have the same key set and the same quantities.
    pub fn same_as(&self, other: &Stocks) -> (b: bool)
        ensures
            b <==> self@ == other@,
    {
        let b = self.included_in(other) && other.included_in(self);
        proof {
            if b {
                assert(self@ =~= other@);
            }
        }
        b
    }
}

} // verus!
