use vstd::prelude::*;

verus! {

/// An insertion-ordered association list keyed by string identifiers.
///
/// Keys are unique; the ghost map mirrors the entries, and the order of the
/// entries is kept by every operation so that paginated reads are stable.
pub struct KeyedVec<V> {
    pub entries: Vec<(String, V)>,
    pub map: Ghost<Map<Seq<char>, V>>,
}

impl<V> View for KeyedVec<V> {
    type V = Map<Seq<char>, V>;

    open spec fn view(&self) -> Map<Seq<char>, V> {
        self.map@
    }
}

impl<V> KeyedVec<V> {
    pub open spec fn key_at(&self, i: int) -> Seq<char> {
        self.entries@[i].0@
    }

    pub open spec fn val_at(&self, i: int) -> V {
        self.entries@[i].1
    }

    /// The keys in storage order.
    pub open spec fn keys(&self) -> Seq<Seq<char>> {
        Seq::new(self.entries@.len(), |i: int| self.entries@[i].0@)
    }

    pub open spec fn wf(&self) -> bool {
        &&& self@.dom().finite()
        &&& self@.len() == self.entries@.len()
        &&& forall|i: int, j: int|
            0 <= i < self.entries@.len() && 0 <= j < self.entries@.len() && i != j
                ==> #[trigger] self.key_at(i) != #[trigger] self.key_at(j)
        &&& forall|i: int|
            0 <= i < self.entries@.len() ==> self@.contains_key(#[trigger] self.key_at(i))
                && self@[self.key_at(i)] == self.val_at(i)
        &&& forall|k: Seq<char>|
            #[trigger] self@.contains_key(k) ==> exists|i: int|
                0 <= i < self.entries@.len() && #[trigger] self.key_at(i) == k
    }

    pub(crate) fn new() -> (r: Self)
        ensures
            r.wf(),
            r@ == Map::<Seq<char>, V>::empty(),
            r.keys() == Seq::<Seq<char>>::empty(),
    {
        let r = KeyedVec { entries: Vec::new(), map: Ghost(Map::empty()) };
        assert(r.keys() =~= Seq::<Seq<char>>::empty());
        r
    }

    pub(crate) fn len(&self) -> (r: usize)
        requires
            self.wf(),
        ensures
            r == self@.len(),
            r == self.keys().len(),
    {
        self.entries.len()
    }

    /// Position of `k` in storage order, if present.
    pub(crate) fn index_of(&self, k: &String) -> (r: Option<usize>)
        requires
            self.wf(),
        ensures
            match r {
                Some(i) => i < self.entries@.len() && self.key_at(i as int) == k@
                    && self@.contains_key(k@),
                None => !self@.contains_key(k@),
            },
    {
        let mut i: usize = 0;
        while i < self.entries.len()
            invariant
                self.wf(),
                i <= self.entries@.len(),
                forall|j: int| 0 <= j < i ==> #[trigger] self.key_at(j) != k@,
            decreases self.entries@.len() - i,
        {
            if self.entries[i].0 == *k {
                assert(self.key_at(i as int) == k@);
                return Some(i);
            }
            i = i + 1;
        }
        None
    }

    pub(crate) fn get(&self, k: &String) -> (r: Option<&V>)
        requires
            self.wf(),
        ensures
            match r {
                Some(v) => self@.contains_key(k@) && *v == self@[k@],
                None => !self@.contains_key(k@),
            },
    {
        match self.index_of(k) {
            Some(i) => Some(&self.entries[i].1),
            None => None,
        }
    }

    /// The entry at position `i` in storage order.
    pub(crate) fn get_at(&self, i: usize) -> (r: (&String, &V))
        requires
            self.wf(),
            i < self.keys().len(),
        ensures
            r.0@ == self.keys()[i as int],
            self@.contains_key(r.0@),
            *r.1 == self@[r.0@],
    {
        let e = &self.entries[i];
        assert(self.key_at(i as int) == self.keys()[i as int]);
        (&e.0, &e.1)
    }

    /// Sets the value of `k`: in place when present, appended otherwise.
    /// Returns whether `k` was present.
    pub(crate) fn insert(&mut self, k: String, v: V) -> (r: bool)
        requires
            old(self).wf(),
        ensures
            final(self).wf(),
            final(self)@ == old(self)@.insert(k@, v),
            r == old(self)@.contains_key(k@),
            r ==> final(self).keys() == old(self).keys(),
            !r ==> final(self).keys() == old(self).keys().push(k@),
    {
        let ghost kv = k@;
        match self.index_of(&k) {
            Some(i) => {
                self.entries.set(i, (k, v));
                self.map = Ghost(self.map@.insert(kv, v));
                proof {
                    assert(self.key_at(i as int) == kv);
                    assert forall|j: int| 0 <= j < self.entries@.len() implies #[trigger] self.key_at(j)
                        == old(self).key_at(j) by {}
                    assert forall|j: int| 0 <= j < self.entries@.len() implies self@.contains_key(
                        #[trigger] self.key_at(j),
                    ) && self@[self.key_at(j)] == self.val_at(j) by {
                        if j != i {
                            assert(old(self).key_at(j) != old(self).key_at(i as int));
                        }
                    }
                    assert forall|q: Seq<char>| #[trigger] self@.contains_key(q) implies exists|j: int|
                        0 <= j < self.entries@.len() && #[trigger] self.key_at(j) == q by {
                        if q == kv {
                            assert(self.key_at(i as int) == q);
                        } else {
                            assert(old(self)@.contains_key(q));
                            let j = choose|j: int|
                                0 <= j < old(self).entries@.len() && #[trigger] old(self).key_at(j)
                                    == q;
                            assert(self.key_at(j) == q);
                        }
                    }
                    assert(self@.dom() =~= old(self)@.dom());
                    assert(self.keys() =~= old(self).keys());
                }
                true
            },
            None => {
                let ghost n = self.entries@.len() as int;
                self.entries.push((k, v));
                self.map = Ghost(self.map@.insert(kv, v));
                proof {
                    assert(self.key_at(n) == kv);
                    assert forall|a: int, b: int|
                        0 <= a < self.entries@.len() && 0 <= b < self.entries@.len() && a != b
                            implies #[trigger] self.key_at(a) != #[trigger] self.key_at(b) by {
                        if a < n && b < n {
                            assert(old(self).key_at(a) != old(self).key_at(b));
                        } else if a < n {
                            assert(old(self)@.contains_key(old(self).key_at(a)));
                        } else if b < n {
                            assert(old(self)@.contains_key(old(self).key_at(b)));
                        }
                    }
                    assert forall|j: int| 0 <= j < self.entries@.len() implies self@.contains_key(
                        #[trigger] self.key_at(j),
                    ) && self@[self.key_at(j)] == self.val_at(j) by {
                        if j < n {
                            assert(old(self).key_at(j) == self.key_at(j));
                            assert(old(self)@.contains_key(old(self).key_at(j)));
                        }
                    }
                    assert forall|q: Seq<char>| #[trigger] self@.contains_key(q) implies exists|j: int|
                        0 <= j < self.entries@.len() && #[trigger] self.key_at(j) == q by {
                        if q == kv {
                            assert(self.key_at(n) == q);
                        } else {
                            assert(old(self)@.contains_key(q));
                            let j = choose|j: int|
                                0 <= j < old(self).entries@.len() && #[trigger] old(self).key_at(j)
                                    == q;
                            assert(self.key_at(j) == q);
                        }
                    }
                    assert(self@.dom() =~= old(self)@.dom().insert(kv));
                    assert(self.keys() =~= old(self).keys().push(kv));
                }
                false
            },
        }
    }

    /// Removes `k`, keeping the order of the other entries.
    pub(crate) fn remove(&mut self, k: &String) -> (r: Option<V>)
        requires
            old(self).wf(),
        ensures
            final(self).wf(),
            final(self)@ == old(self)@.remove(k@),
            match r {
                Some(v) => old(self)@.contains_key(k@) && v == old(self)@[k@] && exists|i: int|
                    0 <= i < old(self).keys().len() && old(self).keys()[i] == k@
                        && final(self).keys() == old(self).keys().remove(i),
                None => !old(self)@.contains_key(k@) && final(self).keys() == old(self).keys(),
            },
    {
        match self.index_of(k) {
            Some(i) => {
                let ghost kv = k@;
                let e = self.entries.remove(i);
                self.map = Ghost(self.map@.remove(kv));
                proof {
                    let o = *old(self);
                    assert forall|j: int| 0 <= j < self.entries@.len() implies #[trigger] self.key_at(j)
                        == if j < i {
                        o.key_at(j)
                    } else {
                        o.key_at(j + 1)
                    } && self.val_at(j) == if j < i {
                        o.val_at(j)
                    } else {
                        o.val_at(j + 1)
                    } by {}
                    assert forall|a: int, b: int|
                        0 <= a < self.entries@.len() && 0 <= b < self.entries@.len() && a != b
                            implies #[trigger] self.key_at(a) != #[trigger] self.key_at(b) by {
                        let a2 = if a < i {
                            a
                        } else {
                            a + 1
                        };
                        let b2 = if b < i {
                            b
                        } else {
                            b + 1
                        };
                        assert(o.key_at(a2) != o.key_at(b2));
                    }
                    assert forall|j: int| 0 <= j < self.entries@.len() implies self@.contains_key(
                        #[trigger] self.key_at(j),
                    ) && self@[self.key_at(j)] == self.val_at(j) by {
                        let j2 = if j < i {
                            j
                        } else {
                            j + 1
                        };
                        assert(o.key_at(j2) != o.key_at(i as int));
                        assert(o@.contains_key(o.key_at(j2)));
                    }
                    assert forall|q: Seq<char>| #[trigger] self@.contains_key(q) implies exists|j: int|
                        0 <= j < self.entries@.len() && #[trigger] self.key_at(j) == q by {
                        assert(o@.contains_key(q));
                        let j = choose|j: int|
                            0 <= j < o.entries@.len() && #[trigger] o.key_at(j) == q;
                        assert(j != i);
                        if j < i {
                            assert(self.key_at(j) == q);
                        } else {
                            assert(self.key_at(j - 1) == q);
                        }
                    }
                    assert(o.keys()[i as int] == kv);
                    assert(self.keys() =~= o.keys().remove(i as int));
                }
                Some(e.1)
            },
            None => {
                proof {
                    assert(old(self)@.remove(k@) =~= old(self)@);
                }
                None
            },
        }
    }
}

impl<V: Copy> KeyedVec<V> {
    /// An entry-for-entry copy.
    pub(crate) fn copy(&self) -> (r: Self)
        requires
            self.wf(),
        ensures
            r.wf(),
            r@ == self@,
            r.keys() == self.keys(),
    {
        let mut entries: Vec<(String, V)> = Vec::new();
        let mut i: usize = 0;
        while i < self.entries.len()
            invariant
                self.wf(),
                i <= self.entries@.len(),
                entries@.len() == i,
                forall|j: int|
                    0 <= j < i ==> (#[trigger] entries@[j]).0@ == self.key_at(j) && entries@[j].1
                        == self.val_at(j),
            decreases self.entries@.len() - i,
        {
            let e = &self.entries[i];
            entries.push((e.0.clone(), e.1));
            i = i + 1;
        }
        let r = KeyedVec { entries, map: Ghost(self.map@) };
        proof {
            assert forall|j: int| 0 <= j < r.entries@.len() implies #[trigger] r.key_at(j)
                == self.key_at(j) && r.val_at(j) == self.val_at(j) by {
                assert(entries@[j].0@ == self.key_at(j));
            }
            assert forall|q: Seq<char>| #[trigger] r@.contains_key(q) implies exists|j: int|
                0 <= j < r.entries@.len() && #[trigger] r.key_at(j) == q by {
                let j = choose|j: int| 0 <= j < self.entries@.len() && #[trigger] self.key_at(j) == q;
                assert(r.key_at(j) == q);
            }
            assert(r.keys() =~= self.keys());
        }
        r
    }
}

} // verus!
