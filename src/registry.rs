use vstd::prelude::*;

verus! {

/// One live object under its key.
pub struct RegistryEntry<V> {
    item_id: String,
    version: u64,
    value: V,
}

impl<V> RegistryEntry<V> {
    pub closed spec fn key(&self) -> (Seq<char>, u64) {
        (self.item_id@, self.version)
    }

    pub closed spec fn val(&self) -> V {
        self.value
    }
}

/// The mapping from (item id, version) to the shared object of that version.
/// Each key appears at most once.
pub struct SharedFileRegistry<V> {
    entries: Vec<RegistryEntry<V>>,
}

impl<V> View for SharedFileRegistry<V> {
    type V = Map<(Seq<char>, u64), V>;

    closed spec fn view(&self) -> Map<(Seq<char>, u64), V> {
        Map::new(
            |k: (Seq<char>, u64)| exists|i: int| 0 <= i < self.entries@.len() && #[trigger] self.entries@[i].key() == k,
            |k: (Seq<char>, u64)| self.entries@[choose|i: int| 0 <= i < self.entries@.len() && #[trigger] self.entries@[i].key() == k].val(),
        )
    }
}

impl<V> SharedFileRegistry<V> {
    /// No key appears twice.
    pub closed spec fn wf(&self) -> bool {
        forall|i: int, j: int|
            0 <= i < j < self.entries@.len() ==> #[trigger] self.entries@[i].key() != #[trigger] self.entries@[j].key()
    }

    proof fn lemma_at(&self, i: int)
        requires
            self.wf(),
            0 <= i < self.entries@.len(),
        ensures
            self@.contains_key(self.entries@[i].key()),
            self@[self.entries@[i].key()] == self.entries@[i].val(),
    {
        let k = self.entries@[i].key();
        assert(self@.dom().contains(k));
        let j = choose|j: int| 0 <= j < self.entries@.len() && #[trigger] self.entries@[j].key() == k;
        assert(j == i);
    }

    /// An empty registry.
    pub fn new() -> (r: Self)
        ensures
            r.wf(),
            r@ == Map::<(Seq<char>, u64), V>::empty(),
    {
        let r = SharedFileRegistry { entries: Vec::new() };
        assert(r@ =~= Map::<(Seq<char>, u64), V>::empty());
        r
    }

    fn find(&self, item_id: &String, version: u64) -> (r: Option<usize>)
        requires
            self.wf(),
        ensures
            match r {
                Some(i) => i < self.entries@.len() && self.entries@[i as int].key() == (item_id@, version),
                None => !self@.contains_key((item_id@, version)),
            },
    {
        let mut i: usize = 0;
        while i < self.entries.len()
            invariant
                i <= self.entries@.len(),
                forall|j: int| 0 <= j < i ==> #[trigger] self.entries@[j].key() != (item_id@, version),
            decreases self.entries@.len() - i,
        {
            let e = &self.entries[i];
            if e.version == version && e.item_id == *item_id {
                return Some(i);
            }
            i = i + 1;
        }
        None
    }

    /// The object registered under (item_id, version), if any.
    pub fn get(&self, item_id: &String, version: u64) -> (r: Option<&V>)
        requires
            self.wf(),
        ensures
            match r {
                Some(v) => self@.contains_key((item_id@, version)) && *v == self@[(item_id@, version)],
                None => !self@.contains_key((item_id@, version)),
            },
    {
        match self.find(item_id, version) {
            Some(i) => {
                proof {
                    self.lemma_at(i as int);
                }
                Some(&self.entries[i].value)
            },
            None => None,
        }
    }

    /// Whether an object is registered under (item_id, version).
    pub fn contains(&self, item_id: &String, version: u64) -> (r: bool)
        requires
            self.wf(),
        ensures
            r == self@.contains_key((item_id@, version)),
    {
        match self.find(item_id, version) {
            Some(i) => {
                proof {
                    self.lemma_at(i as int);
                }
                true
            },
            None => false,
        }
    }

    /// Registers `value` under a key that is not yet present.
    pub fn insert_new(&mut self, item_id: String, version: u64, value: V)
        requires
            old(self).wf(),
            !old(self)@.contains_key((item_id@, version)),
        ensures
            final(self).wf(),
            final(self)@ == old(self)@.insert((item_id@, version), value),
    {
        let ghost k = (item_id@, version);
        let ghost old_entries = self.entries@;
        let e = RegistryEntry { item_id, version, value };
        assert(e.key() == k);
        self.entries.push(e);
        let ghost n = old_entries.len();
        assert forall|i: int, j: int| 0 <= i < j < self.entries@.len() implies
            #[trigger] self.entries@[i].key() != #[trigger] self.entries@[j].key() by {
            if j == n {
                assert(self.entries@[i] == old_entries[i]);
                assert(old(self)@.contains_key(old_entries[i].key())) by {
                    old(self).lemma_at(i);
                }
            }
        }
        assert forall|kk: (Seq<char>, u64)| #[trigger] self@.contains_key(kk) <==> old(self)@.insert(k, value).contains_key(kk) by {
            if kk != k && self@.contains_key(kk) {
                let i = choose|i: int| 0 <= i < self.entries@.len() && #[trigger] self.entries@[i].key() == kk;
                assert(i < n);
                assert(old_entries[i].key() == kk);
            }
            if kk != k && old(self)@.contains_key(kk) {
                let i = choose|i: int| 0 <= i < n && #[trigger] old_entries[i].key() == kk;
                assert(self.entries@[i].key() == kk);
            }
            if kk == k {
                assert(self.entries@[n as int].key() == kk);
            }
        }
        assert forall|kk: (Seq<char>, u64)| #[trigger] self@.contains_key(kk) implies self@[kk] == old(self)@.insert(k, value)[kk] by {
            let i = choose|i: int| 0 <= i < self.entries@.len() && #[trigger] self.entries@[i].key() == kk;
            self.lemma_at(i);
            if i < n {
                assert(self.entries@[i] == old_entries[i]);
                old(self).lemma_at(i);
            }
        }
        assert(self@ =~= old(self)@.insert(k, value));
    }

    /// The object under (item_id, version), registering first the one that
    /// `create_fn` makes where there is none. A failure of `create_fn` is
    /// passed on and leaves the registry as it was.
    pub fn get_or_create<E, F: FnOnce() -> Result<V, E>>(
        &mut self,
        item_id: String,
        version: u64,
        create_fn: F,
    ) -> (r: Result<&V, E>)
        requires
            old(self).wf(),
            create_fn.requires(()),
        ensures
            final(self).wf(),
            old(self)@.contains_key((item_id@, version)) ==> final(self)@ == old(self)@,
            !old(self)@.contains_key((item_id@, version)) ==> match r {
                Ok(_) => exists|v: V|
                    create_fn.ensures((), Ok::<V, E>(v)) && final(self)@ == old(self)@.insert((item_id@, version), v),
                Err(e) => create_fn.ensures((), Err::<V, E>(e)) && final(self)@ == old(self)@,
            },
            old(self)@.contains_key((item_id@, version)) ==> r is Ok,
            r matches Ok(v) ==> *v == final(self)@[(item_id@, version)],
    {
        if !self.contains(&item_id, version) {
            match create_fn() {
                Ok(v) => {
                    let id = item_id.clone();
                    self.insert_new(id, version, v);
                },
                Err(e) => {
                    return Err(e);
                },
            }
        }
        Ok(self.get(&item_id, version).unwrap())
    }

    /// Exchanges the object under (item_id, version) with `value`.
    pub fn swap_value(&mut self, item_id: &String, version: u64, value: &mut V)
        requires
            old(self).wf(),
            old(self)@.contains_key((item_id@, version)),
        ensures
            final(self).wf(),
            final(self)@ == old(self)@.insert((item_id@, version), *old(value)),
            *final(value) == old(self)@[(item_id@, version)],
    {
        let ghost k = (item_id@, version);
        let ghost old_entries = self.entries@;
        let i = match self.find(item_id, version) {
            Some(i) => i,
            None => {
                return;
            },
        };
        proof {
            old(self).lemma_at(i as int);
        }
        std::mem::swap(&mut self.entries[i].value, value);
        assert forall|a: int| 0 <= a < self.entries@.len() && a != i implies #[trigger] self.entries@[a] == old_entries[a] by {}
        assert(self.entries@[i as int].key() == k);
        assert(self.entries@[i as int].val() == *old(value));
        assert forall|a: int, b: int| 0 <= a < b < self.entries@.len() implies
            #[trigger] self.entries@[a].key() != #[trigger] self.entries@[b].key() by {
            assert(self.entries@[a].key() == old_entries[a].key());
            assert(self.entries@[b].key() == old_entries[b].key());
        }
        assert forall|kk: (Seq<char>, u64)| #[trigger] self@.contains_key(kk) <==> old(self)@.contains_key(kk) by {
            if self@.contains_key(kk) {
                let a = choose|a: int| 0 <= a < self.entries@.len() && #[trigger] self.entries@[a].key() == kk;
                assert(old_entries[a].key() == kk);
            }
            if old(self)@.contains_key(kk) {
                let a = choose|a: int| 0 <= a < old_entries.len() && #[trigger] old_entries[a].key() == kk;
                assert(self.entries@[a].key() == kk);
            }
        }
        assert forall|kk: (Seq<char>, u64)| #[trigger] self@.contains_key(kk) implies self@[kk] == old(self)@.insert(k, *old(value))[kk] by {
            let a = choose|a: int| 0 <= a < self.entries@.len() && #[trigger] self.entries@[a].key() == kk;
            self.lemma_at(a);
            if a != i {
                old(self).lemma_at(a);
            }
        }
        assert(self@ =~= old(self)@.insert(k, *old(value)));
    }

    /// Drops the object under (item_id, version), if any.
    pub fn remove(&mut self, item_id: &String, version: u64)
        requires
            old(self).wf(),
        ensures
            final(self).wf(),
            final(self)@ == old(self)@.remove((item_id@, version)),
    {
        let ghost k = (item_id@, version);
        match self.find(item_id, version) {
            None => {
                assert(self@ =~= old(self)@.remove(k));
            },
            Some(i) => {
                let ghost old_entries = self.entries@;
                self.entries.remove(i);
                let ghost n = old_entries.len();
                assert forall|a: int| 0 <= a < self.entries@.len() implies #[trigger] self.entries@[a] == old_entries[if a < i { a } else { a + 1 }] by {}
                assert forall|a: int, b: int| 0 <= a < b < self.entries@.len() implies
                    #[trigger] self.entries@[a].key() != #[trigger] self.entries@[b].key() by {
                    let a2 = if a < i { a } else { a + 1 };
                    let b2 = if b < i { b } else { b + 1 };
                    assert(self.entries@[a] == old_entries[a2]);
                    assert(self.entries@[b] == old_entries[b2]);
                }
                assert forall|kk: (Seq<char>, u64)| #[trigger] self@.contains_key(kk) <==> old(self)@.remove(k).contains_key(kk) by {
                    if self@.contains_key(kk) {
                        let a = choose|a: int| 0 <= a < self.entries@.len() && #[trigger] self.entries@[a].key() == kk;
                        let a2 = if a < i { a } else { a + 1 };
                        assert(self.entries@[a] == old_entries[a2]);
                        assert(old_entries[a2].key() == kk);
                        assert(a2 != i);
                    }
                    if old(self)@.remove(k).contains_key(kk) {
                        let a2 = choose|a: int| 0 <= a < n && #[trigger] old_entries[a].key() == kk;
                        assert(a2 != i);
                        let a = if a2 < i { a2 } else { a2 - 1 };
                        assert(self.entries@[a] == old_entries[a2]);
                        assert(self.entries@[a].key() == kk);
                    }
                }
                assert forall|kk: (Seq<char>, u64)| #[trigger] self@.contains_key(kk) implies self@[kk] == old(self)@[kk] by {
                    let a = choose|a: int| 0 <= a < self.entries@.len() && #[trigger] self.entries@[a].key() == kk;
                    self.lemma_at(a);
                    let a2 = if a < i { a } else { a + 1 };
                    assert(self.entries@[a] == old_entries[a2]);
                    old(self).lemma_at(a2);
                }
                assert(self@ =~= old(self)@.remove(k));
            },
        }
    }
}

} // verus!
