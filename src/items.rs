use vstd::prelude::*;

verus! {

/// What the store knows of one item: its committed version, and the version
/// of the writer that holds its lock.
#[derive(Clone, Copy, Debug, PartialEq, Eq, Structural)]
pub struct ItemState {
    pub committed: Option<u64>,
    pub writer: Option<u64>,
}

/// The state of an item that nothing has been done to.
pub open spec fn untouched() -> ItemState {
    ItemState { committed: None, writer: None }
}

struct ItemRow {
    item_id: String,
    state: ItemState,
}

/// The per-item table of the store. Each item appears at most once.
pub struct ItemTable {
    rows: Vec<ItemRow>,
}

impl View for ItemTable {
    type V = Map<Seq<char>, ItemState>;

    closed spec fn view(&self) -> Map<Seq<char>, ItemState> {
        Map::new(
            |k: Seq<char>| exists|i: int| 0 <= i < self.rows@.len() && #[trigger] self.rows@[i].item_id@ == k,
            |k: Seq<char>| self.rows@[choose|i: int| 0 <= i < self.rows@.len() && #[trigger] self.rows@[i].item_id@ == k].state,
        )
    }
}

impl ItemTable {
    /// No item appears twice.
    pub closed spec fn wf(&self) -> bool {
        forall|i: int, j: int|
            0 <= i < j < self.rows@.len() ==> #[trigger] self.rows@[i].item_id@ != #[trigger] self.rows@[j].item_id@
    }

    /// The state of `item`, untouched where the table has no row for it.
    pub open spec fn state(&self, item: Seq<char>) -> ItemState {
        if self@.contains_key(item) {
            self@[item]
        } else {
            untouched()
        }
    }

    proof fn lemma_at(&self, i: int)
        requires
            self.wf(),
            0 <= i < self.rows@.len(),
        ensures
            self@.contains_key(self.rows@[i].item_id@),
            self@[self.rows@[i].item_id@] == self.rows@[i].state,
    {
        let k = self.rows@[i].item_id@;
        assert(self@.dom().contains(k));
        let j = choose|j: int| 0 <= j < self.rows@.len() && #[trigger] self.rows@[j].item_id@ == k;
        assert(j == i);
    }

    /// An empty table.
    pub fn new() -> (r: Self)
        ensures
            r.wf(),
            r@ == Map::<Seq<char>, ItemState>::empty(),
    {
        let r = ItemTable { rows: Vec::new() };
        assert(r@ =~= Map::<Seq<char>, ItemState>::empty());
        r
    }

    fn find(&self, item_id: &String) -> (r: Option<usize>)
        requires
            self.wf(),
        ensures
            match r {
                Some(i) => i < self.rows@.len() && self.rows@[i as int].item_id@ == item_id@,
                None => !self@.contains_key(item_id@),
            },
    {
        let mut i: usize = 0;
        while i < self.rows.len()
            invariant
                i <= self.rows@.len(),
                forall|j: int| 0 <= j < i ==> #[trigger] self.rows@[j].item_id@ != item_id@,
            decreases self.rows@.len() - i,
        {
            if self.rows[i].item_id == *item_id {
                return Some(i);
            }
            i = i + 1;
        }
        None
    }

    /// The state of `item_id`.
    pub fn get(&self, item_id: &String) -> (r: ItemState)
        requires
            self.wf(),
        ensures
            r == self.state(item_id@),
    {
        match self.find(item_id) {
            Some(i) => {
                proof {
                    self.lemma_at(i as int);
                }
                self.rows[i].state
            },
            None => ItemState { committed: None, writer: None },
        }
    }

    /// Records `state` as the state of `item_id`.
    pub fn set(&mut self, item_id: &String, state: ItemState)
        requires
            old(self).wf(),
        ensures
            final(self).wf(),
            final(self)@ == old(self)@.insert(item_id@, state),
    {
        let ghost k = item_id@;
        let ghost old_rows = self.rows@;
        let ghost n = old_rows.len();
        match self.find(item_id) {
            Some(i) => {
                proof {
                    old(self).lemma_at(i as int);
                }
                self.rows[i].state = state;
                assert forall|a: int| 0 <= a < self.rows@.len() && a != i implies #[trigger] self.rows@[a] == old_rows[a] by {}
                assert(self.rows@[i as int].item_id@ == k);
                assert forall|a: int, b: int| 0 <= a < b < self.rows@.len() implies
                    #[trigger] self.rows@[a].item_id@ != #[trigger] self.rows@[b].item_id@ by {
                    assert(self.rows@[a].item_id@ == old_rows[a].item_id@);
                    assert(self.rows@[b].item_id@ == old_rows[b].item_id@);
                }
                assert forall|kk: Seq<char>| #[trigger] self@.contains_key(kk) <==> old(self)@.contains_key(kk) by {
                    if self@.contains_key(kk) {
                        let a = choose|a: int| 0 <= a < self.rows@.len() && #[trigger] self.rows@[a].item_id@ == kk;
                        assert(old_rows[a].item_id@ == kk);
                    }
                    if old(self)@.contains_key(kk) {
                        let a = choose|a: int| 0 <= a < n && #[trigger] old_rows[a].item_id@ == kk;
                        assert(self.rows@[a].item_id@ == kk);
                    }
                }
                assert forall|kk: Seq<char>| #[trigger] self@.contains_key(kk) implies self@[kk] == old(self)@.insert(k, state)[kk] by {
                    let a = choose|a: int| 0 <= a < self.rows@.len() && #[trigger] self.rows@[a].item_id@ == kk;
                    self.lemma_at(a);
                    if a != i {
                        old(self).lemma_at(a);
                    }
                }
                assert(self@ =~= old(self)@.insert(k, state));
            },
            None => {
                let id = item_id.clone();
                self.rows.push(ItemRow { item_id: id, state });
                assert(self.rows@[n as int].item_id@ == k);
                assert forall|i: int, j: int| 0 <= i < j < self.rows@.len() implies
                    #[trigger] self.rows@[i].item_id@ != #[trigger] self.rows@[j].item_id@ by {
                    if j == n {
                        assert(self.rows@[i] == old_rows[i]);
                        old(self).lemma_at(i);
                    }
                }
                assert forall|kk: Seq<char>| #[trigger] self@.contains_key(kk) <==> old(self)@.insert(k, state).contains_key(kk) by {
                    if kk != k && self@.contains_key(kk) {
                        let i = choose|i: int| 0 <= i < self.rows@.len() && #[trigger] self.rows@[i].item_id@ == kk;
                        assert(i < n);
                        assert(old_rows[i].item_id@ == kk);
                    }
                    if kk != k && old(self)@.contains_key(kk) {
                        let i = choose|i: int| 0 <= i < n && #[trigger] old_rows[i].item_id@ == kk;
                        assert(self.rows@[i].item_id@ == kk);
                    }
                }
                assert forall|kk: Seq<char>| #[trigger] self@.contains_key(kk) implies self@[kk] == old(self)@.insert(k, state)[kk] by {
                    let i = choose|i: int| 0 <= i < self.rows@.len() && #[trigger] self.rows@[i].item_id@ == kk;
                    self.lemma_at(i);
                    if i < n {
                        assert(self.rows@[i] == old_rows[i]);
                        old(self).lemma_at(i);
                    }
                }
                assert(self@ =~= old(self)@.insert(k, state));
            },
        }
    }
}

} // verus!
