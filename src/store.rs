use vstd::prelude::*;
use crate::error::StreamError;
use crate::items::{ItemState, ItemTable};
use crate::object::{plan_read, read_step, ReadStep, SharedFile, READ_CHUNK};
use crate::registry::SharedFileRegistry;

verus! {

/// The right to append to one (item, version), held from admission to commit.
pub struct WriterHandle {
    item_id: String,
    version: u64,
}

impl WriterHandle {
    pub closed spec fn item(&self) -> Seq<char> {
        self.item_id@
    }

    pub closed spec fn spec_version(&self) -> u64 {
        self.version
    }

    /// The version this writer was admitted for.
    pub fn version(&self) -> (r: u64)
        ensures
            r == self.spec_version(),
    {
        self.version
    }
}

/// A tail-following reader of one object: an (item, version) in one
/// generation.
pub struct ReaderHandle {
    item_id: String,
    version: u64,
    generation: u64,
    offset: u64,
    delivered: Ghost<Seq<u8>>,
}

impl ReaderHandle {
    pub closed spec fn item(&self) -> Seq<char> {
        self.item_id@
    }

    pub closed spec fn spec_version(&self) -> u64 {
        self.version
    }

    /// The generation of the object this reader follows.
    pub closed spec fn spec_generation(&self) -> u64 {
        self.generation
    }

    /// How many bytes this reader has handed out.
    pub closed spec fn spec_offset(&self) -> u64 {
        self.offset
    }

    /// The bytes this reader has handed out, in order.
    pub closed spec fn delivered(&self) -> Seq<u8> {
        self.delivered@
    }

    /// How many bytes this reader has handed out.
    pub fn offset(&self) -> (r: u64)
        ensures
            r == self.spec_offset(),
    {
        self.offset
    }
}

/// What one read hands back.
#[derive(Debug, PartialEq, Eq)]
pub enum ReadOutcome {
    /// The next bytes of the stream.
    Data(Vec<u8>),
    /// The writer has committed and every byte has been handed out.
    End,
    /// Every published byte has been handed out; the writer is still at work.
    Pending,
    /// The writer was dropped without committing: the stream will not go on.
    Abandoned,
}

/// The store: the state of each item (committed version, writer lock) and
/// the registry of shared objects, one per admitted (item, version).
pub struct ItemStore {
    items: ItemTable,
    objects: SharedFileRegistry<SharedFile>,
}

impl ItemStore {
    /// The state of `item`: its committed version and the version whose
    /// writer holds its lock.
    pub closed spec fn item_state(&self, item: Seq<char>) -> ItemState {
        self.items.state(item)
    }

    /// The shared objects, by (item, version).
    pub closed spec fn objects(&self) -> Map<(Seq<char>, u64), SharedFile> {
        self.objects@
    }

    /// A held lock of `item` belongs to a writer whose object is registered,
    /// neither committed nor abandoned, and newer than the committed version.
    closed spec fn lock_ok(&self, item: Seq<char>) -> bool {
        let st = self.items@[item];
        match st.writer {
            Some(v) => {
                &&& self.objects@.contains_key((item, v))
                &&& !self.objects@[(item, v)].finished()
                &&& !self.objects@[(item, v)].abandoned()
                &&& match st.committed {
                    Some(c) => c < v,
                    None => true,
                }
            },
            None => true,
        }
    }

    /// The store's invariant: every held lock is in order, and every
    /// object's size fits in 64 bits.
    pub closed spec fn wf(&self) -> bool {
        &&& self.items.wf()
        &&& self.objects.wf()
        &&& forall|item: Seq<char>| #[trigger] self.items@.contains_key(item) ==> self.lock_ok(item)
        &&& self.sizes_fit()
    }

    /// Every object's size fits in 64 bits.
    pub open spec fn sizes_fit(&self) -> bool {
        forall|k: (Seq<char>, u64)| #[trigger] self.objects().contains_key(k) ==> self.objects()[k].bytes().len() <= u64::MAX
    }

    /// `w` holds the lock of its item.
    pub open spec fn writer_live(&self, w: &WriterHandle) -> bool {
        self.item_state(w.item()).writer == Some(w.spec_version())
    }

    /// The object that `r` follows is registered, in its generation or a
    /// later one; while it is the same, what `r` has handed out is its first
    /// `offset` bytes.
    pub open spec fn reader_valid(&self, r: &ReaderHandle) -> bool {
        let k = (r.item(), r.spec_version());
        &&& self.objects().contains_key(k)
        &&& r.spec_generation() <= self.objects()[k].generation()
        &&& r.spec_generation() == self.objects()[k].generation() ==> {
            &&& r.spec_offset() <= self.objects()[k].bytes().len()
            &&& r.delivered() == self.objects()[k].bytes().subrange(0, r.spec_offset() as int)
        }
    }

    /// Every object of `earlier` is still registered, and follows its
    /// earlier state (see `SharedFile::extends`).
    pub open spec fn extends(&self, earlier: &ItemStore) -> bool {
        forall|k: (Seq<char>, u64)| #[trigger] earlier.objects().contains_key(k) ==> {
            &&& self.objects().contains_key(k)
            &&& self.objects()[k].extends(&earlier.objects()[k])
        }
    }

    /// Every item and every object is as in `before`.
    pub open spec fn unchanged_from(&self, before: &ItemStore) -> bool {
        &&& forall|item: Seq<char>| #[trigger] self.item_state(item) == before.item_state(item)
        &&& self.objects() == before.objects()
    }

    /// The outcome of admitting a writer for (item, version): refused while
    /// another writer holds the item, and when the version is not newer than
    /// the committed one. The object of a version whose writer was dropped
    /// without committing is replaced by a fresh one of the next generation;
    /// `DataLocked` where the version's object is any other (or its
    /// generations are used up).
    pub open spec fn admission(&self, item: Seq<char>, version: u64) -> Result<(), StreamError> {
        let st = self.item_state(item);
        let k = (item, version);
        if st.writer is Some {
            Err(StreamError::MetadataLocked)
        } else if st.committed is Some && version <= st.committed->0 {
            Err(StreamError::StaleVersion { requested: version, committed: st.committed->0 })
        } else if self.objects().contains_key(k) && !(self.objects()[k].abandoned() && !self.objects()[k].finished()
            && self.objects()[k].generation() < u64::MAX) {
            Err(StreamError::DataLocked)
        } else {
            Ok(())
        }
    }

    /// `self` is `before` after admitting a writer for (item, version): the
    /// item is locked by that version, and a fresh object is registered, of
    /// the generation after the one it replaces.
    pub open spec fn admitted_from(&self, before: &ItemStore, item: Seq<char>, version: u64) -> bool {
        let k = (item, version);
        &&& self.item_state(item) == (ItemState { committed: before.item_state(item).committed, writer: Some(version) })
        &&& forall|i: Seq<char>| i != item ==> #[trigger] self.item_state(i) == before.item_state(i)
        &&& self.objects().contains_key(k)
        &&& self.objects()[k].bytes() == Seq::<u8>::empty()
        &&& !self.objects()[k].finished()
        &&& !self.objects()[k].abandoned()
        &&& self.objects()[k].generation() == if before.objects().contains_key(k) {
            before.objects()[k].generation() + 1
        } else {
            0
        }
        &&& forall|kk: (Seq<char>, u64)| kk != k ==>
            #[trigger] self.objects().contains_key(kk) == before.objects().contains_key(kk)
        &&& forall|kk: (Seq<char>, u64)| kk != k && before.objects().contains_key(kk) ==>
            #[trigger] self.objects()[kk] == before.objects()[kk]
    }

    /// `self` is `before` with `chunk` appended to the object under `key`.
    pub open spec fn appended_from(&self, before: &ItemStore, key: (Seq<char>, u64), chunk: Seq<u8>) -> bool {
        &&& forall|item: Seq<char>| #[trigger] self.item_state(item) == before.item_state(item)
        &&& self.objects().dom() == before.objects().dom()
        &&& self.objects()[key].bytes() == before.objects()[key].bytes() + chunk
        &&& !self.objects()[key].finished()
        &&& self.objects()[key].abandoned() == before.objects()[key].abandoned()
        &&& self.objects()[key].generation() == before.objects()[key].generation()
        &&& forall|k: (Seq<char>, u64)| k != key && before.objects().contains_key(k) ==>
            #[trigger] self.objects()[k] == before.objects()[k]
    }

    /// `self` is `before` after committing (item, version): it is the
    /// item's committed version, the item's lock is free, and the object is
    /// finished with its bytes unchanged.
    pub open spec fn committed_from(&self, before: &ItemStore, item: Seq<char>, version: u64) -> bool {
        &&& self.item_state(item) == (ItemState { committed: Some(version), writer: None })
        &&& forall|i: Seq<char>| i != item ==> #[trigger] self.item_state(i) == before.item_state(i)
        &&& self.objects().dom() == before.objects().dom()
        &&& self.objects()[(item, version)].bytes() == before.objects()[(item, version)].bytes()
        &&& self.objects()[(item, version)].finished()
        &&& self.objects()[(item, version)].abandoned() == before.objects()[(item, version)].abandoned()
        &&& self.objects()[(item, version)].generation() == before.objects()[(item, version)].generation()
        &&& forall|k: (Seq<char>, u64)| k != (item, version) && before.objects().contains_key(k) ==>
            #[trigger] self.objects()[k] == before.objects()[k]
    }

    /// `self` is `before` after dropping the writer of (item, version)
    /// without committing: the item's lock is free, its committed version
    /// unchanged, and the object is marked abandoned with its bytes kept.
    pub open spec fn abandoned_from(&self, before: &ItemStore, item: Seq<char>, version: u64) -> bool {
        &&& self.item_state(item) == (ItemState { committed: before.item_state(item).committed, writer: None })
        &&& forall|i: Seq<char>| i != item ==> #[trigger] self.item_state(i) == before.item_state(i)
        &&& self.objects().dom() == before.objects().dom()
        &&& self.objects()[(item, version)].bytes() == before.objects()[(item, version)].bytes()
        &&& self.objects()[(item, version)].finished() == before.objects()[(item, version)].finished()
        &&& self.objects()[(item, version)].abandoned()
        &&& self.objects()[(item, version)].generation() == before.objects()[(item, version)].generation()
        &&& forall|k: (Seq<char>, u64)| k != (item, version) && before.objects().contains_key(k) ==>
            #[trigger] self.objects()[k] == before.objects()[k]
    }

    /// One read of `before` gave `res` and left the reader as `after`:
    /// `Abandoned` where the writer was dropped or the object replaced; else
    /// the next published bytes, at most `READ_CHUNK`, starting where the last
    /// read ended; `End` once the object is finished and all is handed out;
    /// `Pending` while the writer is still at work.
    pub open spec fn read_result(&self, before: &ReaderHandle, after: &ReaderHandle, res: ReadOutcome) -> bool {
        let obj = self.objects()[(before.item(), before.spec_version())];
        &&& self.reader_valid(after)
        &&& after.item() == before.item()
        &&& after.spec_version() == before.spec_version()
        &&& after.spec_generation() == before.spec_generation()
        &&& if obj.generation() != before.spec_generation() || obj.abandoned() {
            &&& res is Abandoned
            &&& after.spec_offset() == before.spec_offset()
            &&& after.delivered() == before.delivered()
        } else {
            match read_step(before.spec_offset(), obj.bytes().len() as u64, obj.finished(), READ_CHUNK) {
                ReadStep::Read { offset, len } => {
                    &&& res matches ReadOutcome::Data(b)
                    &&& b@ == obj.bytes().subrange(offset as int, offset + len)
                    &&& after.spec_offset() == offset + len
                    &&& after.delivered() == before.delivered() + b@
                },
                ReadStep::End => {
                    &&& res is End
                    &&& after.spec_offset() == before.spec_offset()
                    &&& after.delivered() == obj.bytes()
                },
                ReadStep::Wait => {
                    &&& res is Pending
                    &&& after.spec_offset() == before.spec_offset()
                    &&& after.delivered() == before.delivered()
                },
            }
        }
    }

    /// A store extends itself.
    pub proof fn lemma_extends_refl(s: &ItemStore)
        ensures
            s.extends(s),
    {
        assert forall|k: (Seq<char>, u64)| #[trigger] s.objects().contains_key(k) implies
            s.objects()[k].extends(&s.objects()[k]) by {
            assert(s.objects()[k].bytes().subrange(0, s.objects()[k].bytes().len() as int) =~= s.objects()[k].bytes());
        }
    }

    /// A store in order has every object's size fit in 64 bits.
    pub proof fn lemma_sizes_fit(s: &ItemStore)
        requires
            s.wf(),
        ensures
            s.sizes_fit(),
    {
    }

    /// Replacing the object under `k` by one that extends it keeps the store
    /// extending its earlier state.
    proof fn lemma_extends_update(before: &ItemStore, after: &ItemStore, k: (Seq<char>, u64))
        requires
            after.objects() == before.objects().insert(k, after.objects()[k]),
            before.objects().contains_key(k),
            after.objects()[k].extends(&before.objects()[k]),
        ensures
            after.extends(before),
    {
        ItemStore::lemma_extends_refl(before);
    }

    /// An empty store.
    pub fn new() -> (r: Self)
        ensures
            r.wf(),
            forall|item: Seq<char>| #[trigger] r.item_state(item) == crate::items::untouched(),
            r.objects() == Map::<(Seq<char>, u64), SharedFile>::empty(),
    {
        ItemStore { items: ItemTable::new(), objects: SharedFileRegistry::new() }
    }

    /// Admits a writer for (item_id, version), as `admission` decides.
    pub fn open_writer(&mut self, item_id: String, version: u64) -> (r: Result<WriterHandle, StreamError>)
        requires
            old(self).wf(),
        ensures
            final(self).wf(),
            final(self).extends(old(self)),
            r is Ok <==> old(self).admission(item_id@, version) is Ok,
            r matches Err(e) ==> old(self).admission(item_id@, version) == Err::<(), StreamError>(e)
                && final(self).unchanged_from(old(self)),
            r matches Ok(w) ==> w.item() == item_id@ && w.spec_version() == version && final(self).writer_live(&w)
                && final(self).admitted_from(old(self), item_id@, version),
    {
        proof {
            ItemStore::lemma_extends_refl(self);
        }
        let ghost k = (item_id@, version);
        let st = self.items.get(&item_id);
        if st.writer.is_some() {
            return Err(StreamError::MetadataLocked);
        }
        if let Err(e) = crate::metadata::check_version(version, st.committed) {
            return Err(e);
        }
        let ghost old_items = self.items@;
        let ghost old_objects = self.objects@;
        match self.objects.get(&item_id, version) {
            Some(obj) => {
                let generation = obj.get_generation();
                if !(obj.is_abandoned() && !obj.is_finished() && generation < u64::MAX) {
                    return Err(StreamError::DataLocked);
                }
                let mut fresh = SharedFile::new(generation + 1);
                self.objects.swap_value(&item_id, version, &mut fresh);
                assert(self.objects@[k].extends(&old_objects[k]));
                proof {
                    ItemStore::lemma_extends_update(old(self), self, k);
                }
            },
            None => {
                let id = item_id.clone();
                self.objects.insert_new(id, version, SharedFile::new(0));
            },
        }
        self.items.set(&item_id, ItemState { committed: st.committed, writer: Some(version) });
        assert forall|item: Seq<char>| #[trigger] self.items@.contains_key(item) implies self.lock_ok(item) by {
            if item != item_id@ {
                assert(old_items.contains_key(item));
                assert(old(self).lock_ok(item));
            }
        }
        Ok(WriterHandle { item_id, version })
    }

    /// Appends `chunk` to the object of `w` and publishes it to readers.
    pub fn write_chunk(&mut self, w: &WriterHandle, chunk: &[u8])
        requires
            old(self).wf(),
            old(self).writer_live(w),
        ensures
            final(self).wf(),
            final(self).extends(old(self)),
            final(self).appended_from(old(self), (w.item(), w.spec_version()), chunk@),
    {
        proof {
            assert(self.items@.contains_key(w.item_id@));
            assert(self.lock_ok(w.item_id@));
        }
        let ghost k = (w.item_id@, w.version);
        let ghost old_objects = self.objects@;
        let mut obj = SharedFile::new(0);
        self.objects.swap_value(&w.item_id, w.version, &mut obj);
        obj.append(chunk);
        self.objects.swap_value(&w.item_id, w.version, &mut obj);
        assert(self.objects@ =~= old_objects.insert(k, self.objects@[k]));
        assert(self.objects@[k].bytes().subrange(0, old_objects[k].bytes().len() as int) =~= old_objects[k].bytes());
        proof {
            ItemStore::lemma_extends_update(old(self), self, k);
        }
        assert forall|item: Seq<char>| #[trigger] self.items@.contains_key(item) implies self.lock_ok(item) by {
            assert(old(self).lock_ok(item));
        }
        assert(self.objects().dom() =~= old(self).objects().dom());
    }

    /// Commits the version of `w`: the item's committed version becomes it,
    /// its object is marked finished, and the item's lock is released.
    pub fn finalize(&mut self, w: WriterHandle)
        requires
            old(self).wf(),
            old(self).writer_live(&w),
        ensures
            final(self).wf(),
            final(self).extends(old(self)),
            final(self).committed_from(old(self), w.item(), w.spec_version()),
    {
        proof {
            assert(self.items@.contains_key(w.item_id@));
            assert(self.lock_ok(w.item_id@));
        }
        let ghost k = (w.item_id@, w.version);
        let ghost old_objects = self.objects@;
        let ghost old_items = self.items@;
        let mut obj = SharedFile::new(0);
        self.objects.swap_value(&w.item_id, w.version, &mut obj);
        obj.mark_finished();
        self.objects.swap_value(&w.item_id, w.version, &mut obj);
        assert(self.objects@ =~= old_objects.insert(k, self.objects@[k]));
        assert(self.objects@[k].bytes().subrange(0, old_objects[k].bytes().len() as int) =~= old_objects[k].bytes());
        proof {
            ItemStore::lemma_extends_update(old(self), self, k);
        }
        self.items.set(&w.item_id, ItemState { committed: Some(w.version), writer: None });
        assert forall|item: Seq<char>| #[trigger] self.items@.contains_key(item) implies self.lock_ok(item) by {
            if item != w.item_id@ {
                assert(old_items.contains_key(item));
                assert(old(self).lock_ok(item));
            }
        }
        assert(self.objects().dom() =~= old(self).objects().dom());
        assert forall|i: Seq<char>| i != w.item() implies #[trigger] self.item_state(i) == old(self).item_state(i) by {
            assert(self.items@.contains_key(i) == old_items.contains_key(i));
        }
    }

    /// Drops the writer `w` without committing: the item's lock is released,
    /// the committed version is unchanged, and the object is marked
    /// abandoned, so that its readers stop and the version can be admitted
    /// again.
    pub fn abandon_writer(&mut self, w: WriterHandle)
        requires
            old(self).wf(),
            old(self).writer_live(&w),
        ensures
            final(self).wf(),
            final(self).extends(old(self)),
            final(self).abandoned_from(old(self), w.item(), w.spec_version()),
    {
        proof {
            assert(self.items@.contains_key(w.item_id@));
            assert(self.lock_ok(w.item_id@));
        }
        let ghost k = (w.item_id@, w.version);
        let ghost old_objects = self.objects@;
        let ghost old_items = self.items@;
        let mut obj = SharedFile::new(0);
        self.objects.swap_value(&w.item_id, w.version, &mut obj);
        obj.mark_abandoned();
        self.objects.swap_value(&w.item_id, w.version, &mut obj);
        assert(self.objects@ =~= old_objects.insert(k, self.objects@[k]));
        assert(self.objects@[k].bytes().subrange(0, old_objects[k].bytes().len() as int) =~= old_objects[k].bytes());
        proof {
            ItemStore::lemma_extends_update(old(self), self, k);
        }
        let st = self.items.get(&w.item_id);
        self.items.set(&w.item_id, ItemState { committed: st.committed, writer: None });
        assert forall|item: Seq<char>| #[trigger] self.items@.contains_key(item) implies self.lock_ok(item) by {
            if item != w.item_id@ {
                assert(old_items.contains_key(item));
                assert(old(self).lock_ok(item));
            }
        }
        assert(self.objects().dom() =~= old(self).objects().dom());
        assert forall|i: Seq<char>| i != w.item() implies #[trigger] self.item_state(i) == old(self).item_state(i) by {
            assert(self.items@.contains_key(i) == old_items.contains_key(i));
        }
    }

    /// Opens a reader at the start of the current object of (item_id,
    /// version); fails with `NotFound` when no object of that version is
    /// registered.
    pub fn open_reader(&self, item_id: String, version: u64) -> (r: Result<ReaderHandle, StreamError>)
        requires
            self.wf(),
        ensures
            self.objects().contains_key((item_id@, version)) <==> r is Ok,
            r is Err ==> r == Err::<ReaderHandle, StreamError>(StreamError::NotFound),
            r matches Ok(h) ==> (h.item() == item_id@ && h.spec_version() == version && h.spec_offset() == 0
                && h.spec_generation() == self.objects()[(item_id@, version)].generation()
                && h.delivered() == Seq::<u8>::empty() && self.reader_valid(&h)),
    {
        match self.objects.get(&item_id, version) {
            Some(obj) => {
                let generation = obj.get_generation();
                let h = ReaderHandle { item_id, version, generation, offset: 0, delivered: Ghost(Seq::empty()) };
                assert(self.objects()[(h.item(), h.spec_version())].bytes().subrange(0, 0) =~= Seq::<u8>::empty());
                Ok(h)
            },
            None => Err(StreamError::NotFound),
        }
    }

    /// The next step of `r`, as `read_result` states it.
    pub fn read_chunk(&self, r: &mut ReaderHandle) -> (res: ReadOutcome)
        requires
            self.wf(),
            self.reader_valid(old(r)),
        ensures
            self.read_result(old(r), final(r), res),
    {
        let obj = match self.objects.get(&r.item_id, r.version) {
            Some(o) => o,
            None => {
                return ReadOutcome::Abandoned;
            },
        };
        if obj.get_generation() != r.generation || obj.is_abandoned() {
            return ReadOutcome::Abandoned;
        }
        match plan_read(r.offset, obj.get_size(), obj.is_finished(), READ_CHUNK) {
            ReadStep::Read { offset, len } => {
                let b = obj.read_at(offset, len);
                r.offset = offset + len;
                proof {
                    let all = obj.bytes();
                    assert(all.subrange(0, offset + len) =~= all.subrange(0, offset as int) + b@);
                    r.delivered = Ghost(r.delivered@ + b@);
                }
                ReadOutcome::Data(b)
            },
            ReadStep::End => {
                assert(obj.bytes().subrange(0, obj.bytes().len() as int) =~= obj.bytes());
                ReadOutcome::End
            },
            ReadStep::Wait => ReadOutcome::Pending,
        }
    }
}

/// A writer is admitted only for a version newer than its item's committed
/// one, and it alone can commit the item: so each commit raises the item's
/// committed version strictly.
pub proof fn lemma_commit_raises_version(s: &ItemStore, w: &WriterHandle)
    requires
        s.wf(),
        s.writer_live(w),
    ensures
        match s.item_state(w.item()).committed {
            Some(c) => c < w.spec_version(),
            None => true,
        },
{
    assert(s.items@.contains_key(w.item()));
    assert(s.lock_ok(w.item()));
}

/// At most one writer holds an item at any time: two live writers of one
/// item are the same admission.
pub proof fn lemma_single_writer(s: &ItemStore, w1: &WriterHandle, w2: &WriterHandle)
    requires
        s.writer_live(w1),
        s.writer_live(w2),
        w1.item() == w2.item(),
    ensures
        w1.spec_version() == w2.spec_version(),
{
}

/// Stores only move forward: extension is transitive.
pub proof fn lemma_extends_trans(a: &ItemStore, b: &ItemStore, c: &ItemStore)
    requires
        b.extends(a),
        c.extends(b),
    ensures
        c.extends(a),
{
    assert forall|k: (Seq<char>, u64)| #[trigger] a.objects().contains_key(k) implies {
        &&& c.objects().contains_key(k)
        &&& c.objects()[k].extends(&a.objects()[k])
    } by {
        let x = a.objects()[k].bytes();
        let y = b.objects()[k].bytes();
        let z = c.objects()[k].bytes();
        if c.objects()[k].generation() == a.objects()[k].generation() {
            assert(z.subrange(0, x.len() as int) =~= z.subrange(0, y.len() as int).subrange(0, x.len() as int));
        }
    }
}

/// The published size of an object never decreases while it is the same
/// object (a re-admitted abandoned version starts a new generation).
pub proof fn lemma_size_monotone(s1: &ItemStore, s2: &ItemStore, k: (Seq<char>, u64))
    requires
        s2.extends(s1),
        s1.objects().contains_key(k),
    ensures
        s2.objects().contains_key(k),
        s1.objects()[k].generation() <= s2.objects()[k].generation(),
        s2.objects()[k].generation() == s1.objects()[k].generation()
            ==> s1.objects()[k].bytes().len() <= s2.objects()[k].bytes().len(),
{
}

/// What a reader has handed out is a prefix of the bytes its writer
/// appended, in every later state of the store that still holds its object;
/// once the reader has reached the end of a finished object, it is all of
/// them.
pub proof fn lemma_reads_are_prefix(s1: &ItemStore, s2: &ItemStore, r: &ReaderHandle)
    requires
        s1.reader_valid(r),
        s2.extends(s1),
    ensures
        s2.reader_valid(r),
        s2.objects()[(r.item(), r.spec_version())].generation() == r.spec_generation() ==> {
            &&& r.delivered().is_prefix_of(s2.objects()[(r.item(), r.spec_version())].bytes())
            &&& s2.objects()[(r.item(), r.spec_version())].finished()
                && r.spec_offset() == s2.objects()[(r.item(), r.spec_version())].bytes().len()
                ==> r.delivered() == s2.objects()[(r.item(), r.spec_version())].bytes()
        },
{
    let k = (r.item(), r.spec_version());
    if s2.objects()[k].generation() == r.spec_generation() {
        let x = s1.objects()[k].bytes();
        let z = s2.objects()[k].bytes();
        assert(z.subrange(0, r.spec_offset() as int) =~= z.subrange(0, x.len() as int).subrange(0, r.spec_offset() as int));
        assert(x.subrange(0, r.spec_offset() as int) == r.delivered());
        assert(z.subrange(0, z.len() as int) =~= z);
    }
}

/// Once committed, an object's bytes are final: every later state of the
/// store holds exactly those bytes under its key, still finished, in the
/// same generation.
pub proof fn lemma_committed_bytes_final(s1: &ItemStore, s2: &ItemStore, k: (Seq<char>, u64))
    requires
        s2.extends(s1),
        s1.objects().contains_key(k),
        s1.objects()[k].finished(),
    ensures
        s2.objects().contains_key(k),
        s2.objects()[k].bytes() == s1.objects()[k].bytes(),
        s2.objects()[k].finished(),
        s2.objects()[k].generation() == s1.objects()[k].generation(),
{
}

/// Two readers of one object that have both handed out every published byte
/// have handed out the same bytes, however their reads were split; after a
/// commit, a fresh reader that reaches the end matches one that followed the
/// writer.
pub proof fn lemma_readers_agree(s: &ItemStore, r1: &ReaderHandle, r2: &ReaderHandle)
    requires
        s.reader_valid(r1),
        s.reader_valid(r2),
        r1.item() == r2.item(),
        r1.spec_version() == r2.spec_version(),
        r1.spec_generation() == s.objects()[(r1.item(), r1.spec_version())].generation(),
        r2.spec_generation() == s.objects()[(r2.item(), r2.spec_version())].generation(),
        r1.spec_offset() == s.objects()[(r1.item(), r1.spec_version())].bytes().len(),
        r2.spec_offset() == s.objects()[(r2.item(), r2.spec_version())].bytes().len(),
    ensures
        r1.delivered() == r2.delivered(),
        r1.delivered() == s.objects()[(r1.item(), r1.spec_version())].bytes(),
{
    let z = s.objects()[(r1.item(), r1.spec_version())].bytes();
    assert(z.subrange(0, z.len() as int) =~= z);
}

} // verus!
