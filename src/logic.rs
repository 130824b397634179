use vstd::prelude::*;
use crate::error::StreamError;
use crate::store::{ItemStore, ReadOutcome, ReaderHandle, WriterHandle};

verus! {

/// One request's stream on the store: a reader or a writer.
pub struct ItemStreamLogic {
    reader: Option<ReaderHandle>,
    writer: Option<WriterHandle>,
}

impl ItemStreamLogic {
    /// The reader of this stream, if it was opened for reading.
    pub closed spec fn reader_of(&self) -> Option<ReaderHandle> {
        self.reader
    }

    /// The writer of this stream, while it is open for writing.
    pub closed spec fn writer_of(&self) -> Option<WriterHandle> {
        self.writer
    }

    /// The stream's handle is good for `store`.
    pub open spec fn valid_in(&self, store: &ItemStore) -> bool {
        &&& self.writer_of() matches Some(w) ==> store.writer_live(&w)
        &&& self.reader_of() matches Some(r) ==> store.reader_valid(&r)
    }

    /// Opens a reader of (item_id, item_version) at its start; `NotFound`
    /// when no object of that version is registered.
    pub fn new_reader(store: &ItemStore, item_id: String, item_version: u64) -> (r: Result<Self, StreamError>)
        requires
            store.wf(),
        ensures
            r is Ok <==> store.objects().contains_key((item_id@, item_version)),
            r is Err ==> r == Err::<Self, StreamError>(StreamError::NotFound),
            r matches Ok(l) ==> l.valid_in(store) && l.writer_of() is None && (l.reader_of() matches Some(h)
                && h.item() == item_id@ && h.spec_version() == item_version && h.spec_offset() == 0
                && h.spec_generation() == store.objects()[(item_id@, item_version)].generation()
                && h.delivered() == Seq::<u8>::empty()),
    {
        let reader = store.open_reader(item_id, item_version)?;
        Ok(ItemStreamLogic { reader: Some(reader), writer: None })
    }

    /// Admits a writer for (item_id, item_version), as the store's
    /// admission rule decides.
    pub fn new_writer(store: &mut ItemStore, item_id: String, item_version: u64) -> (r: Result<Self, StreamError>)
        requires
            old(store).wf(),
        ensures
            final(store).wf(),
            final(store).extends(old(store)),
            r is Ok <==> old(store).admission(item_id@, item_version) is Ok,
            r matches Err(e) ==> old(store).admission(item_id@, item_version) == Err::<(), StreamError>(e)
                && final(store).unchanged_from(old(store)),
            r matches Ok(l) ==> l.valid_in(final(store)) && l.reader_of() is None && (l.writer_of() matches Some(w)
                && w.item() == item_id@ && w.spec_version() == item_version)
                && final(store).admitted_from(old(store), item_id@, item_version),
    {
        let writer = store.open_writer(item_id, item_version)?;
        Ok(ItemStreamLogic { reader: None, writer: Some(writer) })
    }

    /// Appends `chunk` to the stream's object; `NotWriter` when the stream is
    /// not open for writing.
    pub fn write_chunk(&mut self, store: &mut ItemStore, chunk: Vec<u8>) -> (r: Result<(), StreamError>)
        requires
            old(store).wf(),
            old(self).valid_in(old(store)),
        ensures
            final(store).wf(),
            final(store).extends(old(store)),
            *final(self) == *old(self),
            old(self).writer_of() is None ==> r == Err::<(), StreamError>(StreamError::NotWriter)
                && final(store).unchanged_from(old(store)),
            old(self).writer_of() matches Some(w) ==> r is Ok
                && final(store).appended_from(old(store), (w.item(), w.spec_version()), chunk@),
    {
        proof {
            ItemStore::lemma_extends_refl(store);
        }
        match &self.writer {
            Some(w) => {
                store.write_chunk(w, chunk.as_slice());
                Ok(())
            },
            None => Err(StreamError::NotWriter),
        }
    }

    /// The next read of the stream (see `ItemStore::read_chunk`); `NotReader`
    /// when the stream is not open for reading.
    pub fn read_chunk(&mut self, store: &ItemStore) -> (r: Result<ReadOutcome, StreamError>)
        requires
            store.wf(),
            old(self).valid_in(store),
        ensures
            final(self).valid_in(store),
            final(self).writer_of() == old(self).writer_of(),
            old(self).reader_of() is None ==> r == Err::<ReadOutcome, StreamError>(StreamError::NotReader)
                && *final(self) == *old(self),
            old(self).reader_of() matches Some(h) ==> (r matches Ok(o) && final(self).reader_of() matches Some(h2)
                && store.read_result(&h, &h2, o)),
    {
        match &mut self.reader {
            Some(h) => {
                let o = store.read_chunk(h);
                Ok(o)
            },
            None => Err(StreamError::NotReader),
        }
    }

    /// Commits the stream's version when it is open for writing, after which
    /// it is no longer; a stream open for reading has nothing to commit.
    pub fn finalize(&mut self, store: &mut ItemStore) -> (r: Result<(), StreamError>)
        requires
            old(store).wf(),
            old(self).valid_in(old(store)),
        ensures
            r is Ok,
            final(store).wf(),
            final(store).extends(old(store)),
            final(self).reader_of() == old(self).reader_of(),
            final(self).writer_of() is None,
            old(self).writer_of() is None ==> final(store).unchanged_from(old(store)),
            old(self).writer_of() matches Some(w) ==> final(store).committed_from(old(store), w.item(), w.spec_version()),
    {
        proof {
            ItemStore::lemma_extends_refl(store);
        }
        match self.writer.take() {
            Some(w) => {
                store.finalize(w);
                Ok(())
            },
            None => Ok(()),
        }
    }
    /// Drops the stream's writer, if any, without committing: the item's lock
    /// is released and its committed version stays as it was.
    pub fn abandon(&mut self, store: &mut ItemStore)
        requires
            old(store).wf(),
            old(self).valid_in(old(store)),
        ensures
            final(store).wf(),
            final(store).extends(old(store)),
            final(self).reader_of() == old(self).reader_of(),
            final(self).writer_of() is None,
            old(self).writer_of() is None ==> final(store).unchanged_from(old(store)),
            old(self).writer_of() matches Some(w) ==> final(store).abandoned_from(old(store), w.item(), w.spec_version()),
    {
        proof {
            ItemStore::lemma_extends_refl(store);
        }
        if let Some(w) = self.writer.take() {
            store.abandon_writer(w);
        }
    }
}

/// The store's streams as the request handlers see them.
pub struct ItemStreamComponent {
    logic: ItemStreamLogic,
}

impl ItemStreamComponent {
    /// The stream underneath.
    pub closed spec fn logic_of(&self) -> ItemStreamLogic {
        self.logic
    }

    /// Opens a reader of (item_id, item_version); see `ItemStreamLogic::new_reader`.
    pub fn new_reader(store: &ItemStore, item_id: String, item_version: u64) -> (r: Result<Self, StreamError>)
        requires
            store.wf(),
        ensures
            r is Ok <==> store.objects().contains_key((item_id@, item_version)),
            r is Err ==> r == Err::<Self, StreamError>(StreamError::NotFound),
            r matches Ok(c) ==> c.logic_of().valid_in(store) && c.logic_of().writer_of() is None
                && (c.logic_of().reader_of() matches Some(h) && h.item() == item_id@
                && h.spec_version() == item_version && h.spec_offset() == 0
                && h.spec_generation() == store.objects()[(item_id@, item_version)].generation()
                && h.delivered() == Seq::<u8>::empty()),
    {
        let logic = ItemStreamLogic::new_reader(store, item_id, item_version)?;
        Ok(ItemStreamComponent { logic })
    }

    /// Admits a writer for (item_id, item_version); see `ItemStreamLogic::new_writer`.
    pub fn new_writer(store: &mut ItemStore, item_id: String, item_version: u64) -> (r: Result<Self, StreamError>)
        requires
            old(store).wf(),
        ensures
            final(store).wf(),
            final(store).extends(old(store)),
            r is Ok <==> old(store).admission(item_id@, item_version) is Ok,
            r matches Err(e) ==> old(store).admission(item_id@, item_version) == Err::<(), StreamError>(e)
                && final(store).unchanged_from(old(store)),
            r matches Ok(c) ==> c.logic_of().valid_in(final(store)) && c.logic_of().reader_of() is None
                && (c.logic_of().writer_of() matches Some(w) && w.item() == item_id@
                && w.spec_version() == item_version)
                && final(store).admitted_from(old(store), item_id@, item_version),
    {
        let logic = ItemStreamLogic::new_writer(store, item_id, item_version)?;
        Ok(ItemStreamComponent { logic })
    }

    /// Appends `chunk`; see `ItemStreamLogic::write_chunk`.
    pub fn write_chunk(&mut self, store: &mut ItemStore, input_bytes: Vec<u8>) -> (r: Result<(), StreamError>)
        requires
            old(store).wf(),
            old(self).logic_of().valid_in(old(store)),
        ensures
            final(store).wf(),
            final(store).extends(old(store)),
            *final(self) == *old(self),
            old(self).logic_of().writer_of() is None ==> r == Err::<(), StreamError>(StreamError::NotWriter)
                && final(store).unchanged_from(old(store)),
            old(self).logic_of().writer_of() matches Some(w) ==> r is Ok
                && final(store).appended_from(old(store), (w.item(), w.spec_version()), input_bytes@),
    {
        self.logic.write_chunk(store, input_bytes)
    }

    /// The next read; see `ItemStreamLogic::read_chunk`.
    pub fn read_chunk(&mut self, store: &ItemStore) -> (r: Result<ReadOutcome, StreamError>)
        requires
            store.wf(),
            old(self).logic_of().valid_in(store),
        ensures
            final(self).logic_of().valid_in(store),
            final(self).logic_of().writer_of() == old(self).logic_of().writer_of(),
            old(self).logic_of().reader_of() is None ==> r == Err::<ReadOutcome, StreamError>(StreamError::NotReader)
                && *final(self) == *old(self),
            old(self).logic_of().reader_of() matches Some(h) ==> (r matches Ok(o)
                && final(self).logic_of().reader_of() matches Some(h2) && store.read_result(&h, &h2, o)),
    {
        self.logic.read_chunk(store)
    }

    /// Commits the writer, if any; see `ItemStreamLogic::finalize`.
    pub fn finalize(&mut self, store: &mut ItemStore) -> (r: Result<(), StreamError>)
        requires
            old(store).wf(),
            old(self).logic_of().valid_in(old(store)),
        ensures
            r is Ok,
            final(store).wf(),
            final(store).extends(old(store)),
            final(self).logic_of().writer_of() is None,
            old(self).logic_of().writer_of() is None ==> final(store).unchanged_from(old(store)),
            old(self).logic_of().writer_of() matches Some(w)
                ==> final(store).committed_from(old(store), w.item(), w.spec_version()),
    {
        self.logic.finalize(store)
    }

    /// Drops the writer, if any, without committing; see `ItemStreamLogic::abandon`.
    pub fn abandon(&mut self, store: &mut ItemStore)
        requires
            old(store).wf(),
            old(self).logic_of().valid_in(old(store)),
        ensures
            final(store).wf(),
            final(store).extends(old(store)),
            final(self).logic_of().writer_of() is None,
            old(self).logic_of().writer_of() is None ==> final(store).unchanged_from(old(store)),
            final(self).logic_of().reader_of() == old(self).logic_of().reader_of(),
            old(self).logic_of().writer_of() matches Some(w)
                ==> final(store).abandoned_from(old(store), w.item(), w.spec_version()),
    {
        self.logic.abandon(store)
    }
}

} // verus!
