use vstd::prelude::*;

verus! {

/// The most bytes that one read hands out.
pub const READ_CHUNK: u64 = 8192;

/// What a tail-following reader does next, given where it stands.
#[derive(Debug, PartialEq, Eq, Structural)]
pub enum ReadStep {
    /// Read `len` bytes starting at `offset`.
    Read { offset: u64, len: u64 },
    /// Everything is delivered and the writer has committed.
    End,
    /// Everything published so far is delivered; wait for the writer.
    Wait,
}

/// The step of a reader at `offset` of an object with `size` published bytes.
pub open spec fn read_step(offset: u64, size: u64, finished: bool, chunk: u64) -> ReadStep {
    if offset < size {
        ReadStep::Read {
            offset,
            len: if (size - offset) as u64 <= chunk { (size - offset) as u64 } else { chunk },
        }
    } else if finished {
        ReadStep::End
    } else {
        ReadStep::Wait
    }
}

/// Decides the next step of a reader at `offset`: read at most `chunk`
/// published bytes, end once the writer has committed and all is read, or wait.
pub fn plan_read(offset: u64, size: u64, finished: bool, chunk: u64) -> (r: ReadStep)
    ensures
        r == read_step(offset, size, finished, chunk),
{
    if offset < size {
        let available = size - offset;
        let len = if available <= chunk { available } else { chunk };
        ReadStep::Read { offset, len }
    } else if finished {
        ReadStep::End
    } else {
        ReadStep::Wait
    }
}

/// The coordination record of one (item, version): the bytes the writer has
/// published so far, whether it has committed, whether it was dropped
/// without committing, and which admission of that version it belongs to.
pub struct SharedFile {
    data: Vec<u8>,
    finished: bool,
    abandoned: bool,
    generation: u64,
}

impl SharedFile {
    /// The bytes published so far.
    pub closed spec fn bytes(&self) -> Seq<u8> {
        self.data@
    }

    /// Whether the writer has committed; no byte is added afterwards.
    pub closed spec fn finished(&self) -> bool {
        self.finished
    }

    /// Whether the writer was dropped without committing.
    pub closed spec fn abandoned(&self) -> bool {
        self.abandoned
    }

    /// How many times this version was admitted before this object.
    pub closed spec fn generation(&self) -> u64 {
        self.generation
    }

    /// `self` follows `earlier` under the same key: a later admission of the
    /// version replaces an abandoned object by one of a higher generation;
    /// within one generation bytes are only appended and `abandoned` stays;
    /// a committed object is never replaced and its bytes are final.
    pub open spec fn extends(&self, earlier: &SharedFile) -> bool {
        &&& earlier.generation() <= self.generation()
        &&& self.generation() == earlier.generation() ==> {
            &&& earlier.bytes().len() <= self.bytes().len()
            &&& self.bytes().subrange(0, earlier.bytes().len() as int) == earlier.bytes()
            &&& earlier.abandoned() ==> self.abandoned()
        }
        &&& earlier.finished() ==> {
            &&& self.generation() == earlier.generation()
            &&& self.finished()
            &&& self.bytes() == earlier.bytes()
        }
    }

    /// A fresh object of the given generation: no bytes, neither committed
    /// nor abandoned.
    pub fn new(generation: u64) -> (r: Self)
        ensures
            r.bytes() == Seq::<u8>::empty(),
            !r.finished(),
            !r.abandoned(),
            r.generation() == generation,
    {
        SharedFile { data: Vec::new(), finished: false, abandoned: false, generation }
    }

    /// Publishes `chunk` after the bytes already there.
    pub fn append(&mut self, chunk: &[u8])
        requires
            !old(self).finished(),
        ensures
            final(self).bytes() == old(self).bytes() + chunk@,
            final(self).bytes().len() <= u64::MAX,
            !final(self).finished(),
            final(self).abandoned() == old(self).abandoned(),
            final(self).generation() == old(self).generation(),
    {
        crate::metadata::append_bytes(&mut self.data, chunk);
        let _n = self.data.len();
    }

    /// Marks the object committed; its bytes are final from now on.
    pub fn mark_finished(&mut self)
        ensures
            final(self).bytes() == old(self).bytes(),
            final(self).finished(),
            final(self).abandoned() == old(self).abandoned(),
            final(self).generation() == old(self).generation(),
    {
        self.finished = true;
    }

    /// Marks the object as left by a writer that never committed.
    pub fn mark_abandoned(&mut self)
        ensures
            final(self).bytes() == old(self).bytes(),
            final(self).finished() == old(self).finished(),
            final(self).abandoned(),
            final(self).generation() == old(self).generation(),
    {
        self.abandoned = true;
    }

    /// The number of bytes published so far.
    pub fn get_size(&self) -> (r: u64)
        ensures
            r == self.bytes().len(),
    {
        self.data.len() as u64
    }

    /// Whether the writer has committed.
    pub fn is_finished(&self) -> (r: bool)
        ensures
            r == self.finished(),
    {
        self.finished
    }

    /// Whether the writer was dropped without committing.
    pub fn is_abandoned(&self) -> (r: bool)
        ensures
            r == self.abandoned(),
    {
        self.abandoned
    }

    /// Which admission of the version this object belongs to.
    pub fn get_generation(&self) -> (r: u64)
        ensures
            r == self.generation(),
    {
        self.generation
    }

    /// The `len` published bytes that start at `offset`.
    pub fn read_at(&self, offset: u64, len: u64) -> (r: Vec<u8>)
        requires
            offset + len <= self.bytes().len(),
        ensures
            r@ == self.bytes().subrange(offset as int, offset + len),
    {
        let mut out: Vec<u8> = Vec::new();
        let n = self.data.len();
        assert(offset + len <= n);
        let start = offset as usize;
        let end = (offset + len) as usize;
        let mut i: usize = start;
        while i < end
            invariant
                start <= i <= end,
                end <= self.data@.len(),
                start == offset,
                end == offset + len,
                out@ == self.data@.subrange(start as int, i as int),
            decreases end - i,
        {
            out.push(self.data[i]);
            i = i + 1;
            assert(out@ =~= self.data@.subrange(start as int, i as int));
        }
        out
    }
}

} // verus!
