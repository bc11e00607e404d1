use vstd::prelude::*;
use crate::chunked::{bit_at, clear_bitmap, lemma_with_bit, with_bit, ChunkFileView, File, FileChunk, MAX_CHUNKS};
use crate::error::BridgeError;

verus! {

/// The chunked files of one instance, by name, and the chunks written so far,
/// by file name and chunk index.
pub struct ChunkStore {
    files: Vec<File>,
    slots: Vec<Slot>,
}

/// One stored chunk with its key.
struct Slot {
    name: String,
    idx: u8,
    chunk: FileChunk,
}

/// The mathematical value of a [`ChunkStore`]. `chunks[i]` is stored under `keys[i]`.
pub struct StoreModel {
    pub files: Seq<ChunkFileView>,
    pub keys: Seq<(Seq<char>, u8)>,
    pub chunks: Seq<Seq<u8>>,
}

impl StoreModel {
    /// The names of the files, in the order in which they were created.
    pub open spec fn names(self) -> Seq<Seq<char>> {
        Seq::new(self.files.len(), |i: int| self.files[i].name)
    }

    /// No name and no chunk key is bound twice, every chunk has a key, and
    /// bitmaps and chunks have their fixed sizes.
    pub open spec fn wf(self) -> bool {
        &&& self.names().no_duplicates()
        &&& self.keys.no_duplicates()
        &&& self.keys.len() == self.chunks.len()
        &&& forall|i: int| 0 <= i < self.files.len() ==> (#[trigger] self.files[i]).bitmap.len() == 32
        &&& forall|i: int| 0 <= i < self.chunks.len() ==> (#[trigger] self.chunks[i]).len() == 512
    }

    /// Whether a file named `name` exists.
    pub open spec fn has(self, name: Seq<char>) -> bool {
        self.names().contains(name)
    }

    /// The place of the file named `name`.
    pub open spec fn slot(self, name: Seq<char>) -> int {
        self.names().index_of(name)
    }

    /// The presence bitmap of the file named `name`.
    pub open spec fn bitmap_of(self, name: Seq<char>) -> Seq<u8>
        recommends
            self.has(name),
    {
        self.files[self.slot(name)].bitmap
    }

    /// Whether a chunk is stored for `name` at `idx`.
    pub open spec fn has_chunk(self, name: Seq<char>, idx: u8) -> bool {
        self.keys.contains((name, idx))
    }

    /// The chunk stored for `name` at `idx`.
    pub open spec fn chunk_of(self, name: Seq<char>, idx: u8) -> Seq<u8>
        recommends
            self.has_chunk(name, idx),
    {
        self.chunks[self.keys.index_of((name, idx))]
    }

    /// The store after `name` is created: a new file with a clear bitmap after
    /// all others, or, where the name exists, that file with its bitmap cleared.
    pub open spec fn created(self, name: Seq<char>) -> StoreModel {
        let fresh = ChunkFileView { name, bitmap: clear_bitmap() };
        if self.has(name) {
            StoreModel { files: self.files.update(self.slot(name), fresh), ..self }
        } else {
            StoreModel { files: self.files.push(fresh), ..self }
        }
    }

    /// The store after `data` is written as chunk `idx` of `name`: the bit for
    /// `idx` is set, and the chunk is stored in place of an earlier one, or
    /// after all others where there was none.
    pub open spec fn written(self, name: Seq<char>, idx: u8, data: Seq<u8>) -> StoreModel
        recommends
            self.has(name),
    {
        let files = self.files.update(
            self.slot(name),
            ChunkFileView { name, bitmap: with_bit(self.bitmap_of(name), idx as int) },
        );
        if self.has_chunk(name, idx) {
            StoreModel {
                files,
                keys: self.keys,
                chunks: self.chunks.update(self.keys.index_of((name, idx)), data),
            }
        } else {
            StoreModel { files, keys: self.keys.push((name, idx)), chunks: self.chunks.push(data) }
        }
    }
}

/// What writing chunk `idx` of `name` returns.
pub open spec fn chunk_outcome(v: StoreModel, name: Seq<char>, idx: u16) -> Result<(), BridgeError> {
    if !v.has(name) {
        Err(BridgeError::UnknownFile)
    } else if idx >= 256 {
        Err(BridgeError::IndexOutOfRange)
    } else {
        Ok(())
    }
}

/// A chunk write sets the presence bit of its index and no other, stores its
/// data under its key, and keeps the store well formed and the names in place.
pub proof fn lemma_written(v: StoreModel, name: Seq<char>, idx: u8, data: Seq<u8>)
    requires
        v.wf(),
        v.has(name),
        data.len() == 512,
    ensures
        v.written(name, idx, data).wf(),
        v.written(name, idx, data).names() == v.names(),
        v.written(name, idx, data).has(name),
        forall|k: int|
            0 <= k < 256 ==> #[trigger] bit_at(v.written(name, idx, data).bitmap_of(name), k) == (k
                == idx || bit_at(v.bitmap_of(name), k)),
        v.written(name, idx, data).has_chunk(name, idx),
        v.written(name, idx, data).chunk_of(name, idx) == data,
{
    let w = v.written(name, idx, data);
    let s = v.slot(name);
    assert(0 <= s < v.names().len() && v.names()[s] == name);
    assert(v.files[s].bitmap.len() == 32);
    assert(w.names() =~= v.names());
    lemma_with_bit(v.bitmap_of(name), idx as int);
    let key = (name, idx);
    if v.has_chunk(name, idx) {
        let k = v.keys.index_of(key);
        assert(0 <= k < v.keys.len() && v.keys[k] == key);
    } else {
        let n = v.keys.len() as int;
        assert(w.keys[n] == key);
        let k = w.keys.index_of(key);
        assert(0 <= k < w.keys.len() && w.keys[k] == key);
        assert(k == n);
    }
}

impl View for ChunkStore {
    type V = StoreModel;

    closed spec fn view(&self) -> StoreModel {
        StoreModel {
            files: Seq::new(self.files@.len(), |i: int| self.files@[i]@),
            keys: Seq::new(self.slots@.len(), |i: int| (self.slots@[i].name@, self.slots@[i].idx)),
            chunks: Seq::new(self.slots@.len(), |i: int| self.slots@[i].chunk@),
        }
    }
}

impl ChunkStore {
    #[verifier::type_invariant]
    spec fn inv(&self) -> bool {
        self@.wf()
    }

    /// A store without files.
    pub fn new() -> (store: ChunkStore)
        ensures
            store@.wf(),
            store@ == (StoreModel { files: Seq::empty(), keys: Seq::empty(), chunks: Seq::empty() }),
    {
        let store = ChunkStore { files: Vec::new(), slots: Vec::new() };
        assert(store@.files =~= Seq::empty());
        assert(store@.keys =~= Seq::empty());
        assert(store@.chunks =~= Seq::empty());
        store
    }

    /// Puts `file` in place `i`.
    fn set_file(&mut self, i: usize, file: File)
        requires
            i < old(self).files@.len(),
            file@.name == old(self).files@[i as int]@.name,
        ensures
            final(self).files@ == old(self).files@.update(i as int, file),
            final(self).slots@ == old(self).slots@,
    {
        proof {
            use_type_invariant(&*self);
        }
        let ghost before = self@;
        let mut files: Vec<File> = Vec::new();
        core::mem::swap(&mut self.files, &mut files);
        files.set(i, file);
        proof {
            let after = Seq::new(files@.len(), |k: int| files@[k]@);
            let model = StoreModel { files: after, ..before };
            assert(model.names() =~= before.names());
        }
        core::mem::swap(&mut self.files, &mut files);
    }

    /// Adds `file`, whose name is new, after all others.
    fn push_file(&mut self, file: File)
        requires
            !old(self)@.has(file@.name),
        ensures
            final(self).files@ == old(self).files@.push(file),
            final(self).slots@ == old(self).slots@,
    {
        proof {
            use_type_invariant(&*self);
        }
        let ghost before = self@;
        let mut files: Vec<File> = Vec::new();
        core::mem::swap(&mut self.files, &mut files);
        files.push(file);
        proof {
            let after = Seq::new(files@.len(), |k: int| files@[k]@);
            let model = StoreModel { files: after, ..before };
            assert(model.names() =~= before.names().push(file@.name));
        }
        core::mem::swap(&mut self.files, &mut files);
    }

    /// Stores `slot` in place `found`, or after all others where its key is new.
    fn put_slot(&mut self, found: Option<usize>, slot: Slot)
        requires
            found is Some <==> old(self)@.has_chunk(slot.name@, slot.idx),
            found is Some ==> found->Some_0 == old(self)@.keys.index_of((slot.name@, slot.idx))
                && found->Some_0 < old(self).slots@.len(),
        ensures
            final(self).files@ == old(self).files@,
            final(self)@.keys == if found is Some {
                old(self)@.keys
            } else {
                old(self)@.keys.push((slot.name@, slot.idx))
            },
            final(self)@.chunks == if found is Some {
                old(self)@.chunks.update(found->Some_0 as int, slot.chunk@)
            } else {
                old(self)@.chunks.push(slot.chunk@)
            },
    {
        proof {
            use_type_invariant(&*self);
        }
        let ghost before = self@;
        let ghost key = (slot.name@, slot.idx);
        let ghost data = slot.chunk@;
        let mut slots: Vec<Slot> = Vec::new();
        core::mem::swap(&mut self.slots, &mut slots);
        match found {
            Some(j) => {
                proof {
                    let k = before.keys.index_of(key);
                    assert(0 <= k < before.keys.len() && before.keys[k] == key);
                }
                slots.set(j, slot);
            },
            None => {
                slots.push(slot);
            },
        }
        proof {
            let keys = Seq::new(slots@.len(), |i: int| (slots@[i].name@, slots@[i].idx));
            let chunks = Seq::new(slots@.len(), |i: int| slots@[i].chunk@);
            if found is Some {
                assert(keys =~= before.keys);
                assert(chunks =~= before.chunks.update(found->Some_0 as int, data));
            } else {
                assert(keys =~= before.keys.push(key));
                assert(chunks =~= before.chunks.push(data));
            }
        }
        core::mem::swap(&mut self.slots, &mut slots);
    }

    /// Where the file `name` is stored, if it exists.
    fn find_file(&self, name: &String) -> (found: Option<usize>)
        ensures
            self@.wf(),
            found is Some <==> self@.has(name@),
            found is Some ==> found->Some_0 == self@.slot(name@) && found->Some_0 < self.files@.len(),
    {
        proof {
            use_type_invariant(self);
        }
        let mut i: usize = 0;
        while i < self.files.len()
            invariant
                self@.wf(),
                i <= self.files@.len(),
                forall|j: int| 0 <= j < i ==> self@.names()[j] != name@,
            decreases self.files@.len() - i,
        {
            if self.files[i].name == *name {
                proof {
                    let k = self@.names().index_of(name@);
                    assert(self@.names()[i as int] == name@);
                    assert(0 <= k < self@.names().len() && self@.names()[k] == name@);
                    assert(k == i);
                }
                return Some(i);
            }
            i += 1;
        }
        None
    }

    /// Where chunk `idx` of `name` is stored, if it has been written.
    fn find_chunk(&self, name: &String, idx: u8) -> (found: Option<usize>)
        ensures
            self@.wf(),
            found is Some <==> self@.has_chunk(name@, idx),
            found is Some ==> found->Some_0 == self@.keys.index_of((name@, idx)) && found->Some_0
                < self.slots@.len(),
    {
        proof {
            use_type_invariant(self);
        }
        let mut i: usize = 0;
        while i < self.slots.len()
            invariant
                self@.wf(),
                i <= self.slots@.len(),
                forall|j: int| 0 <= j < i ==> self@.keys[j] != (name@, idx),
            decreases self.slots@.len() - i,
        {
            if self.slots[i].idx == idx && self.slots[i].name == *name {
                proof {
                    let k = self@.keys.index_of((name@, idx));
                    assert(self@.keys[i as int] == (name@, idx));
                    assert(0 <= k < self@.keys.len() && self@.keys[k] == (name@, idx));
                    assert(k == i);
                }
                return Some(i);
            }
            i += 1;
        }
        None
    }

    /// Whether chunk `idx` of the file `name` is marked as written; `None`
    /// where no such file exists.
    pub fn is_present(&self, name: &String, idx: u8) -> (present: Option<bool>)
        ensures
            self@.wf(),
            present == if self@.has(name@) {
                Some(bit_at(self@.bitmap_of(name@), idx as int))
            } else {
                None
            },
    {
        match self.find_file(name) {
            Some(i) => Some(self.files[i].has_chunk(idx)),
            None => None,
        }
    }

    /// The data stored as chunk `idx` of `name`, if that chunk has been written.
    pub fn chunk(&self, name: &String, idx: u8) -> (data: Option<[u8; 512]>)
        ensures
            self@.wf(),
            data is Some <==> self@.has_chunk(name@, idx),
            data is Some ==> data->Some_0@ == self@.chunk_of(name@, idx),
    {
        match self.find_chunk(name, idx) {
            Some(i) => Some(self.slots[i].chunk.data),
            None => None,
        }
    }
}

/// Sets the instance up. There is nothing to set up: it always succeeds.
pub fn initialize() -> (outcome: Result<(), BridgeError>)
    ensures
        outcome == Ok::<(), BridgeError>(()),
{
    Ok(())
}

/// Creates the chunked file `name` with no chunk written. Creating a name
/// again clears its presence bitmap and leaves the stored chunks alone.
pub fn create_file(store: &mut ChunkStore, name: String) -> (outcome: Result<(), BridgeError>)
    ensures
        old(store)@.wf(),
        final(store)@.wf(),
        outcome == Ok::<(), BridgeError>(()),
        final(store)@ == old(store)@.created(name@),
{
    let found = store.find_file(&name);
    let mut file = File { name: String::new(), bitmap: [0u8;32] };
    file.create(name);
    match found {
        Some(i) => {
            proof {
                let s = store@.slot(name@);
                assert(0 <= s < store@.names().len() && store@.names()[s] == name@);
            }
            store.set_file(i, file);
        },
        None => {
            store.push_file(file);
        },
    }
    proof {
        use_type_invariant(&*store);
        assert(store@.files =~= old(store)@.created(name@).files);
        assert(store@.keys =~= old(store)@.keys);
        assert(store@.chunks =~= old(store)@.chunks);
    }
    Ok(())
}

/// Writes `data` as chunk `idx` of the file `name`: marks the chunk as present
/// and stores the data, in place of what an earlier write of that chunk left.
pub fn write_chunk(store: &mut ChunkStore, name: String, idx: u16, data: [u8; 512]) -> (outcome:
    Result<(), BridgeError>)
    ensures
        old(store)@.wf(),
        final(store)@.wf(),
        outcome == chunk_outcome(old(store)@, name@, idx),
        final(store)@ == if outcome is Ok {
            old(store)@.written(name@, idx as u8, data@)
        } else {
            old(store)@
        },
{
    let i: usize = match store.find_file(&name) {
        Some(i) => i,
        None => { return Err(BridgeError::UnknownFile); },
    };
    if idx >= MAX_CHUNKS {
        return Err(BridgeError::IndexOutOfRange);
    }
    let k: u8 = idx as u8;
    let found = store.find_chunk(&name, k);
    let mut file = File { name: store.files[i].name.clone(), bitmap: store.files[i].bitmap };
    file.set_bit(k);
    proof {
        let s = store@.slot(name@);
        assert(0 <= s < store@.names().len() && store@.names()[s] == name@);
    }
    store.set_file(i, file);
    proof {
        assert(store@.keys =~= old(store)@.keys);
    }
    store.put_slot(found, Slot { name, idx: k, chunk: FileChunk { data } });
    proof {
        use_type_invariant(&*store);
        let w = old(store)@.written(name@, k, data@);
        assert(store@.files =~= w.files);
        assert(store@.keys =~= w.keys);
        assert(store@.chunks =~= w.chunks);
    }
    Ok(())
}

/// Presence is idempotent: after chunk `idx` of a file is written twice, its
/// bit is set, every other bit is as after the first write, and the stored
/// chunk is the data of the second write.
pub proof fn lemma_rewrite_keeps_presence(
    v: StoreModel,
    name: Seq<char>,
    idx: u8,
    first: Seq<u8>,
    second: Seq<u8>,
)
    requires
        v.wf(),
        v.has(name),
        first.len() == 512,
        second.len() == 512,
    ensures
        ({
            let once = v.written(name, idx, first);
            let twice = once.written(name, idx, second);
            &&& bit_at(once.bitmap_of(name), idx as int)
            &&& bit_at(twice.bitmap_of(name), idx as int)
            &&& twice.bitmap_of(name) == once.bitmap_of(name)
            &&& twice.keys == once.keys
            &&& twice.has_chunk(name, idx)
            &&& twice.chunk_of(name, idx) == second
        }),
{
    let once = v.written(name, idx, first);
    let twice = once.written(name, idx, second);
    lemma_written(v, name, idx, first);
    lemma_written(once, name, idx, second);
    let s = v.slot(name);
    assert(0 <= s < v.names().len() && v.names()[s] == name);
    assert(once.slot(name) == s);
    assert(twice.slot(name) == s);
    lemma_with_bit(v.bitmap_of(name), idx as int);
}

} // verus!
