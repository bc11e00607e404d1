use vstd::prelude::*;
use crate::error::BridgeError;

verus! {

/// Bytes in one chunk.
pub const CHUNK_SIZE: usize = 512;

/// Bytes in a presence bitmap.
pub const BITMAP_BYTES: usize = 32;

/// Longest name, in bytes, that a stored file record has room for.
pub const MAX_NAME_LENGTH: u8 = 128;

/// Chunks a file can hold: one per bit of its presence bitmap.
pub const MAX_CHUNKS: u16 = 256;

/// A chunked file: its name and one presence bit per chunk index.
pub struct File {
    pub name: String,
    pub bitmap: [u8; 32],
}

/// One chunk of a file.
pub struct FileChunk {
    pub data: [u8; 512],
}

/// The mathematical value of a [`File`].
pub struct ChunkFileView {
    pub name: Seq<char>,
    pub bitmap: Seq<u8>,
}

impl View for File {
    type V = ChunkFileView;

    open spec fn view(&self) -> ChunkFileView {
        ChunkFileView { name: self.name@, bitmap: self.bitmap@ }
    }
}

impl View for FileChunk {
    type V = Seq<u8>;

    open spec fn view(&self) -> Seq<u8> {
        self.data@
    }
}

/// The bitmap of a file of which no chunk has been written.
pub open spec fn clear_bitmap() -> Seq<u8> {
    Seq::new(32, |i: int| 0u8)
}

/// Whether the bit for chunk `idx` is set: bit `idx % 8` of byte `idx / 8`.
pub open spec fn bit_at(bitmap: Seq<u8>, idx: int) -> bool
    recommends
        0 <= idx < 8 * bitmap.len(),
{
    (bitmap[idx / 8] >> ((idx % 8) as u8)) & 1u8 == 1u8
}

/// `bitmap` with the bit for chunk `idx` set.
pub open spec fn with_bit(bitmap: Seq<u8>, idx: int) -> Seq<u8>
    recommends
        0 <= idx < 8 * bitmap.len(),
{
    bitmap.update(idx / 8, bitmap[idx / 8] | (1u8 << ((idx % 8) as u8)))
}

proof fn lemma_or_bit(b: u8, i: u8, j: u8)
    requires
        i < 8,
        j < 8,
    ensures
        (((b | (1u8 << i)) >> j) & 1u8 == 1u8) == (i == j || ((b >> j) & 1u8 == 1u8)),
        (b | (1u8 << i)) | (1u8 << i) == b | (1u8 << i),
{
    assert((((b | (1u8 << i)) >> j) & 1u8 == 1u8) == (i == j || ((b >> j) & 1u8 == 1u8)))
        by (bit_vector)
        requires
            i < 8,
            j < 8,
    ;
    assert((b | (1u8 << i)) | (1u8 << i) == b | (1u8 << i)) by (bit_vector);
}

proof fn lemma_zero_bit(j: u8)
    requires
        j < 8,
    ensures
        (0u8 >> j) & 1u8 == 0u8,
{
    assert((0u8 >> j) & 1u8 == 0u8) by (bit_vector);
}

/// Setting a presence bit sets that bit and no other, and setting it again
/// changes nothing.
pub proof fn lemma_with_bit(bitmap: Seq<u8>, idx: int)
    requires
        0 <= idx < 8 * bitmap.len(),
    ensures
        with_bit(bitmap, idx).len() == bitmap.len(),
        forall|k: int|
            0 <= k < 8 * bitmap.len() ==> #[trigger] bit_at(with_bit(bitmap, idx), k) == (k == idx
                || bit_at(bitmap, k)),
        with_bit(with_bit(bitmap, idx), idx) == with_bit(bitmap, idx),
{
    let i: u8 = (idx % 8) as u8;
    assert forall|k: int| 0 <= k < 8 * bitmap.len() implies #[trigger] bit_at(
        with_bit(bitmap, idx),
        k,
    ) == (k == idx || bit_at(bitmap, k)) by {
        if k / 8 == idx / 8 {
            lemma_or_bit(bitmap[idx / 8], i, (k % 8) as u8);
        }
    }
    lemma_or_bit(bitmap[idx / 8], i, i);
    assert(with_bit(with_bit(bitmap, idx), idx) =~= with_bit(bitmap, idx));
}

/// In a clear bitmap no bit is set.
pub proof fn lemma_clear_bitmap(k: int)
    requires
        0 <= k < 256,
    ensures
        !bit_at(clear_bitmap(), k),
{
    lemma_zero_bit((k % 8) as u8);
}

impl File {
    /// Makes `self` the file `name` with no chunk written.
    pub fn create(&mut self, name: String)
        ensures
            final(self)@ == (ChunkFileView { name: name@, bitmap: clear_bitmap() }),
    {
        self.name = name;
        self.bitmap = [0u8;32];
        assert(self.bitmap@ =~= clear_bitmap());
    }

    /// Whether chunk `idx` has been written.
    pub fn has_chunk(&self, idx: u8) -> (present: bool)
        ensures
            present == bit_at(self@.bitmap, idx as int),
    {
        let byt: usize = (idx / 8) as usize;
        let bit: u8 = idx % 8;
        (self.bitmap[byt] >> bit) & 1u8 == 1u8
    }

    /// Records that chunk `idx` has been written. The bit is set, never
    /// toggled: recording a chunk twice leaves it recorded.
    pub fn set_bit(&mut self, idx: u8)
        ensures
            final(self)@ == (ChunkFileView {
                name: old(self)@.name,
                bitmap: with_bit(old(self)@.bitmap, idx as int),
            }),
    {
        let byt: usize = (idx / 8) as usize;
        let bit: u8 = idx % 8;
        let marked: u8 = self.bitmap[byt] | (1u8 << bit);
        self.bitmap[byt] = marked;
    }
}

} // verus!
