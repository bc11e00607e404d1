use vstd::prelude::*;
use crate::error::BridgeError;

verus! {

/// A stored file: two attribute words and its bytes.
pub struct NFTPFile {
    pub mode: u64,
    pub dev: u64,
    pub data: Vec<u8>,
}

/// The mathematical value of an [`NFTPFile`].
pub struct FileView {
    pub mode: u64,
    pub dev: u64,
    pub data: Seq<u8>,
}

impl View for NFTPFile {
    type V = FileView;

    open spec fn view(&self) -> FileView {
        FileView { mode: self.mode, dev: self.dev, data: self.data@ }
    }
}

/// The file a name is bound to when it is created: the attributes given, no bytes.
pub open spec fn empty_file(mode: u64, dev: u64) -> FileView {
    FileView { mode, dev, data: Seq::empty() }
}

/// The bytes a read of `size` bytes at `offset` yields: nothing at or beyond the
/// end, else the bytes from `offset` up to `offset + size` or the end, whichever
/// comes first.
pub open spec fn range_of(data: Seq<u8>, offset: u64, size: u64) -> Seq<u8> {
    if offset >= data.len() {
        Seq::empty()
    } else if offset + size > data.len() {
        data.subrange(offset as int, data.len() as int)
    } else {
        data.subrange(offset as int, offset + size)
    }
}

/// The bytes of a file after `buf` is written at `offset`: the bytes before
/// `offset`, then `buf`, then what the file held beyond the written range.
pub open spec fn spliced(data: Seq<u8>, offset: int, buf: Seq<u8>) -> Seq<u8>
    recommends
        0 <= offset <= data.len(),
{
    if offset + buf.len() < data.len() {
        data.subrange(0, offset) + buf + data.subrange(offset + buf.len(), data.len() as int)
    } else {
        data.subrange(0, offset) + buf
    }
}

/// Appends `src[from..to]` to `out`.
fn append_range(out: &mut Vec<u8>, src: &Vec<u8>, from: usize, to: usize)
    requires
        from <= to <= src.len(),
    ensures
        final(out)@ == old(out)@ + src@.subrange(from as int, to as int),
{
    let mut i: usize = from;
    while i < to
        invariant
            from <= i <= to <= src.len(),
            out@ == old(out)@ + src@.subrange(from as int, i as int),
        decreases to - i,
    {
        out.push(src[i]);
        i += 1;
        assert(out@ =~= old(out)@ + src@.subrange(from as int, i as int));
    }
}

impl NFTPFile {
    /// A file with the given attributes and no bytes.
    pub fn new(mode: u64, dev: u64) -> (file: NFTPFile)
        ensures
            file@ == empty_file(mode, dev),
    {
        NFTPFile { mode, dev, data: Vec::new() }
    }

    /// Reads up to `size` bytes at `offset`. The size is clamped to what the file
    /// holds; a read at or beyond the end yields nothing.
    pub fn read(&self, offset: u64, size: u64) -> (bytes: Vec<u8>)
        ensures
            bytes@ == range_of(self@.data, offset, size),
    {
        let mut bytes: Vec<u8> = Vec::new();
        let dlen: usize = self.data.len();
        if offset >= dlen as u64 {
            assert(bytes@ =~= Seq::<u8>::empty());
            return bytes;
        }
        let start: usize = offset as usize;
        let end: usize = if size > (dlen - start) as u64 {
            dlen
        } else {
            start + size as usize
        };
        append_range(&mut bytes, &self.data, start, end);
        assert(bytes@ =~= range_of(self@.data, offset, size));
        bytes
    }

    /// The bytes of this file after `buf` is written at `offset`. A write may
    /// start anywhere up to the end of the file, where it appends; one that
    /// starts beyond the end is rejected, so that no byte of a file is ever
    /// made up.
    pub fn splice(&self, offset: usize, buf: &Vec<u8>) -> (outcome: Result<Vec<u8>, BridgeError>)
        ensures
            offset > self@.data.len() <==> outcome == Err::<Vec<u8>, BridgeError>(
                BridgeError::OffsetOutOfRange,
            ),
            offset <= self@.data.len() ==> outcome is Ok && outcome->Ok_0@ == spliced(
                self@.data,
                offset as int,
                buf@,
            ),
    {
        let dlen: usize = self.data.len();
        if offset > dlen {
            return Err(BridgeError::OffsetOutOfRange);
        }
        let mut p: Vec<u8> = Vec::new();
        append_range(&mut p, &self.data, 0, offset);
        append_range(&mut p, buf, 0, buf.len());
        assert(buf@.subrange(0, buf@.len() as int) =~= buf@);
        if dlen - offset > buf.len() {
            append_range(&mut p, &self.data, offset + buf.len(), dlen);
        }
        assert(p@ =~= spliced(self@.data, offset as int, buf@));
        Ok(p)
    }
}

/// A read never fails on its size: within the file it yields exactly
/// `min(size, len - offset)` bytes, and they are the file's bytes from `offset` on.
pub proof fn lemma_read_clamps(data: Seq<u8>, offset: u64, size: u64)
    requires
        offset < data.len(),
    ensures
        range_of(data, offset, size).len() == if size <= data.len() - offset {
            size as int
        } else {
            data.len() - offset
        },
        forall|i: int|
            0 <= i < range_of(data, offset, size).len() ==> range_of(data, offset, size)[i]
                == data[offset + i],
        range_of(data, offset, size) == data.subrange(
            offset as int,
            offset + range_of(data, offset, size).len(),
        ),
{
}

/// A read that starts at or beyond the end of the file yields nothing, whatever its size.
pub proof fn lemma_read_at_end_is_empty(data: Seq<u8>, offset: u64, size: u64)
    requires
        offset >= data.len(),
    ensures
        range_of(data, offset, size) == Seq::<u8>::empty(),
{
}

/// A write leaves alone what it does not cover: the bytes before `offset` and
/// the bytes from `offset + buf.len()` on keep their values and places, the
/// written range holds `buf`, and the file grows only as far as `buf` reaches
/// beyond its end.
pub proof fn lemma_splice_keeps_rest(data: Seq<u8>, offset: int, buf: Seq<u8>)
    requires
        0 <= offset <= data.len(),
    ensures
        spliced(data, offset, buf).len() == if offset + buf.len() > data.len() {
            offset + buf.len()
        } else {
            data.len() as int
        },
        forall|i: int| 0 <= i < offset ==> spliced(data, offset, buf)[i] == data[i],
        forall|i: int|
            offset <= i < offset + buf.len() ==> spliced(data, offset, buf)[i] == buf[i - offset],
        forall|i: int|
            offset + buf.len() <= i < data.len() ==> spliced(data, offset, buf)[i] == data[i],
{
}

} // verus!
