//! Writing destination files around the system's page cache.
use vstd::prelude::*;

use crate::failure::{ErrorKind, IoError, IoErrorView};
use crate::hashing::flattened;

verus! {

/// How many bytes are read and written at a time.
pub const BUFFER_SIZE: usize = 8 * 1024 * 1024;

/// Files of at least this size are written around the page cache. For smaller ones the
/// cache costs next to nothing, and writing through would only add latency.
pub const DIRECT_WRITE_THRESHOLD: u64 = 16 * 1024 * 1024;

/// The alignment that uncached transfers ask for, of memory, offsets and lengths.
pub const PAGE: usize = 4096;

/// `<*const u8>::align_offset` on the start of `storage`: how many bytes to skip so as to
/// reach an address that is a multiple of `align`. The answer depends on where the bytes
/// lie, and may be `usize::MAX`, so nothing is claimed of it.
#[verifier::external_body]
fn offset_to_alignment(storage: &Vec<u8>, align: usize) -> (offset: usize)
    requires
        align == PAGE,
{
    storage.as_ptr().align_offset(align)
}

/// Where a buffer begins in what it owns, when an aligned address comes after `offset` bytes:
/// there, or at the start if no such address was found within a page.
pub open spec fn start_of(offset: usize) -> usize {
    if offset < PAGE {
        offset
    } else {
        0
    }
}

/// Where a buffer begins in what it owns, when an aligned address comes after `offset` bytes.
pub fn start_for(offset: usize) -> (start: usize)
    ensures
        start == start_of(offset),
        offset < 4096 ==> start == offset,
        offset >= 4096 ==> start == 0,
{
    if offset < PAGE {
        offset
    } else {
        0
    }
}

/// A buffer that is to start at a multiple of `PAGE` in memory, for uncached transfers. The
/// address is tested, not proved; what is proved is where the buffer begins in what it owns for
/// each offset that the system may give, and that it stays there.
pub struct AlignedBuffer {
    storage: Vec<u8>,
    start: usize,
    size: usize,
}

impl View for AlignedBuffer {
    type V = Seq<u8>;

    closed spec fn view(&self) -> Seq<u8> {
        self.storage@.subrange(self.start as int, self.start + self.size)
    }
}

impl AlignedBuffer {
    /// The bytes of the buffer lie within what it owns.
    pub closed spec fn wf(&self) -> bool {
        self.start + self.size <= self.storage@.len()
    }

    /// Where the buffer begins in what it owns.
    pub closed spec fn begins(&self) -> usize {
        self.start
    }

    /// A buffer of `size` bytes in `storage`, which has a page less one byte more, when an
    /// aligned address comes after `offset` bytes of it.
    pub fn within(storage: Vec<u8>, offset: usize, size: usize) -> (buffer: AlignedBuffer)
        requires
            storage@.len() == size + (PAGE - 1),
        ensures
            buffer.wf(),
            buffer.begins() == start_of(offset),
            buffer@ == storage@.subrange(
                start_of(offset) as int,
                start_of(offset) + size,
            ),
    {
        let start: usize = start_for(offset);
        AlignedBuffer { storage, start, size }
    }

    /// A buffer of `size` bytes.
    pub fn new(size: usize) -> (buffer: AlignedBuffer)
        requires
            size <= isize::MAX - (PAGE - 1),
        ensures
            buffer.wf(),
            buffer.begins() < PAGE,
            buffer@ == Seq::new(size as nat, |i: int| 0u8),
    {
        let storage: Vec<u8> = vec![0u8; size + (PAGE - 1)];
        let offset: usize = offset_to_alignment(&storage, PAGE);
        let buffer = AlignedBuffer::within(storage, offset, size);
        assert(buffer@ =~= Seq::new(size as nat, |i: int| 0u8));
        buffer
    }

    /// The bytes of the buffer.
    pub fn as_slice(&self) -> (bytes: &[u8])
        requires
            self.wf(),
        ensures
            bytes@ == self@,
    {
        let owned: usize = self.storage.len();
        assert(self.start + self.size <= owned);
        &self.storage.as_slice()[self.start..self.start + self.size]
    }

    /// The bytes of the buffer, to be filled. What is written there is what the buffer holds
    /// afterwards; a slice that is lent out keeps its length.
    pub fn as_mut_slice(&mut self) -> (bytes: &mut [u8])
        requires
            old(self).wf(),
        ensures
            bytes@ == old(self)@,
            final(self).begins() == old(self).begins(),
            final(bytes)@.len() == bytes@.len() ==> final(self).wf(),
            final(bytes)@.len() == bytes@.len() ==> final(self)@ == final(bytes)@,
    {
        let start: usize = self.start;
        let size: usize = self.size;
        let (_before, rest) = self.storage.as_mut_slice().split_at_mut(start);
        let (bytes, _after) = rest.split_at_mut(size);
        bytes
    }

    /// Overwrites the first bytes of the buffer with those of `data` up to `n`.
    fn fill(&mut self, data: &[u8], n: usize)
        requires
            old(self).wf(),
            n <= data@.len(),
            n <= old(self)@.len(),
        ensures
            final(self).wf(),
            final(self).begins() == old(self).begins(),
            final(self)@ == data@.take(n as int) + old(self)@.skip(n as int),
    {
        let start: usize = self.start;
        let owned: usize = self.storage.len();
        let ghost before = self@;
        let mut i: usize = 0;
        while i < n
            invariant
                self.wf(),
                self.start == start,
                self.size == before.len(),
                start + before.len() <= owned,
                n <= data@.len(),
                i <= n <= before.len(),
                self@ == data@.take(i as int) + before.skip(i as int),
            decreases n - i,
        {
            let ghost now = self@;
            self.storage[start + i] = data[i];
            assert(self@ =~= now.update(i as int, data@[i as int]));
            i += 1;
            assert(self@ =~= data@.take(i as int) + before.skip(i as int));
        }
    }
}

/// What a writer knows of a destination: whether it is written around the page cache, and
/// the bytes that are kept back because they do not fill a page.
pub struct WriterView {
    pub direct: bool,
    pub tail: Seq<u8>,
}

/// The part of a length that consists of whole pages.
pub open spec fn whole_pages(n: nat) -> nat {
    (n - n % (PAGE as nat)) as nat
}

/// Whether a writer accepts another chunk: uncached, only before anything was kept back.
pub open spec fn accepts(writer: WriterView) -> bool {
    !writer.direct || writer.tail.len() == 0
}

/// The bytes of a chunk that are written at once.
pub open spec fn written_now(writer: WriterView, data: Seq<u8>) -> Seq<u8> {
    if writer.direct {
        data.take(whole_pages(data.len()) as int)
    } else {
        data
    }
}

/// The writer after a chunk was written.
pub open spec fn after_chunk(writer: WriterView, data: Seq<u8>) -> WriterView {
    if writer.direct {
        WriterView { tail: writer.tail + data.skip(whole_pages(data.len()) as int), ..writer }
    } else {
        writer
    }
}

/// The bytes that are written last, with the cache back in use.
pub open spec fn written_last(writer: WriterView) -> Seq<u8> {
    if writer.direct {
        writer.tail
    } else {
        Seq::empty()
    }
}

/// Why a chunk is refused.
pub open spec fn refusal() -> IoErrorView {
    IoErrorView { kind: ErrorKind::InvalidInput, message: "unaligned chunk before final chunk"@ }
}

/// What is to be written for a chunk.
#[derive(Debug, Clone, Copy, PartialEq, Eq, Structural)]
pub enum ChunkWrite {
    /// The chunk as it is.
    Whole,
    /// This many bytes from the writer's aligned buffer.
    Aligned(usize),
}

/// Whether it is to be tried to open a destination of `file_size` bytes around the page cache.
pub fn bypasses_cache(file_size: u64, buffered_forced: bool) -> (bypass: bool)
    ensures
        bypass == (file_size >= DIRECT_WRITE_THRESHOLD && !buffered_forced),
        bypass == (file_size >= 16_777_216 && !buffered_forced),
{
    !(file_size < DIRECT_WRITE_THRESHOLD || buffered_forced)
}

/// Whether a destination of `file_size` bytes is opened around the page cache in the end:
/// where that is to be tried, unless the file system refused it. It is opened through the
/// cache otherwise.
pub fn opens_uncached(file_size: u64, buffered_forced: bool, refused: bool) -> (uncached: bool)
    ensures
        uncached == (file_size >= DIRECT_WRITE_THRESHOLD && !buffered_forced && !refused),
        uncached == (file_size >= 16_777_216 && !buffered_forced && !refused),
{
    bypasses_cache(file_size, buffered_forced) && !refused
}

/// The writing of one destination file. Uncached writes have to be made of whole pages, from
/// aligned memory; a last piece that does not fill a page is kept back to the end and
/// written through the cache.
pub struct DestWriter {
    direct: bool,
    tail: Vec<u8>,
    aligned: Option<AlignedBuffer>,
}

impl View for DestWriter {
    type V = WriterView;

    closed spec fn view(&self) -> WriterView {
        WriterView { direct: self.direct, tail: self.tail@ }
    }
}

impl DestWriter {
    /// An uncached writer has its buffer; another one has none, and keeps nothing back.
    pub closed spec fn wf(&self) -> bool {
        if self.direct {
            &&& self.aligned is Some
            &&& self.aligned->0.wf()
            &&& self.aligned->0@.len() == BUFFER_SIZE
        } else {
            &&& self.aligned is None
            &&& self.tail@.len() == 0
        }
    }

    /// The contents of the aligned buffer.
    pub closed spec fn staged(&self) -> Seq<u8> {
        self.aligned->0@
    }

    /// A writer for a file of `file_size` bytes that was just opened, uncached if `direct`.
    /// The second result is the length to which the file is to be extended first, so that
    /// no later write has to extend it.
    pub fn create(file_size: u64, direct: bool) -> (created: (DestWriter, Option<u64>))
        ensures
            created.0.wf(),
            created.0@ == (WriterView { direct, tail: Seq::empty() }),
            created.1 == (if file_size > 0 {
                Some(file_size)
            } else {
                None
            }),
    {
        let aligned = if direct {
            Some(AlignedBuffer::new(BUFFER_SIZE))
        } else {
            None
        };
        let writer = DestWriter { direct, tail: Vec::new(), aligned };
        let length = if file_size > 0 {
            Some(file_size)
        } else {
            None
        };
        (writer, length)
    }

    /// Prepares a chunk and says what is to be written for it. `chunk_written` follows once
    /// that has succeeded.
    pub fn write_chunk(&mut self, data: &[u8]) -> (step: Result<ChunkWrite, IoError>)
        requires
            old(self).wf(),
            old(self)@.direct && accepts(old(self)@) ==> whole_pages(data@.len()) <= BUFFER_SIZE,
        ensures
            final(self).wf(),
            final(self)@ == old(self)@,
            match step {
                Ok(ChunkWrite::Whole) => !old(self)@.direct,
                Ok(ChunkWrite::Aligned(n)) => {
                    &&& old(self)@.direct
                    &&& accepts(old(self)@)
                    &&& n == whole_pages(data@.len())
                    &&& n <= final(self).staged().len()
                    &&& final(self).staged().take(n as int) == written_now(old(self)@, data@)
                },
                Err(error) => !accepts(old(self)@) && error@ == refusal(),
            },
            step is Err <==> old(self)@.direct && old(self)@.tail.len() > 0,
            step matches Err(error) ==> error@.kind == ErrorKind::InvalidInput && error@.message
                == "unaligned chunk before final chunk"@,
            step == Ok::<ChunkWrite, IoError>(ChunkWrite::Whole) <==> !old(self)@.direct,
            step matches Ok(ChunkWrite::Aligned(n)) ==> n % 4096 == 0 && n <= data@.len()
                && data@.len() - n < 4096 && final(self).staged().take(n as int) == data@.take(
                n as int,
            ),
    {
        if !self.direct {
            return Ok(ChunkWrite::Whole);
        }
        if !self.tail.is_empty() {
            return Err(
                IoError::new(ErrorKind::InvalidInput, "unaligned chunk before final chunk"),
            );
        }
        let full: usize = data.len() - data.len() % PAGE;
        match &mut self.aligned {
            Some(buffer) => {
                buffer.fill(data, full);
            },
            None => {},
        }
        assert(self.staged().take(full as int) =~= data@.take(full as int));
        Ok(ChunkWrite::Aligned(full))
    }

    /// The first `n` bytes of the aligned buffer.
    pub fn aligned_bytes(&self, n: usize) -> (bytes: &[u8])
        requires
            self.wf(),
            self@.direct,
            n <= BUFFER_SIZE,
        ensures
            n <= self.staged().len(),
            bytes@ == self.staged().take(n as int),
    {
        match &self.aligned {
            Some(buffer) => &buffer.as_slice()[0..n],
            None => self.tail.as_slice(),
        }
    }

    /// Takes note that what `write_chunk` asked for was written.
    pub fn chunk_written(&mut self, data: &[u8])
        requires
            old(self).wf(),
        ensures
            final(self).wf(),
            final(self)@ == after_chunk(old(self)@, data@),
            final(self)@.direct == old(self)@.direct,
            !old(self)@.direct ==> final(self)@.tail == old(self)@.tail,
            old(self)@.direct ==> final(self)@.tail == old(self)@.tail + data@.skip(
                data@.len() - data@.len() % 4096,
            ),
    {
        if self.direct {
            let full: usize = data.len() - data.len() % PAGE;
            let rest = &data[full..data.len()];
            self.tail.extend_from_slice(rest);
            assert(self.tail@ =~= old(self)@.tail + data@.skip(full as int));
        }
    }

    /// What is left to be written, with the cache back in use, before the file is synced.
    pub fn finish(&self) -> (rest: Option<&Vec<u8>>)
        requires
            self.wf(),
        ensures
            match rest {
                Some(bytes) => bytes@.len() > 0 && bytes@ == written_last(self@),
                None => written_last(self@).len() == 0,
            },
            match rest {
                Some(bytes) => self@.direct && bytes@.len() > 0 && bytes@ == self@.tail,
                None => !self@.direct || self@.tail.len() == 0,
            },
    {
        if self.direct && !self.tail.is_empty() {
            Some(&self.tail)
        } else {
            None
        }
    }
}

/// The writes that were made for a sequence of chunks, and the writer after them.
pub struct Fed {
    pub writes: Seq<Seq<u8>>,
    pub writer: WriterView,
}

/// A new writer fed with `chunks`, unless one of them is refused.
pub open spec fn fed(direct: bool, chunks: Seq<Seq<u8>>) -> Option<Fed>
    decreases chunks.len(),
{
    if chunks.len() == 0 {
        Some(Fed { writes: Seq::empty(), writer: WriterView { direct, tail: Seq::empty() } })
    } else {
        match fed(direct, chunks.drop_last()) {
            None => None,
            Some(before) => if accepts(before.writer) {
                Some(
                    Fed {
                        writes: before.writes.push(written_now(before.writer, chunks.last())),
                        writer: after_chunk(before.writer, chunks.last()),
                    },
                )
            } else {
                None
            },
        }
    }
}

/// Everything that has been written to the file at the end.
pub open spec fn file_contents(all: Fed) -> Seq<u8> {
    flattened(all.writes) + written_last(all.writer)
}

/// Chunks of whole pages, but for the last one.
pub open spec fn aligned_but_last(chunks: Seq<Seq<u8>>) -> bool {
    forall|i: int|
        0 <= i < chunks.len() - 1 ==> (#[trigger] chunks[i]).len() % (PAGE as nat) == 0
}

/// The file ends up holding the chunks, whole and in order: nothing is lost, doubled or
/// moved by keeping the end back.
pub proof fn lemma_file_holds_chunks(direct: bool, chunks: Seq<Seq<u8>>)
    ensures
        match fed(direct, chunks) {
            Some(all) => file_contents(all) == flattened(chunks),
            None => true,
        },
    decreases chunks.len(),
{
    if chunks.len() > 0 {
        lemma_file_holds_chunks(direct, chunks.drop_last());
        if let Some(before) = fed(direct, chunks.drop_last()) {
            lemma_writer_kind(direct, chunks.drop_last());
            if accepts(before.writer) {
                let all = fed(direct, chunks)->0;
                assert(all.writes.drop_last() =~= before.writes);
                assert(file_contents(all) =~= flattened(chunks));
            }
        }
    } else {
        assert(file_contents(fed(direct, chunks)->0) =~= flattened(chunks));
    }
}

proof fn lemma_writer_kind(direct: bool, chunks: Seq<Seq<u8>>)
    ensures
        match fed(direct, chunks) {
            Some(all) => {
                &&& all.writer.direct == direct
                &&& !direct ==> all.writer.tail.len() == 0
            },
            None => direct,
        },
    decreases chunks.len(),
{
    if chunks.len() > 0 {
        lemma_writer_kind(direct, chunks.drop_last());
    }
}

/// Chunks of whole pages followed by one of any length are all accepted.
pub proof fn lemma_aligned_chunks_accepted(direct: bool, chunks: Seq<Seq<u8>>)
    requires
        aligned_but_last(chunks),
    ensures
        fed(direct, chunks) is Some,
        direct && chunks.len() > 0 ==> fed(direct, chunks)->0.writer.tail == chunks.last().skip(
            whole_pages(chunks.last().len()) as int,
        ),
    decreases chunks.len(),
{
    if chunks.len() > 0 {
        let fewer = chunks.drop_last();
        assert forall|i: int| 0 <= i < fewer.len() - 1 implies (#[trigger] fewer[i]).len() % (
        PAGE as nat) == 0 by {
            assert(fewer[i] == chunks[i]);
        }
        lemma_aligned_chunks_accepted(direct, fewer);
        lemma_writer_kind(direct, fewer);
        let before = fed(direct, fewer)->0;
        if direct {
            if fewer.len() > 0 {
                assert(fewer.last() == chunks[chunks.len() - 2]);
                assert(fewer.last().len() % (PAGE as nat) == 0);
            }
            assert(before.writer.tail =~= Seq::empty());
            assert(fed(direct, chunks)->0.writer.tail =~= chunks.last().skip(
                whole_pages(chunks.last().len()) as int,
            ));
        }
    }
}

proof fn lemma_offset_aligned(writes: Seq<Seq<u8>>, i: int)
    requires
        0 <= i <= writes.len(),
        forall|k: int| 0 <= k < writes.len() ==> (#[trigger] writes[k]).len() % (PAGE as nat) == 0,
    ensures
        flattened(writes.take(i)).len() % (PAGE as nat) == 0,
    decreases i,
{
    if i > 0 {
        lemma_offset_aligned(writes, i - 1);
        assert(writes.take(i).drop_last() =~= writes.take(i - 1));
        assert(writes.take(i).last() == writes[i - 1]);
    }
}

proof fn lemma_write_lengths_aligned(chunks: Seq<Seq<u8>>, i: int)
    requires
        fed(true, chunks) is Some,
        0 <= i < fed(true, chunks)->0.writes.len(),
    ensures
        fed(true, chunks)->0.writes[i].len() % (PAGE as nat) == 0,
    decreases chunks.len(),
{
    if chunks.len() > 0 {
        lemma_writer_kind(true, chunks.drop_last());
        let before = fed(true, chunks.drop_last())->0;
        if i < before.writes.len() {
            lemma_write_lengths_aligned(chunks.drop_last(), i);
        }
    }
}

/// Every uncached write has a length, and starts at an offset in the file, of whole pages.
pub proof fn lemma_uncached_writes_aligned(chunks: Seq<Seq<u8>>, i: int)
    requires
        fed(true, chunks) is Some,
        0 <= i < fed(true, chunks)->0.writes.len(),
    ensures
        fed(true, chunks)->0.writes[i].len() % (PAGE as nat) == 0,
        flattened(fed(true, chunks)->0.writes.take(i)).len() % (PAGE as nat) == 0,
{
    let writes = fed(true, chunks)->0.writes;
    assert forall|k: int| 0 <= k < writes.len() implies (#[trigger] writes[k]).len() % (
    PAGE as nat) == 0 by {
        lemma_write_lengths_aligned(chunks, k);
    }
    lemma_offset_aligned(writes, i);
}

/// Once a chunk did not fill its last page, an uncached writer refuses every further one.
pub proof fn lemma_nothing_follows_a_tail(chunks: Seq<Seq<u8>>, more: Seq<u8>)
    requires
        chunks.len() > 0,
        chunks.last().len() % (PAGE as nat) != 0,
    ensures
        fed(true, chunks.push(more)) is None,
{
    let longer = chunks.push(more);
    assert(longer.drop_last() =~= chunks);
    lemma_writer_kind(true, chunks.drop_last());
    if let Some(all) = fed(true, chunks) {
        let before = fed(true, chunks.drop_last())->0;
        assert(all.writer == after_chunk(before.writer, chunks.last()));
        assert(all.writer.tail.len() > 0);
        assert(!accepts(all.writer));
    }
}

/// All of a chunk is either written at once or kept back: at once are whole pages of an uncached
/// file, with less than a page kept back, and all of a cached one.
pub proof fn lemma_chunks_are_split_at_a_page(writer: WriterView, data: Seq<u8>)
    ensures
        written_now(writer, data) + after_chunk(writer, data).tail.skip(writer.tail.len() as int)
            == data,
        after_chunk(writer, data).tail.take(writer.tail.len() as int) == writer.tail,
        after_chunk(writer, data).direct == writer.direct,
        writer.direct ==> written_now(writer, data).len() % 4096 == 0,
        after_chunk(writer, data).tail.len() - writer.tail.len() < 4096,
        !writer.direct ==> after_chunk(writer, data) == writer,
        accepts(writer) <==> !(writer.direct && writer.tail.len() > 0),
        written_last(writer) == if writer.direct {
            writer.tail
        } else {
            Seq::empty()
        },
{
    let n = whole_pages(data.len()) as int;
    let to = after_chunk(writer, data);
    assert(data.take(n) + data.skip(n) =~= data);
    if writer.direct {
        assert(to.tail.skip(writer.tail.len() as int) =~= data.skip(n));
        assert(to.tail.take(writer.tail.len() as int) =~= writer.tail);
    } else {
        assert(writer.tail.skip(writer.tail.len() as int) =~= Seq::empty());
        assert(writer.tail.take(writer.tail.len() as int) =~= writer.tail);
        assert(data + Seq::<u8>::empty() =~= data);
    }
}

} // verus!
