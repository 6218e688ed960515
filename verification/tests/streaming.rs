use cvv::directio::{
    bypasses_cache, opens_uncached, start_for, AlignedBuffer, ChunkWrite, DestWriter, BUFFER_SIZE,
    DIRECT_WRITE_THRESHOLD, PAGE,
};
use cvv::failure::{ErrorKind, IoError};
use cvv::hashing::StreamHash;
use cvv::stream::{read_full, CopyStage, FileCopy, ReadStep};
use xxhash_rust::xxh3::xxh3_64;

fn other(message: &str) -> IoError {
    IoError::new(ErrorKind::Other, message)
}

fn bytes(n: usize) -> Vec<u8> {
    (0..n).map(|i| (i * 31 % 251) as u8).collect()
}

#[test]
fn reads_go_on_until_the_buffer_is_full() {
    assert!(matches!(read_full(0, 10, Ok(4)), ReadStep::Again(4)));
    assert!(matches!(read_full(4, 10, Ok(6)), ReadStep::Done(10)));
    assert!(matches!(read_full(4, 10, Ok(0)), ReadStep::Done(4)));
    assert!(matches!(read_full(0, 10, Ok(0)), ReadStep::Done(0)));
}

#[test]
fn interrupted_reads_are_repeated() {
    let interrupted = IoError::new(ErrorKind::Interrupted, "signal");
    assert!(matches!(read_full(3, 10, Err(interrupted)), ReadStep::Again(3)));
}

#[test]
fn failed_reads_end_the_filling() {
    match read_full(3, 10, Err(other("disk"))) {
        ReadStep::Failed(error) => {
            assert_eq!(error.kind, ErrorKind::Other);
            assert_eq!(error.message, "disk");
        }
        _ => panic!("a failure was not reported"),
    }
}

#[test]
fn aligned_buffers_start_at_a_page() {
    let mut buffer = AlignedBuffer::new(10_000);
    assert_eq!(buffer.as_slice().len(), 10_000);
    assert_eq!(buffer.as_slice().as_ptr() as usize % PAGE, 0);
    assert!(buffer.as_slice().iter().all(|byte| *byte == 0));
    buffer.as_mut_slice()[9_999] = 5;
    assert_eq!(buffer.as_slice()[9_999], 5);
    assert_eq!(buffer.as_mut_slice().as_ptr() as usize % PAGE, 0);
}

#[test]
fn a_buffer_begins_at_the_offset_that_was_found() {
    assert_eq!(start_for(0), 0);
    assert_eq!(start_for(17), 17);
    assert_eq!(start_for(PAGE - 1), PAGE - 1);
    assert_eq!(start_for(PAGE), 0);
    assert_eq!(start_for(usize::MAX), 0);
    let storage = bytes(3 + PAGE - 1);
    let buffer = AlignedBuffer::within(storage.clone(), 100, 3);
    assert_eq!(buffer.as_slice(), &storage[100..103]);
    let unaligned = AlignedBuffer::within(storage.clone(), usize::MAX, 3);
    assert_eq!(unaligned.as_slice(), &storage[..3]);
}

#[test]
fn a_refused_file_is_opened_through_the_cache() {
    assert!(opens_uncached(DIRECT_WRITE_THRESHOLD, false, false));
    assert!(!opens_uncached(DIRECT_WRITE_THRESHOLD, false, true));
    assert!(!opens_uncached(DIRECT_WRITE_THRESHOLD, true, false));
    assert!(!opens_uncached(DIRECT_WRITE_THRESHOLD - 1, false, false));
}

#[test]
fn only_large_files_bypass_the_cache() {
    assert!(!bypasses_cache(DIRECT_WRITE_THRESHOLD - 1, false));
    assert!(bypasses_cache(DIRECT_WRITE_THRESHOLD, false));
    assert!(!bypasses_cache(DIRECT_WRITE_THRESHOLD, true));
    assert_eq!(DIRECT_WRITE_THRESHOLD, 16 * 1024 * 1024);
    assert_eq!(BUFFER_SIZE, 8 * 1024 * 1024);
}

#[test]
fn files_are_extended_before_they_are_written() {
    assert_eq!(DestWriter::create(0, false).1, None);
    assert_eq!(DestWriter::create(123, false).1, Some(123));
    assert_eq!(DestWriter::create(DIRECT_WRITE_THRESHOLD, true).1, Some(DIRECT_WRITE_THRESHOLD));
}

fn written(direct: bool, chunks: &[Vec<u8>]) -> Result<Vec<u8>, IoError> {
    let (mut writer, _) = DestWriter::create(1, direct);
    let mut file = Vec::new();
    for chunk in chunks {
        match writer.write_chunk(chunk)? {
            ChunkWrite::Whole => {
                assert!(!direct);
                file.extend_from_slice(chunk);
            }
            ChunkWrite::Aligned(n) => {
                assert!(direct);
                assert_eq!(n % PAGE, 0);
                assert_eq!(file.len() % PAGE, 0);
                assert_eq!(writer.aligned_bytes(n).as_ptr() as usize % PAGE, 0);
                file.extend_from_slice(writer.aligned_bytes(n));
            }
        }
        writer.chunk_written(chunk);
    }
    if let Some(rest) = writer.finish() {
        assert!(direct);
        assert!(rest.len() < PAGE);
        file.extend_from_slice(rest);
    }
    Ok(file)
}

#[test]
fn a_cached_file_holds_its_chunks() {
    let chunks = vec![bytes(100), bytes(5000), bytes(1)];
    assert_eq!(written(false, &chunks).unwrap(), chunks.concat());
}

#[test]
fn an_uncached_file_holds_its_chunks() {
    let chunks = vec![bytes(2 * PAGE), bytes(PAGE), bytes(PAGE + 77)];
    assert_eq!(written(true, &chunks).unwrap(), chunks.concat());
    let short = vec![bytes(10)];
    assert_eq!(written(true, &short).unwrap(), short.concat());
    assert_eq!(written(true, &[]).unwrap(), Vec::<u8>::new());
    let full = vec![bytes(BUFFER_SIZE)];
    assert_eq!(written(true, &full).unwrap(), full.concat());
}

#[test]
fn nothing_may_follow_a_part_filled_page() {
    let error = written(true, &[bytes(PAGE + 1), bytes(PAGE)]).unwrap_err();
    assert_eq!(error.kind, ErrorKind::InvalidInput);
    assert_eq!(error.message, "unaligned chunk before final chunk");
}

#[test]
fn hashes_are_those_of_xxh3() {
    for n in [0usize, 1, 3, 17, 240, 241, 1024, 5000, 100_000] {
        let data = bytes(n);
        let mut hash = StreamHash::new();
        hash.update(&data);
        assert_eq!(hash.text(), format!("{:016X}", xxh3_64(&data)));
    }
    assert_eq!(StreamHash::new().text(), "2D06800538D394C2");
}

#[test]
fn hashes_do_not_depend_on_the_chunks() {
    let data = bytes(70_000);
    let mut whole = StreamHash::new();
    whole.update(&data);
    for size in [1usize, 7, 255, 256, 257, 1000, 65_536] {
        let mut parts = StreamHash::new();
        for chunk in data.chunks(size) {
            parts.update(chunk);
        }
        assert_eq!(parts.text(), whole.text());
    }
}

fn copy(source: &[u8], buffer_size: usize) -> (FileCopy, Vec<Vec<u8>>) {
    let mut copy = FileCopy::new();
    let mut chunks: Vec<Vec<u8>> = Vec::new();
    let mut at = 0;
    let mut done: u64 = 0;
    loop {
        match copy.stage() {
            CopyStage::Polling => copy.poll(false),
            CopyStage::Reading => {
                let n = buffer_size.min(source.len() - at);
                let mut buffer = vec![0u8; buffer_size];
                buffer[..n].copy_from_slice(&source[at..at + n]);
                at += n;
                copy.read(Ok(n), &buffer);
                if n > 0 {
                    chunks.push(buffer[..n].to_vec());
                }
            }
            CopyStage::Sending => {
                done += chunks.last().unwrap().len() as u64;
                assert_eq!(copy.sent(true), Some(done));
                assert_eq!(copy.total(), done);
            }
            CopyStage::Ended => break,
        }
    }
    (copy, chunks)
}

#[test]
fn a_copy_reports_the_size_and_hash_of_its_source() {
    let source = bytes(10_000);
    let (copied, chunks) = copy(&source, PAGE);
    let (size, hash) = copied.conclude(vec![Ok(()), Ok(())]).unwrap();
    assert_eq!(size, 10_000);
    assert_eq!(hash, format!("{:016X}", xxh3_64(&source)));
    assert_eq!(written(true, &chunks).unwrap(), source);
    assert_eq!(written(false, &chunks).unwrap(), source);
}

#[test]
fn an_empty_file_is_copied_too() {
    let (copied, chunks) = copy(&[], PAGE);
    assert!(chunks.is_empty());
    let (size, hash) = copied.conclude(vec![Ok(())]).unwrap();
    assert_eq!(size, 0);
    assert_eq!(hash, "2D06800538D394C2");
}

#[test]
fn a_stop_ends_a_copy() {
    let mut copied = FileCopy::new();
    copied.poll(true);
    assert_eq!(copied.stage(), CopyStage::Ended);
    let error = copied.conclude(vec![Err(other("late"))]).unwrap_err();
    assert_eq!(error.kind, ErrorKind::Interrupted);
    assert_eq!(error.message, "aborted");
}

#[test]
fn a_copy_looks_for_a_stop_before_each_buffer() {
    let mut copied = FileCopy::new();
    for _ in 0..3 {
        assert_eq!(copied.stage(), CopyStage::Polling);
        copied.poll(false);
        assert_eq!(copied.stage(), CopyStage::Reading);
        copied.read(Ok(2), &[1, 2, 3]);
        assert_eq!(copied.stage(), CopyStage::Sending);
        copied.sent(true);
    }
    assert_eq!(copied.total(), 6);
    copied.poll(true);
    assert_eq!(copied.stage(), CopyStage::Ended);
}

#[test]
fn a_failed_read_comes_before_failed_writes() {
    let mut copied = FileCopy::new();
    copied.poll(false);
    copied.read(Err(other("read")), &[]);
    assert_eq!(copied.stage(), CopyStage::Ended);
    assert_eq!(copied.conclude(vec![Err(other("write"))]).unwrap_err().message, "read");
}

#[test]
fn the_first_failed_write_is_reported() {
    let mut copied = FileCopy::new();
    copied.poll(false);
    copied.read(Ok(2), &[1, 2]);
    assert_eq!(copied.sent(false), None);
    assert_eq!(copied.stage(), CopyStage::Ended);
    let writers = vec![Ok(()), Err(other("second")), Err(other("third"))];
    assert_eq!(copied.conclude(writers).unwrap_err().message, "second");
}

fn buffers(source: &[u8], most: usize, len: usize) -> Vec<Vec<u8>> {
    let mut chunks = Vec::new();
    let mut at = 0;
    loop {
        let begin = at;
        let mut filled = 0;
        loop {
            let n = most.min(len - filled).min(source.len() - at);
            at += n;
            match read_full(filled, len, Ok(n)) {
                ReadStep::Again(m) => filled = m,
                ReadStep::Done(m) => {
                    assert_eq!(m, at - begin);
                    break;
                }
                ReadStep::Failed(_) => panic!("no read failed"),
            }
        }
        if at == begin {
            return chunks;
        }
        chunks.push(source[begin..at].to_vec());
    }
}

#[test]
fn buffers_hold_the_pieces_of_the_source_however_it_is_read() {
    for length in [0usize, 1, 99, 100, 101, 250, 300] {
        let source = bytes(length);
        let pieces: Vec<Vec<u8>> = source.chunks(100).map(|piece| piece.to_vec()).collect();
        for most in [1usize, 7, 33, 100, 1000] {
            assert_eq!(buffers(&source, most, 100), pieces);
        }
    }
}
