use buffered_reader::BufferedReader;
use buffered_reader::ByteSource;
use buffered_reader::MarkRead;
use std::io;

#[test]
fn test_buffered_reader() {
    let inner: &[u8] = &[5, 6, 7, 0, 1, 2, 3, 4];
    let mut reader = BufferedReader::with_capacity(2, inner);

    let mut buf = [0, 0, 0];
    let nread = reader.read(&mut buf);
    assert_eq!(nread.unwrap(), 3);
    assert_eq!(buf, [5, 6, 7]);
    assert_eq!(reader.buffer(), []);

    let mut buf = [0, 0];
    let nread = reader.read(&mut buf);
    assert_eq!(nread.unwrap(), 2);
    assert_eq!(buf, [0, 1]);
    assert_eq!(reader.buffer(), [2]);

    let mut buf = [0];
    let nread = reader.read(&mut buf);
    assert_eq!(nread.unwrap(), 1);
    assert_eq!(buf, [2]);
    assert_eq!(reader.buffer(), []);

    let mut buf = [0, 0, 0];
    let nread = reader.read(&mut buf);
    assert_eq!(nread.unwrap(), 2);
    assert_eq!(buf, [3, 4, 0]);
    assert_eq!(reader.buffer(), []);

    assert_eq!(reader.read(&mut buf).unwrap(), 0);
}

#[test]
fn test_buffered_mark() {
    let inner: &[u8] = &[5, 6, 7, 0, 1, 2, 3, 4];
    let mut reader = BufferedReader::with_capacity(2, inner);

    let _ = reader.mark(2);
    let mut buf = [0, 0, 0];
    let nread = reader.read(&mut buf);
    assert_eq!(nread.unwrap(), 3);
    assert_eq!(buf, [5, 6, 7]);
    assert_eq!(reader.buffer(), []);

    let _ = reader.mark(2);
    let mut buf = [0, 0];
    let nread = reader.read(&mut buf);
    assert_eq!(nread.unwrap(), 2);
    assert_eq!(buf, [0, 1]);
    assert_eq!(reader.buffer(), [2]);

    let mut buf = [0];
    let nread = reader.read(&mut buf);
    assert_eq!(nread.unwrap(), 1);
    assert_eq!(buf, [2]);
    assert_eq!(reader.buffer(), []);

    let mut buf = [0, 0, 0];
    let nread = reader.read(&mut buf);
    assert_eq!(nread.unwrap(), 2);
    assert_eq!(buf, [3, 4, 0]);
    assert_eq!(reader.buffer(), []);

    assert_eq!(reader.read(&mut buf).unwrap(), 0);
}

#[test]
fn test_buffered_reset() {
    let inner: &[u8] = &[5, 6, 7, 0, 1, 2, 3, 4];
    let mut reader = BufferedReader::with_capacity(2, inner);

    let _ = reader.mark(2);
    let mut buf = [0, 0, 0];
    let nread = reader.read(&mut buf);
    assert_eq!(nread.unwrap(), 3);
    assert_eq!(buf, [5, 6, 7]);
    assert_eq!(reader.buffer(), []);

    // should do nothing
    let _ = reader.reset();

    let _ = reader.mark(2);
    let mut buf = [0, 0];
    let nread = reader.read(&mut buf);
    assert_eq!(nread.unwrap(), 2);
    assert_eq!(buf, [0, 1]);
    assert_eq!(reader.buffer(), [2]);

    // should work
    let _ = reader.reset();

    // read the buffer again
    buf = [0, 0];
    let nread = reader.read(&mut buf);
    assert_eq!(nread.unwrap(), 2);
    assert_eq!(buf, [0, 1]);
    assert_eq!(reader.buffer(), [2]);

    let mut buf = [0];
    let nread = reader.read(&mut buf);
    assert_eq!(nread.unwrap(), 1);
    assert_eq!(buf, [2]);
    assert_eq!(reader.buffer(), []);

    // should do nothing
    let _ = reader.reset();

    let mut buf = [0, 0, 0];
    let nread = reader.read(&mut buf);
    assert_eq!(nread.unwrap(), 2);
    assert_eq!(buf, [3, 4, 0]);
    assert_eq!(reader.buffer(), []);

    assert_eq!(reader.read(&mut buf).unwrap(), 0);
}

/// A source whose every fill fails.
struct FailingSource;

impl ByteSource for FailingSource {
    fn fill(&mut self, _dst: &mut [u8]) -> io::Result<usize> {
        Err(io::Error::new(io::ErrorKind::Other, "source failed"))
    }
}

/// A source that hands out at most one byte per fill.
struct TrickleSource {
    bytes: Vec<u8>,
}

impl ByteSource for TrickleSource {
    fn fill(&mut self, dst: &mut [u8]) -> io::Result<usize> {
        if self.bytes.is_empty() || dst.is_empty() {
            Ok(0)
        } else {
            dst[0] = self.bytes.remove(0);
            Ok(1)
        }
    }
}

#[test]
fn new_reader_has_default_capacity() {
    let inner: &[u8] = &[9; 20];
    let mut reader = BufferedReader::new(inner);
    assert_eq!(reader.buffer(), []);
    let mut buf = [0];
    assert_eq!(reader.read(&mut buf).unwrap(), 1);
    // One fill pulled the whole source, which fits in the default buffer.
    assert_eq!(reader.buffer().len(), 19);
    assert_eq!(buffered_reader::DEFAULT_BUF_SIZE, 8196);
}

#[test]
fn reads_of_any_sizes_reproduce_the_source() {
    let data: Vec<u8> = (0..50u8).collect();
    let mut reader = BufferedReader::with_capacity(4, data.as_slice());
    let sizes = [1usize, 3, 7, 2, 11, 5, 9, 4, 13, 6];
    let mut out: Vec<u8> = Vec::new();
    let mut k = 0;
    loop {
        let mut buf = vec![0u8; sizes[k % sizes.len()]];
        let n = reader.read(&mut buf).unwrap();
        if n == 0 {
            break;
        }
        out.extend_from_slice(&buf[..n]);
        k += 1;
    }
    assert_eq!(out, data);
    let mut buf = [0u8; 8];
    assert_eq!(reader.read(&mut buf).unwrap(), 0);
}

#[test]
fn short_final_read_then_zero() {
    let inner: &[u8] = &[1, 2, 3, 4, 5];
    let mut reader = BufferedReader::with_capacity(3, inner);
    let mut buf = [0u8; 3];
    assert_eq!(reader.read(&mut buf).unwrap(), 3);
    assert_eq!(buf, [1, 2, 3]);
    let mut buf = [7u8; 3];
    assert_eq!(reader.read(&mut buf).unwrap(), 2);
    assert_eq!(buf, [4, 5, 7]);
    assert_eq!(reader.read(&mut buf).unwrap(), 0);
    assert_eq!(buf, [4, 5, 7]);
}

#[test]
fn reset_within_limit_replays_bytes() {
    let inner: &[u8] = &[10, 11, 12, 13, 14, 15];
    let mut reader = BufferedReader::with_capacity(8, inner);
    let mut buf = [0u8; 1];
    assert_eq!(reader.read(&mut buf).unwrap(), 1);
    reader.mark(4).unwrap();
    let mut buf = [0u8; 3];
    assert_eq!(reader.read(&mut buf).unwrap(), 3);
    assert_eq!(buf, [11, 12, 13]);
    reader.reset().unwrap();
    assert_eq!(reader.buffer(), [11, 12, 13, 14, 15]);
    let mut again = [0u8; 3];
    assert_eq!(reader.read(&mut again).unwrap(), 3);
    assert_eq!(again, [11, 12, 13]);
}

#[test]
fn reset_at_exact_limit_still_rewinds() {
    let inner: &[u8] = &[1, 2, 3, 4];
    let mut reader = BufferedReader::with_capacity(4, inner);
    reader.mark(2).unwrap();
    let mut buf = [0u8; 2];
    assert_eq!(reader.read(&mut buf).unwrap(), 2);
    reader.reset().unwrap();
    assert_eq!(reader.buffer(), [1, 2, 3, 4]);
}

#[test]
fn consuming_past_limit_drops_mark() {
    let inner: &[u8] = &[1, 2, 3, 4, 5, 6];
    let mut reader = BufferedReader::with_capacity(8, inner);
    reader.mark(1).unwrap();
    assert_eq!(reader.buffer(), [1, 2, 3, 4, 5, 6]);
    let mut buf = [0u8; 2];
    assert_eq!(reader.read(&mut buf).unwrap(), 2);
    reader.reset().unwrap();
    assert_eq!(reader.buffer(), [3, 4, 5, 6]);
}

#[test]
fn refill_drops_mark() {
    let inner: &[u8] = &[1, 2, 3, 4, 5, 6];
    let mut reader = BufferedReader::with_capacity(4, inner);
    reader.mark(4).unwrap();
    assert_eq!(reader.buffer(), [1, 2, 3, 4]);
    let mut buf = [0u8; 1];
    assert_eq!(reader.read(&mut buf).unwrap(), 1);
    assert_eq!(reader.fill_buf().unwrap(), [2, 3, 4, 5]);
    reader.reset().unwrap();
    assert_eq!(reader.buffer(), [2, 3, 4, 5]);
}

#[test]
fn read_growing_buffer_keeps_buffered_bytes() {
    let inner: &[u8] = &[1, 2, 3, 4, 5, 6, 7];
    let mut reader = BufferedReader::with_capacity(3, inner);
    let mut buf = [0u8; 1];
    assert_eq!(reader.read(&mut buf).unwrap(), 1);
    assert_eq!(reader.buffer(), [2, 3]);
    let mut big = [0u8; 6];
    assert_eq!(reader.read(&mut big).unwrap(), 6);
    assert_eq!(big, [2, 3, 4, 5, 6, 7]);
}

#[test]
fn mark_growing_buffer_keeps_buffered_bytes() {
    let inner: &[u8] = &[1, 2, 3, 4, 5, 6, 7];
    let mut reader = BufferedReader::with_capacity(2, inner);
    let mut buf = [0u8; 1];
    assert_eq!(reader.read(&mut buf).unwrap(), 1);
    assert_eq!(reader.buffer(), [2]);
    reader.mark(5).unwrap();
    assert_eq!(reader.buffer(), [2, 3, 4, 5, 6]);
    let mut five = [0u8; 5];
    assert_eq!(reader.read(&mut five).unwrap(), 5);
    reader.reset().unwrap();
    assert_eq!(reader.buffer(), [2, 3, 4, 5, 6]);
}

#[test]
fn consume_stops_at_valid_data() {
    let inner: &[u8] = &[1, 2, 3];
    let mut reader = BufferedReader::with_capacity(4, inner);
    assert_eq!(reader.fill_buf().unwrap(), [1, 2, 3]);
    reader.consume(1);
    assert_eq!(reader.buffer(), [2, 3]);
    reader.consume(10);
    assert_eq!(reader.buffer(), []);
}

#[test]
fn fill_buf_moves_bytes_to_front_and_appends() {
    let inner: &[u8] = &[1, 2, 3, 4, 5];
    let mut reader = BufferedReader::with_capacity(3, inner);
    let mut buf = [0u8; 2];
    assert_eq!(reader.read(&mut buf).unwrap(), 2);
    assert_eq!(reader.buffer(), [3]);
    assert_eq!(reader.fill_buf().unwrap(), [3, 4, 5]);
}

#[test]
fn short_source_reads_are_passed_on() {
    let mut reader = BufferedReader::with_capacity(4, TrickleSource { bytes: vec![1, 2, 3] });
    let mut buf = [0u8; 3];
    assert_eq!(reader.read(&mut buf).unwrap(), 1);
    assert_eq!(buf, [1, 0, 0]);
    assert_eq!(reader.read(&mut buf).unwrap(), 1);
    assert_eq!(buf, [2, 0, 0]);
}

#[test]
fn mark_reports_failed_refill() {
    let mut reader = BufferedReader::with_capacity(4, FailingSource);
    let err = reader.mark(2).unwrap_err();
    assert_eq!(err.kind(), io::ErrorKind::Other);
    assert_eq!(err.to_string(), "source failed");
    assert!(reader.fill_buf().is_err());
    assert!(reader.mark(0).is_ok());
}

#[test]
fn read_swallows_failed_refill() {
    let mut reader = BufferedReader::with_capacity(4, FailingSource);
    let mut buf = [5u8; 2];
    assert_eq!(reader.read(&mut buf).unwrap(), 0);
    assert_eq!(buf, [5, 5]);
    reader.reset().unwrap();
}

#[test]
fn slice_source_hands_out_in_order() {
    let mut src: &[u8] = &[1, 2, 3];
    let mut dst = [0u8; 2];
    assert_eq!(src.fill(&mut dst).unwrap(), 2);
    assert_eq!(dst, [1, 2]);
    assert_eq!(src, [3]);
    let mut dst = [0u8; 2];
    assert_eq!(src.fill(&mut dst).unwrap(), 1);
    assert_eq!(dst, [3, 0]);
    assert_eq!(src.fill(&mut dst).unwrap(), 0);
}
