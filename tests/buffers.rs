use unowned_buf::utf8::{next_utf8, utf8_cont_assert, utf8_len};
use unowned_buf::{BufError, ByteSink, ByteSource, MemorySource, UnownedReadBuffer, UnownedWriteBuffer};

/// Hands out at most `step` bytes per read.
struct Trickle {
    data: Vec<u8>,
    pos: usize,
    step: usize,
}

impl ByteSource for Trickle {
    type Error = ();

    fn read(&mut self, buf: &mut [u8]) -> Result<usize, ()> {
        let n = (self.data.len() - self.pos).min(buf.len()).min(self.step);
        buf[..n].copy_from_slice(&self.data[self.pos..self.pos + n]);
        self.pos += n;
        Ok(n)
    }
}

/// Fails every read.
struct Broken;

impl ByteSource for Broken {
    type Error = u32;

    fn read(&mut self, _buf: &mut [u8]) -> Result<usize, u32> {
        Err(7)
    }
}

/// Takes at most `budget` bytes in total per round, then fails once; `refill` starts a
/// new round.
struct Flaky {
    taken: Vec<u8>,
    budget: usize,
    flushes: usize,
}

impl ByteSink for Flaky {
    type Error = &'static str;

    fn write(&mut self, data: &[u8]) -> Result<usize, &'static str> {
        if self.budget == 0 {
            return Err("refused");
        }
        let n = data.len().min(self.budget);
        self.budget -= n;
        self.taken.extend_from_slice(&data[..n]);
        Ok(n)
    }

    fn flush(&mut self) -> Result<(), &'static str> {
        self.flushes += 1;
        Ok(())
    }
}

/// Takes nothing, without failing.
struct Stuck;

impl ByteSink for Stuck {
    type Error = ();

    fn write(&mut self, _data: &[u8]) -> Result<usize, ()> {
        Ok(0)
    }

    fn flush(&mut self) -> Result<(), ()> {
        Ok(())
    }
}

#[test]
fn delimiter_limit_counts() {
    let data = vec![0xA, 0xB, 0xC, 0xD, 0xB, 0xE, 0xF];
    let mut src = MemorySource::new(data.clone());
    let mut buf: UnownedReadBuffer<16> = UnownedReadBuffer::new();
    let mut got = Vec::new();
    assert_eq!(buf.read_until_limit(&mut src, 0xB, 16, &mut got).unwrap(), 2);
    assert_eq!(buf.read_until_limit(&mut src, 0xB, 16, &mut got).unwrap(), 3);
    assert_eq!(buf.read_until_limit(&mut src, 0xB, 16, &mut got).unwrap(), 2);
    assert_eq!(got, data);
    assert_eq!(buf.read_until_limit(&mut src, 0xB, 16, &mut got).unwrap(), 0);
}

#[test]
fn delimiter_limit_stops_at_limit() {
    let mut buf: UnownedReadBuffer<16> = UnownedReadBuffer::new();
    buf.copy_into_internal_buffer(&[1, 2, 3, 4, 5]);
    let mut src = MemorySource::new(vec![]);
    let mut got = Vec::new();
    assert_eq!(buf.read_until_limit(&mut src, 4, 2, &mut got).unwrap(), 2);
    assert_eq!(got, vec![1, 2]);
    assert_eq!(buf.internal_buffer(), &[3, 4, 5]);
    assert_eq!(buf.read_until_limit(&mut src, 4, 2, &mut got).unwrap(), 2);
    assert_eq!(got, vec![1, 2, 3, 4]);
    assert_eq!(buf.read_until_limit(&mut src, 4, 0, &mut got).unwrap(), 0);
}

#[test]
fn read_until_across_refills() {
    let mut src = Trickle { data: b"abcdefghij\nrest".to_vec(), pos: 0, step: 3 };
    let mut buf: UnownedReadBuffer<16> = UnownedReadBuffer::new();
    let mut got = Vec::new();
    assert_eq!(buf.read_until(&mut src, b'\n', &mut got).unwrap(), 11);
    assert_eq!(got, b"abcdefghij\n".to_vec());
    got.clear();
    assert_eq!(buf.read_until(&mut src, b'\n', &mut got).unwrap(), 4);
    assert_eq!(got, b"rest".to_vec());
    assert_eq!(buf.read_until(&mut src, b'\n', &mut got).unwrap(), 0);
}

#[test]
fn compact_twice_is_once() {
    let mut buf: UnownedReadBuffer<16> = UnownedReadBuffer::new();
    buf.copy_into_internal_buffer(&[1, 2, 3, 4, 5, 6]);
    buf.skip(2);
    assert_eq!(buf.read_count(), 2);
    buf.compact();
    assert_eq!(buf.read_count(), 0);
    assert_eq!(buf.fill_count(), 4);
    assert_eq!(buf.internal_buffer(), &[3, 4, 5, 6]);
    buf.compact();
    assert_eq!(buf.read_count(), 0);
    assert_eq!(buf.fill_count(), 4);
    assert_eq!(buf.internal_buffer(), &[3, 4, 5, 6]);
    assert_eq!(buf.available_space(), 12);
}

#[test]
fn direct_buffer_operations() {
    let mut buf: UnownedReadBuffer<16> = UnownedReadBuffer::new();
    assert_eq!(buf.size(), 16);
    let mut src = MemorySource::new(vec![9; 20]);
    assert_eq!(buf.read_into_internal_buffer(&mut src).unwrap(), 16);
    assert_eq!(buf.available(), 16);
    assert_eq!(buf.available_space(), 0);
    buf.internal_buffer_mut()[0] = 1;
    assert_eq!(buf.internal_buffer()[0], 1);
    buf.consume(4);
    assert_eq!(buf.available(), 12);
    buf.skip(12);
    assert_eq!(buf.read_count(), 0);
    assert_eq!(buf.fill_count(), 0);
    assert_eq!(buf.read_into_internal_buffer(&mut src).unwrap(), 4);
    assert_eq!(buf.read_into_internal_buffer(&mut src).unwrap(), 0);
}

#[test]
fn try_read_full_and_partial() {
    let mut buf: UnownedReadBuffer<16> = UnownedReadBuffer::new();
    buf.copy_into_internal_buffer(&[1, 2, 3, 4, 5]);
    let mut out = [0u8; 2];
    assert_eq!(buf.try_read(&mut out), 2);
    assert_eq!(out, [1, 2]);
    assert_eq!(buf.read_count(), 2);
    let mut out = [0u8; 8];
    assert_eq!(buf.try_read(&mut out), 3);
    assert_eq!(&out[..3], &[3, 4, 5]);
    assert_eq!(buf.read_count(), 0);
    assert_eq!(buf.fill_count(), 0);
    assert_eq!(buf.try_read(&mut out), 0);
}

#[test]
fn read_serves_resident_bytes_without_reading() {
    let mut buf: UnownedReadBuffer<16> = UnownedReadBuffer::new();
    buf.copy_into_internal_buffer(&[1, 2]);
    let mut src = MemorySource::new(vec![3, 4]);
    let mut out = [0u8; 4];
    assert_eq!(buf.read(&mut src, &mut out).unwrap(), 2);
    assert_eq!(src.position(), 0);
    assert_eq!(buf.read(&mut src, &mut out).unwrap(), 2);
    assert_eq!(&out[..2], &[3, 4]);
    assert_eq!(buf.read(&mut src, &mut out).unwrap(), 0);
    assert_eq!(buf.read(&mut src, &mut []).unwrap(), 0);
}

#[test]
fn read_exact_hits_end_of_stream() {
    let mut src = MemorySource::new(vec![1, 2, 3]);
    let mut buf: UnownedReadBuffer<16> = UnownedReadBuffer::new();
    let mut out = [0u8; 5];
    assert!(matches!(buf.read_exact(&mut src, &mut out), Err(BufError::UnexpectedEof)));
    assert_eq!(&out[..3], &[1, 2, 3]);
    assert_eq!(buf.available(), 0);
}

#[test]
fn stream_errors_pass_through() {
    let mut buf: UnownedReadBuffer<16> = UnownedReadBuffer::new();
    let mut out = [0u8; 4];
    assert!(matches!(buf.read(&mut Broken, &mut out), Err(BufError::Stream(7))));
    assert!(matches!(buf.ensure_readable(&mut Broken), Err(BufError::Stream(7))));
    let mut text = String::new();
    assert!(matches!(buf.read_to_string(&mut Broken, &mut text), Err(BufError::Stream(7))));
}

#[test]
fn ensure_readable_and_fill_buf() {
    let mut buf: UnownedReadBuffer<16> = UnownedReadBuffer::new();
    let mut src = MemorySource::new(vec![5, 6, 7]);
    assert!(buf.ensure_readable(&mut src).unwrap());
    assert_eq!(buf.fill_buf(&mut src).unwrap(), &[5, 6, 7]);
    buf.consume(3);
    assert_eq!(buf.fill_buf(&mut src).unwrap(), &[] as &[u8]);
    assert!(!buf.ensure_readable(&mut src).unwrap());
}

#[test]
fn utf8_split_across_single_byte_reads() {
    let text = "añ€😀b\nçx😀\n€";
    let mut src = Trickle { data: text.as_bytes().to_vec(), pos: 0, step: 1 };
    let mut buf: UnownedReadBuffer<16> = UnownedReadBuffer::new();
    let mut got = String::new();
    let n = buf.read_to_string(&mut src, &mut got).unwrap();
    assert_eq!(n, text.len());
    assert_eq!(got, text);
    assert_eq!(buf.available(), 0);
}

#[test]
fn lines_split_across_small_reads() {
    let text = "añ€😀b\nçx😀\n€";
    for step in 1..6 {
        let mut src = Trickle { data: text.as_bytes().to_vec(), pos: 0, step };
        let mut buf: UnownedReadBuffer<16> = UnownedReadBuffer::new();
        let mut lines = Vec::new();
        loop {
            let mut line = String::new();
            let n = buf.read_line(&mut src, &mut line).unwrap();
            if n == 0 {
                break;
            }
            assert_eq!(n, line.len());
            lines.push(line);
        }
        assert_eq!(lines, vec!["añ€😀b\n".to_string(), "çx😀\n".to_string(), "€".to_string()]);
    }
}

#[test]
fn invalid_utf8_keeps_bytes() {
    let mut data = b"abcdefgh".to_vec();
    data.push(0xFF);
    data.extend_from_slice(b"tail");
    let mut src = MemorySource::new(data);
    let mut buf: UnownedReadBuffer<16> = UnownedReadBuffer::new();
    let mut text = String::new();
    assert!(matches!(buf.read_to_string(&mut src, &mut text), Err(BufError::InvalidData)));
    let mut rest = Vec::new();
    rest.extend_from_slice(text.as_bytes());
    rest.extend_from_slice(buf.internal_buffer());
    let mut more = Vec::new();
    buf.read_to_end(&mut src, &mut more).unwrap();
    assert_eq!(more[0] as usize, b'a' as usize + text.len());
    assert!(more.contains(&0xFF));
}

#[test]
fn truncated_sequence_at_end_of_stream() {
    let mut src = MemorySource::new(vec![b'a', b'b', 0xC3]);
    let mut buf: UnownedReadBuffer<16> = UnownedReadBuffer::new();
    let mut text = String::new();
    assert!(matches!(buf.read_to_string(&mut src, &mut text), Err(BufError::InvalidData)));
    assert_eq!(text, "");
    assert_eq!(buf.internal_buffer(), &[b'a', b'b', 0xC3]);
    let mut line = String::new();
    assert!(matches!(buf.read_line(&mut src, &mut line), Err(BufError::InvalidData)));
    assert_eq!(buf.available(), 3);
}

#[test]
fn overlong_encoding_is_invalid() {
    let mut src = MemorySource::new(vec![0xC0, 0x80, b'a', b'b', b'c', b'd']);
    let mut buf: UnownedReadBuffer<16> = UnownedReadBuffer::new();
    let mut text = String::new();
    assert!(matches!(buf.read_to_string(&mut src, &mut text), Err(BufError::InvalidData)));
    assert_eq!(buf.available(), 6);
}

#[test]
fn utf8_primitives() {
    assert_eq!(utf8_len(b'a'), 1);
    assert_eq!(utf8_len(0xC3), 2);
    assert_eq!(utf8_len(0xE2), 3);
    assert_eq!(utf8_len(0xF0), 4);
    assert_eq!(utf8_len(0x80), 0);
    assert_eq!(utf8_len(0xF8), 0);
    assert!(utf8_cont_assert(0x80));
    assert!(utf8_cont_assert(0xBF));
    assert!(!utf8_cont_assert(b'\n'));
    assert!(!utf8_cont_assert(0xC0));
    let euro = "€".as_bytes();
    assert_eq!(next_utf8(euro, 0, 3), Some(3));
    assert_eq!(next_utf8(euro, 0, 2), None);
    assert_eq!(next_utf8(&[0xE2, b'a', 0x80], 0, 3), None);
}

#[test]
fn write_buffers_until_full() {
    let mut buf: UnownedWriteBuffer<16> = UnownedWriteBuffer::new();
    assert_eq!(buf.size(), 16);
    assert_eq!(buf.try_write(&[1; 10]), 10);
    assert_eq!(buf.try_write(&[2; 10]), 6);
    assert_eq!(buf.available(), 0);
    assert_eq!(buf.try_write(&[3; 10]), 0);
    let mut sink: Vec<u8> = Vec::new();
    assert_eq!(buf.write(&mut sink, &[4; 20]).unwrap(), 16);
    assert_eq!(sink.len(), 16);
    assert_eq!(buf.flushable(), 16);
    assert_eq!(buf.internal_buffer(), &[4; 16]);
    buf.internal_buffer_mut()[0] = 5;
    buf.flush(&mut sink).unwrap();
    assert_eq!(sink.len(), 32);
    assert_eq!(sink[16], 5);
    assert_eq!(buf.write(&mut sink, &[]).unwrap(), 0);
}

#[test]
fn write_chunks_reach_sink_in_order() {
    let data: Vec<u8> = (0..200u32).map(|i| (i * 7 % 251) as u8).collect();
    for chunk in [1usize, 5, 15, 16, 17, 64] {
        let mut buf: UnownedWriteBuffer<16> = UnownedWriteBuffer::new();
        let mut sink: Vec<u8> = Vec::new();
        for part in data.chunks(chunk) {
            buf.write_all(&mut sink, part).unwrap();
        }
        buf.flush(&mut sink).unwrap();
        assert_eq!(sink, data);
    }
}

#[test]
fn partial_write_failure_keeps_the_rest() {
    let data: Vec<u8> = (1..=16).collect();
    let mut buf: UnownedWriteBuffer<16> = UnownedWriteBuffer::new();
    buf.write_all(&mut Vec::new(), &data).unwrap();
    let mut sink = Flaky { taken: Vec::new(), budget: 5, flushes: 0 };
    assert!(matches!(buf.flush(&mut sink), Err(BufError::Stream("refused"))));
    assert_eq!(sink.taken, (1..=5).collect::<Vec<u8>>());
    assert_eq!(buf.internal_buffer(), &(6..=16).collect::<Vec<u8>>()[..]);
    assert_eq!(sink.flushes, 0);
    sink.budget = 100;
    buf.flush(&mut sink).unwrap();
    assert_eq!(sink.taken, data);
    assert_eq!(buf.flushable(), 0);
    assert_eq!(sink.flushes, 1);
}

#[test]
fn first_write_failure_changes_nothing() {
    let mut buf: UnownedWriteBuffer<16> = UnownedWriteBuffer::new();
    buf.try_write(&[1, 2, 3]);
    let mut sink = Flaky { taken: Vec::new(), budget: 0, flushes: 0 };
    assert!(matches!(buf.flush(&mut sink), Err(BufError::Stream("refused"))));
    assert_eq!(buf.internal_buffer(), &[1, 2, 3]);
}

#[test]
fn sink_that_takes_nothing() {
    let mut buf: UnownedWriteBuffer<16> = UnownedWriteBuffer::new();
    buf.try_write(&[1, 2, 3]);
    assert!(matches!(buf.flush(&mut Stuck), Err(BufError::WriteZero)));
    assert_eq!(buf.internal_buffer(), &[1, 2, 3]);
}

#[test]
fn borrowed_write_buffer_is_a_sink() {
    let mut buf: UnownedWriteBuffer<16> = UnownedWriteBuffer::new();
    let mut sink: Vec<u8> = Vec::new();
    {
        let mut paired = buf.borrow(&mut sink);
        assert_eq!(paired.write(b"hello ").unwrap(), 6);
        paired.write_all(b"buffered world").unwrap();
        paired.flush().unwrap();
    }
    assert_eq!(sink, b"hello buffered world".to_vec());
}

#[test]
fn borrowed_read_buffer_is_a_source() {
    let mut buf: UnownedReadBuffer<16> = UnownedReadBuffer::new();
    let mut src = MemorySource::new(b"first line\nsecond\nthird and the rest".to_vec());
    let mut paired = buf.borrow(&mut src);
    let mut line = String::new();
    assert_eq!(paired.read_line(&mut line).unwrap(), 11);
    assert_eq!(line, "first line\n");
    let mut word = Vec::new();
    assert_eq!(paired.read_until(b'\n', &mut word).unwrap(), 7);
    let mut two = [0u8; 2];
    paired.read_exact(&mut two).unwrap();
    assert_eq!(&two, b"th");
    assert_eq!(paired.fill_buf().unwrap()[0], b'i');
    paired.consume(1);
    let mut one = [0u8; 1];
    assert_eq!(paired.read(&mut one).unwrap(), 1);
    assert_eq!(&one, b"r");
    let mut rest = String::new();
    paired.read_to_string(&mut rest).unwrap();
    assert_eq!(rest, "d and the rest");
    let mut none = Vec::new();
    assert_eq!(paired.read_to_end(&mut none).unwrap(), 0);
}

#[test]
fn buffer_read_through_another_buffer() {
    let data: Vec<u8> = (0..100u8).collect();
    let mut inner_buf: UnownedReadBuffer<16> = UnownedReadBuffer::new();
    let mut src = MemorySource::new(data.clone());
    let mut paired = inner_buf.borrow(&mut src);
    let mut outer: UnownedReadBuffer<32> = UnownedReadBuffer::new();
    let mut got = Vec::new();
    assert_eq!(outer.read_to_end(&mut paired, &mut got).unwrap(), 100);
    assert_eq!(got, data);
}
