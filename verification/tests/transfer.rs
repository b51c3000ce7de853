use std::collections::VecDeque;
use std::io::{Error, ErrorKind};

use bytes::Bytes;
use openlake::error::{IoError, IoResult};
use openlake::fill::{place, read_full, Fill};
use openlake::pump::{pump_n, Transfer, STREAM_CHUNK_BYTES};
use openlake::raw::{pump_compio_to_sink, RawSource};
use openlake::stream::{
    ByteSink, ByteStream, BytesByteStream, RopeByteStream, VecByteSink, VecByteStream,
};
use openlake::window::{SkipTakeStream, Window};

fn rope(parts: &[&[u8]]) -> RopeByteStream {
    RopeByteStream::new(parts.iter().map(|b| Bytes::copy_from_slice(b)).collect())
}

fn refused() -> IoError {
    IoError::Io(Error::from(ErrorKind::ConnectionRefused))
}

fn is_refused(e: &IoError) -> bool {
    matches!(e, IoError::Io(e) if e.kind() == ErrorKind::ConnectionRefused)
}

/// Source that yields the supplied results in order, then the end.
struct Script(VecDeque<IoResult<Bytes>>);

impl ByteStream for Script {
    fn read(&mut self) -> IoResult<Bytes> {
        self.0.pop_front().unwrap_or_else(|| Ok(Bytes::new()))
    }
}

fn fails_after(parts: &[&[u8]]) -> Script {
    let mut events: VecDeque<IoResult<Bytes>> = parts
        .iter()
        .map(|b| Ok(Bytes::copy_from_slice(b)))
        .collect();
    events.push_back(Err(refused()));
    Script(events)
}

/// Sink that takes a number of writes and then refuses, as it does once it is
/// finished.
struct Picky {
    left: usize,
    writes: Vec<Vec<u8>>,
}

impl ByteSink for Picky {
    fn write_all(&mut self, buf: Bytes) -> IoResult<()> {
        if self.left == 0 {
            return Err(refused());
        }
        self.left -= 1;
        self.writes.push(buf.to_vec());
        Ok(())
    }

    fn finish(&mut self) -> IoResult<()> {
        self.left = 0;
        Ok(())
    }
}

fn message(r: IoResult<()>) -> String {
    match r {
        Err(IoError::UnexpectedEof(m)) => m,
        _ => panic!("expected an early end"),
    }
}

#[test]
fn vec_stream_yields_all_and_then_ends() {
    let mut s = VecByteStream::new(b"hello".to_vec());
    assert_eq!(&s.read().unwrap()[..], b"hello");
    assert!(s.read().unwrap().is_empty());
    assert!(s.read().unwrap().is_empty());
}

#[test]
fn bytes_stream_yields_all_and_then_ends() {
    let mut s = BytesByteStream::new(Bytes::from_static(b"hello"));
    assert_eq!(&s.read().unwrap()[..], b"hello");
    assert!(s.read().unwrap().is_empty());
}

#[test]
fn rope_stream_yields_each_frame_in_order() {
    let mut s = rope(&[b"a", b"", b"bc"]);
    assert_eq!(&s.read().unwrap()[..], b"a");
    assert_eq!(&s.read().unwrap()[..], b"bc");
    assert!(s.read().unwrap().is_empty());
    assert!(s.read().unwrap().is_empty());
}

#[test]
fn rope_stream_ends_only_after_its_last_byte() {
    let mut s = rope(&[b"", b"", b"a", b"", b"", b"bc", b""]);
    assert_eq!(&s.read().unwrap()[..], b"a");
    assert_eq!(&s.read().unwrap()[..], b"bc");
    assert!(s.read().unwrap().is_empty());
    assert!(s.read().unwrap().is_empty());
    let mut none = rope(&[b"", b""]);
    assert!(none.read().unwrap().is_empty());
    assert!(none.read().unwrap().is_empty());
    let mut dst = VecByteSink::new();
    pump_n(&mut rope(&[b"", b"a", b"", b"bc"]), &mut dst, 3).unwrap();
    assert_eq!(dst.buf, b"abc");
}

#[test]
fn finished_sink_accepts_no_more_writes() {
    let mut sink = VecByteSink::new();
    assert!(!sink.finished);
    sink.write_all(Bytes::from_static(b"ab")).unwrap();
    sink.finish().unwrap();
    assert!(sink.finished);
    let r = sink.write_all(Bytes::from_static(b"cd"));
    assert!(matches!(r, Err(IoError::Finished)));
    assert_eq!(sink.buf, b"ab");
    sink.write_all(Bytes::new()).unwrap();
    sink.finish().unwrap();
    assert_eq!(sink.into_inner(), b"ab".to_vec());
}

#[test]
fn pump_into_a_finished_sink_moves_nothing() {
    let mut dst = VecByteSink::with_capacity(8);
    dst.finish().unwrap();
    let r = pump_n(&mut rope(&[b"012", b"34"]), &mut dst, 4);
    assert!(matches!(r, Err(IoError::Finished)));
    assert!(dst.buf.is_empty());
    pump_n(&mut rope(&[b"012"]), &mut dst, 0).unwrap();
}

#[test]
fn vec_sink_accumulates() {
    let mut sink = VecByteSink::new();
    sink.write_all(Bytes::from_static(b"ab")).unwrap();
    sink.write_all(Bytes::new()).unwrap();
    sink.write_all(Bytes::from_static(b"cd")).unwrap();
    sink.finish().unwrap();
    assert_eq!(sink.buf, b"abcd");
    assert_eq!(sink.into_inner(), b"abcd".to_vec());
    assert!(VecByteSink::with_capacity(16).into_inner().is_empty());
    assert!(VecByteSink::default().buf.is_empty());
}

#[test]
fn pump_moves_exactly_the_size() {
    let mut src = rope(&[b"0123", b"4567", b"89"]);
    let mut dst = VecByteSink::new();
    pump_n(&mut src, &mut dst, 6).unwrap();
    assert_eq!(dst.buf, b"012345");
    // The rest of the chunk that was cut is gone; the next one is not.
    assert_eq!(&src.read().unwrap()[..], b"89");
}

#[test]
fn pump_of_nothing_touches_neither_end() {
    let mut src = rope(&[b"0123"]);
    let mut dst = VecByteSink::new();
    pump_n(&mut src, &mut dst, 0).unwrap();
    assert!(dst.buf.is_empty());
    assert_eq!(&src.read().unwrap()[..], b"0123");
}

#[test]
fn pump_does_not_read_past_the_size() {
    let mut src = rope(&[b"0123", b"4567"]);
    let mut dst = VecByteSink::new();
    pump_n(&mut src, &mut dst, 4).unwrap();
    assert_eq!(dst.buf, b"0123");
    assert_eq!(&src.read().unwrap()[..], b"4567");
}

#[test]
fn pump_reports_a_short_source() {
    let mut src = rope(&[b"012", b"34"]);
    let mut dst = VecByteSink::new();
    let r = pump_n(&mut src, &mut dst, 12);
    assert_eq!(message(r), "pump_n: source ended at 5/12");
    assert_eq!(dst.buf, b"01234");
}

#[test]
fn pump_passes_on_a_failing_source() {
    let mut src = fails_after(&[b"012", b"34"]);
    let mut dst = VecByteSink::new();
    let r = pump_n(&mut src, &mut dst, 12);
    assert!(is_refused(&r.unwrap_err()));
    assert_eq!(dst.buf, b"01234");
}

#[test]
fn pump_stops_at_a_failing_sink() {
    let mut src = rope(&[b"012", b"34", b"56"]);
    let mut dst = Picky {
        left: 1,
        writes: Vec::new(),
    };
    let r = pump_n(&mut src, &mut dst, 6);
    assert!(is_refused(&r.unwrap_err()));
    assert_eq!(dst.writes, vec![b"012".to_vec()]);
    assert_eq!(&src.read().unwrap()[..], b"56");
}

/// Sink with limited room.
struct Limited {
    room: usize,
    held: Vec<u8>,
}

impl ByteSink for Limited {
    fn write_all(&mut self, buf: Bytes) -> IoResult<()> {
        if self.held.len() + buf.len() > self.room {
            return Err(refused());
        }
        self.held.extend_from_slice(&buf);
        Ok(())
    }

    fn finish(&mut self) -> IoResult<()> {
        self.room = 0;
        Ok(())
    }
}

#[test]
fn pump_stops_at_a_sink_that_is_full() {
    let mut dst = Limited {
        room: 10,
        held: Vec::new(),
    };
    let r = pump_n(&mut rope(&[b"012345", b"6789ab", b"c"]), &mut dst, 13);
    assert!(is_refused(&r.unwrap_err()));
    assert_eq!(dst.held, b"012345");
    pump_n(&mut rope(&[b"6789"]), &mut dst, 4).unwrap();
    assert_eq!(dst.held, b"0123456789");
}

/// Raw source that delivers at most so many bytes at a time, then fails.
struct Dribble {
    step: usize,
    data: Vec<u8>,
    asked: Vec<usize>,
}

impl RawSource for Dribble {
    fn read_some(&mut self, mut buf: Vec<u8>, want: usize) -> (IoResult<usize>, Vec<u8>) {
        self.asked.push(want);
        if self.data.is_empty() {
            return (Err(refused()), buf);
        }
        let n = want.min(self.step).min(self.data.len());
        buf.clear();
        buf.extend(self.data.drain(..n));
        buf.push(b'!');
        (Ok(n), buf)
    }
}

fn dribble(step: usize, data: &[u8]) -> Dribble {
    Dribble {
        step,
        data: data.to_vec(),
        asked: Vec::new(),
    }
}

#[test]
fn raw_pump_asks_for_no_more_than_is_left() {
    let mut src = dribble(4, b"0123456789");
    let mut dst = Picky {
        left: 9,
        writes: Vec::new(),
    };
    pump_compio_to_sink(&mut src, &mut dst, 6).unwrap();
    assert_eq!(dst.writes, vec![b"0123".to_vec(), b"45".to_vec()]);
    assert_eq!(src.asked, vec![6, 2]);
    assert_eq!(src.data, b"6789");
    pump_compio_to_sink(&mut src, &mut dst, 0).unwrap();
    assert_eq!(src.asked.len(), 2);
}

#[test]
fn raw_pump_asks_for_a_buffer_at_most() {
    let mut data = vec![7u8; STREAM_CHUNK_BYTES + 5];
    data[STREAM_CHUNK_BYTES] = 9;
    let mut src = dribble(usize::MAX, &data);
    let mut dst = VecByteSink::new();
    pump_compio_to_sink(&mut src, &mut dst, STREAM_CHUNK_BYTES as u64 + 5).unwrap();
    assert_eq!(src.asked, vec![STREAM_CHUNK_BYTES, 5]);
    assert_eq!(dst.buf, data);
}

#[test]
fn raw_pump_passes_on_failures() {
    let mut dst = VecByteSink::new();
    let r = pump_compio_to_sink(&mut dribble(4, b"012"), &mut dst, 6);
    assert!(is_refused(&r.unwrap_err()));
    assert_eq!(dst.buf, b"012");
    dst.finish().unwrap();
    let r = pump_compio_to_sink(&mut dribble(4, b"012"), &mut dst, 2);
    assert!(matches!(r, Err(IoError::Finished)));
}

#[test]
fn raw_pump_of_a_buffer() {
    let mut src = VecByteStream::new(b"0123456789".to_vec());
    let mut dst = VecByteSink::new();
    pump_compio_to_sink(&mut src, &mut dst, 6).unwrap();
    assert_eq!(dst.buf, b"012345");
    assert_eq!(&src.read().unwrap()[..], b"6789");
    let mut short = VecByteStream::new(b"01234".to_vec());
    let mut rest = VecByteSink::new();
    let r = pump_compio_to_sink(&mut short, &mut rest, 12);
    assert_eq!(message(r), "pump_compio_to_sink: source ended at 5/12");
    assert_eq!(rest.buf, b"01234");
}

#[test]
fn pump_hands_on_chunk_by_chunk() {
    let mut src = rope(&[b"012", b"34", b"567"]);
    let mut dst = Picky {
        left: 9,
        writes: Vec::new(),
    };
    pump_n(&mut src, &mut dst, 6).unwrap();
    assert_eq!(
        dst.writes,
        vec![b"012".to_vec(), b"34".to_vec(), b"5".to_vec()]
    );
}

#[test]
fn pump_takes_trait_objects() {
    let mut src: Box<dyn ByteStream> = Box::new(rope(&[b"012", b"34"]));
    let mut dst: Box<dyn ByteSink> = Box::new(VecByteSink::new());
    assert!(pump_n(&mut *src, &mut *dst, 5).is_ok());
}

#[test]
fn range_of_an_object_is_pumped() {
    let data = b"the quick brown fox".to_vec();
    for size in 1..6 {
        let frames: Vec<Bytes> = data.chunks(size).map(Bytes::copy_from_slice).collect();
        let mut window = SkipTakeStream::new(RopeByteStream::new(frames), 4, 11);
        let mut dst = VecByteSink::new();
        pump_n(&mut window, &mut dst, 11).unwrap();
        assert_eq!(dst.buf, b"quick brown");
    }
}

#[test]
fn read_full_fills_the_buffer() {
    let mut src = rope(&[b"0123", b"4567", b"89"]);
    let mut dst = [b'.'; 6];
    assert_eq!(read_full(&mut src, &mut dst).unwrap(), 6);
    assert_eq!(&dst, b"012345");
    assert_eq!(&src.read().unwrap()[..], b"89");
}

#[test]
fn read_full_stops_at_the_end() {
    let mut src = rope(&[b"0123", b"4"]);
    let mut dst = [b'.'; 8];
    assert_eq!(read_full(&mut src, &mut dst).unwrap(), 5);
    assert_eq!(&dst, b"01234...");
}

#[test]
fn read_full_of_nothing_does_not_read() {
    let mut src = rope(&[b"0123"]);
    let mut dst = [0u8; 0];
    assert_eq!(read_full(&mut src, &mut dst).unwrap(), 0);
    assert_eq!(&src.read().unwrap()[..], b"0123");
}

#[test]
fn read_full_passes_on_a_failure() {
    let mut src = fails_after(&[b"012"]);
    let mut dst = [b'.'; 8];
    assert!(is_refused(&read_full(&mut src, &mut dst).unwrap_err()));
    assert_eq!(&dst, b"012.....");
    let mut full = fails_after(&[b"012"]);
    let mut small = [b'.'; 3];
    assert_eq!(read_full(&mut full, &mut small).unwrap(), 3);
}

#[test]
fn place_copies_what_there_is_room_for() {
    let mut dst = [b'.'; 5];
    let chunk = Bytes::from_static(b"abc");
    let filled = place(&mut dst, 1, &chunk);
    assert_eq!(filled, 4);
    assert_eq!(&dst, b".abc.");
    assert_eq!(place(&mut dst, filled, &chunk), 5);
    assert_eq!(&dst, b".abca");
}

#[test]
fn fill_steps_through_chunks() {
    let mut dst = [b'.'; 5];
    let mut fill = Fill::new();
    assert!(fill.wants_more(&dst));
    assert!(!fill.wants_more(&[]));
    fill.take(&mut dst, &Bytes::from_static(b"abc"));
    assert_eq!(fill.filled(), 3);
    assert!(fill.wants_more(&dst));
    let mut full = dst;
    let mut more = Fill::new();
    more.take(&mut full, &Bytes::from_static(b"012345"));
    assert_eq!(&full, b"01234");
    assert_eq!(more.filled(), 5);
    assert!(!more.wants_more(&full));
    fill.take(&mut dst, &Bytes::new());
    assert_eq!(&dst, b"abc..");
    assert_eq!(fill.filled(), 3);
    assert!(!fill.wants_more(&dst));
}

#[test]
fn window_passes_chunks_step_by_step() {
    let mut window = Window::new(5, 4);
    assert!(!window.is_complete());
    assert!(window.pass(Bytes::from_static(b"0123")).is_none());
    assert_eq!(&window.pass(Bytes::from_static(b"456")).unwrap()[..], b"56");
    assert!(window.pass(Bytes::new()).unwrap().is_empty());
    assert!(!window.is_complete());
    assert_eq!(&window.pass(Bytes::from_static(b"789")).unwrap()[..], b"78");
    assert!(window.is_complete());
}

#[test]
fn window_that_starts_at_a_chunk_border_keeps_the_chunk() {
    let mut window = Window::new(4, 100);
    assert!(window.pass(Bytes::from_static(b"0123")).is_none());
    assert_eq!(&window.pass(Bytes::from_static(b"45")).unwrap()[..], b"45");
}

#[test]
fn window_passes_on_a_failure() {
    let mut s = SkipTakeStream::new(fails_after(&[b"012", b"345"]), 4, 100);
    assert_eq!(&s.read().unwrap()[..], b"45");
    assert!(is_refused(&s.read().unwrap_err()));
}

#[test]
fn window_goes_on_after_a_failure() {
    let mut events: VecDeque<IoResult<Bytes>> = VecDeque::new();
    events.push_back(Ok(Bytes::from_static(b"012")));
    events.push_back(Err(refused()));
    events.push_back(Ok(Bytes::from_static(b"345")));
    events.push_back(Err(refused()));
    events.push_back(Ok(Bytes::from_static(b"6789")));
    let mut s = SkipTakeStream::new(Script(events), 4, 4);
    assert!(is_refused(&s.read().unwrap_err()));
    assert_eq!(&s.read().unwrap()[..], b"45");
    assert!(is_refused(&s.read().unwrap_err()));
    assert_eq!(&s.read().unwrap()[..], b"67");
    assert!(s.read().unwrap().is_empty());
}

#[test]
fn complete_window_does_not_read_on() {
    let mut s = SkipTakeStream::new(fails_after(&[b"012"]), 1, 2);
    assert_eq!(&s.read().unwrap()[..], b"12");
    // The failure that would come next is never asked for.
    assert!(s.read().unwrap().is_empty());
    assert!(s.read().unwrap().is_empty());
}

#[test]
fn transfer_steps_through_raw_reads() {
    let size = STREAM_CHUNK_BYTES as u64 + 10;
    let mut transfer = Transfer::new(size);
    assert_eq!(transfer.read_len(), STREAM_CHUNK_BYTES);
    transfer.advance(STREAM_CHUNK_BYTES);
    assert!(!transfer.is_complete());
    assert_eq!(transfer.read_len(), 10);
    let part = transfer.buffer_to_write(b"01234567".to_vec(), 3).unwrap();
    assert_eq!(&part[..], b"012");
    transfer.advance(3);
    assert_eq!(transfer.read_len(), 7);
    let part = transfer.buffer_to_write(b"0123".to_vec(), 9).unwrap();
    assert_eq!(&part[..], b"0123");
    transfer.advance(7);
    assert!(transfer.is_complete());
    assert!(Transfer::new(0).is_complete());
}

#[test]
fn transfer_reports_a_raw_source_that_ended() {
    let mut transfer = Transfer::new(100);
    transfer.advance(42);
    let r = transfer.buffer_to_write(Vec::new(), 0).map(|_| ());
    assert_eq!(message(r), "pump_compio_to_sink: source ended at 42/100");
}

#[test]
fn transfer_cuts_a_chunk_that_goes_past_the_size() {
    let mut transfer = Transfer::new(5);
    let part = transfer.chunk_to_write(Bytes::from_static(b"0123")).unwrap();
    assert_eq!(&part[..], b"0123");
    transfer.advance(4);
    let part = transfer.chunk_to_write(Bytes::from_static(b"4567")).unwrap();
    assert_eq!(&part[..], b"4");
    let r = transfer.chunk_to_write(Bytes::new()).map(|_| ());
    assert_eq!(message(r), "pump_n: source ended at 4/5");
}

/// Source that never ends.
struct Endless;

impl ByteStream for Endless {
    fn read(&mut self) -> IoResult<Bytes> {
        Ok(Bytes::from_static(b"xyz"))
    }
}

#[test]
fn endless_source_is_read_no_further_than_needed() {
    let mut dst = VecByteSink::new();
    pump_n(&mut Endless, &mut dst, 7).unwrap();
    assert_eq!(dst.buf, b"xyzxyzx");
    let mut buf = [0u8; 4];
    assert_eq!(read_full(&mut Endless, &mut buf).unwrap(), 4);
    assert_eq!(&buf, b"xyzx");
    let mut window = SkipTakeStream::new(Endless, 4, 3);
    assert_eq!(&window.read().unwrap()[..], b"yz");
    assert_eq!(&window.read().unwrap()[..], b"x");
    assert!(window.read().unwrap().is_empty());
}
