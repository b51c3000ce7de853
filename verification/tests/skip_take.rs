use std::collections::VecDeque;

use bytes::Bytes;
use openlake::error::IoResult;
use openlake::stream::ByteStream;
use openlake::window::SkipTakeStream;

/// Source that yields the supplied chunks in order, then the end.
struct ChunkSource(VecDeque<Bytes>);

impl ByteStream for ChunkSource {
    fn read(&mut self) -> IoResult<Bytes> {
        Ok(self.0.pop_front().unwrap_or_default())
    }
}

fn chunks(parts: &[&[u8]]) -> Box<dyn ByteStream> {
    Box::new(ChunkSource(
        parts.iter().map(|b| Bytes::copy_from_slice(b)).collect(),
    ))
}

fn drain(s: &mut dyn ByteStream) -> Vec<u8> {
    let mut out = Vec::new();
    loop {
        let c = s.read().unwrap();
        if c.is_empty() {
            return out;
        }
        out.extend_from_slice(&c);
    }
}

#[test]
fn skip_take_within_single_chunk() {
    let mut s = SkipTakeStream::new(chunks(&[b"0123456789"]), 2, 5);
    assert_eq!(drain(&mut s), b"23456");
}

#[test]
fn skip_take_across_chunks() {
    let mut s = SkipTakeStream::new(chunks(&[b"01234", b"56789", b"abcde"]), 3, 8);
    assert_eq!(drain(&mut s), b"3456789a");
}

#[test]
fn skip_consumes_full_chunks_then_partial() {
    // skip 8 bytes drops the first two chunks entirely, then yields the
    // remaining take from the third chunk.
    let mut s = SkipTakeStream::new(chunks(&[b"AAAA", b"BBBB", b"CCCC"]), 8, 4);
    assert_eq!(drain(&mut s), b"CCCC");
}

#[test]
fn take_zero_yields_eof_immediately() {
    let mut s = SkipTakeStream::new(chunks(&[b"data"]), 0, 0);
    assert_eq!(drain(&mut s), Vec::<u8>::new());
}

#[test]
fn take_exceeding_upstream_truncates_at_eof() {
    // The window claims 100 bytes but the source only has 3; we serve 3 and
    // stop.
    let mut s = SkipTakeStream::new(chunks(&[b"abc"]), 0, 100);
    assert_eq!(drain(&mut s), b"abc");
}

#[test]
fn skip_past_eof_yields_empty() {
    let mut s = SkipTakeStream::new(chunks(&[b"abc"]), 99, 1);
    assert_eq!(drain(&mut s), Vec::<u8>::new());
}

#[test]
fn zero_skip_returns_prefix_take() {
    let mut s = SkipTakeStream::new(chunks(&[b"hello world"]), 0, 5);
    assert_eq!(drain(&mut s), b"hello");
}
