#![allow(dead_code)]
#![allow(unused_imports)]
use oxideav_source::stream::Cursor;
use std::time::{Duration, Instant};
use oxideav_source::{
    mem, open_bytes, open_concat, open_data, open_file, open_mem, open_slice, parse_concat_uri,
    parse_data_uri, parse_slice_uri, stream_len, BytesSource, ConcatUri, DataUri, Error, ErrorKind,
    IoError, MemTable, SeekFrom, SliceUri, Source, SubSource,
};
use oxideav_source::buffered::{
    BufferedSourceBuilder, ReadStep, Reader, RingState, WorkerAction,
};

trait ReadMore {
    fn read_to_end(&mut self, out: &mut Vec<u8>) -> Result<usize, IoError>;
    fn read_exact(&mut self, out: &mut [u8]) -> Result<(), IoError>;
}

impl<T: BytesSource + ?Sized> ReadMore for T {
    fn read_to_end(&mut self, out: &mut Vec<u8>) -> Result<usize, IoError> {
        let before = out.len();
        let mut chunk = vec![0u8; 4096];
        loop {
            let n = self.read(&mut chunk)?;
            if n == 0 {
                return Ok(out.len() - before);
            }
            out.extend_from_slice(&chunk[..n]);
        }
    }

    fn read_exact(&mut self, out: &mut [u8]) -> Result<(), IoError> {
        let mut at = 0;
        while at < out.len() {
            let n = self.read(&mut out[at..])?;
            if n == 0 {
                return Err(IoError::new(
                    ErrorKind::UnexpectedEof,
                    String::from("failed to fill whole buffer"),
                ));
            }
            at += n;
        }
        Ok(())
    }
}

struct Buffered {
    inner: Source,
    ring: RingState,
    reader: Reader,
}

impl Buffered {
    fn build(builder: BufferedSourceBuilder, inner: Source) -> Result<Self, IoError> {
        let mut inner = inner;
        let (ring, reader) = builder.build(&mut inner)?;
        Ok(Buffered { inner, ring, reader })
    }

    fn new(inner: Source, capacity: usize) -> Result<Self, IoError> {
        Buffered::build(BufferedSourceBuilder::new().capacity(capacity), inner)
    }

    fn len(&self) -> Option<u64> {
        self.ring.len()
    }

    fn prefetch_timeout(&self) -> u128 {
        self.reader.prefetch_timeout()
    }

    /// One turn of the worker. False iff it sleeps or is gone.
    fn work(&mut self) -> bool {
        if self.ring.has_failed() {
            return false;
        }
        match self.ring.worker_next() {
            WorkerAction::Exit | WorkerAction::Park => false,
            WorkerAction::Reposition(at) => {
                if let Err(e) = self.inner.seek(SeekFrom::Start(at)) {
                    self.ring.reposition_failed(e);
                }
                true
            }
            WorkerAction::Fill(n) => {
                let mut scratch = vec![0u8; n];
                let got = self.inner.read(&mut scratch);
                if let Ok(k) = got {
                    assert!(self.ring.accepts(k), "a fill always has room");
                }
                self.ring.deposit(got, &scratch);
                true
            }
        }
    }
}

impl BytesSource for Buffered {
    fn read(&mut self, out: &mut [u8]) -> Result<usize, IoError> {
        loop {
            match self.reader.read(&mut self.ring, out) {
                ReadStep::Ready { n, .. } => return Ok(n),
                ReadStep::Failed(e) => return Err(e),
                ReadStep::Wait { .. } => {
                    assert!(self.work(), "a waiting reader has a working worker");
                }
            }
        }
    }

    fn seek(&mut self, from: SeekFrom) -> Result<u64, IoError> {
        Ok(self.reader.seek(&mut self.ring, from)?.pos)
    }
}

fn ramp(n: usize) -> Vec<u8> {
    (0..n).map(|i| (i & 0xff) as u8).collect()
}

fn failure<T>(r: Result<T, IoError>) -> Option<IoError> {
    match r {
        Ok(_) => None,
        Err(e) => Some(e),
    }
}

struct FailAfter {
    good: Vec<u8>,
    pos: u64,
    reported_len: u64,
    kind: ErrorKind,
}

impl BytesSource for FailAfter {
    fn read(&mut self, buf: &mut [u8]) -> Result<usize, IoError> {
        let good_len = self.good.len() as u64;
        if self.pos < good_len {
            let start = self.pos as usize;
            let n = buf.len().min(self.good.len() - start);
            buf[..n].copy_from_slice(&self.good[start..start + n]);
            self.pos += n as u64;
            return Ok(n);
        }
        Err(IoError::new(self.kind, String::from("synthetic inner failure")))
    }

    fn seek(&mut self, from: SeekFrom) -> Result<u64, IoError> {
        let new = match from {
            SeekFrom::Start(n) => n,
            SeekFrom::End(d) => self.reported_len.checked_add_signed(d).ok_or_else(|| {
                IoError::new(ErrorKind::InvalidInput, String::from("seek out of range"))
            })?,
            SeekFrom::Current(d) => self.pos.checked_add_signed(d).ok_or_else(|| {
                IoError::new(ErrorKind::InvalidInput, String::from("seek out of range"))
            })?,
        };
        self.pos = new;
        Ok(new)
    }
}


#[test]
fn sequential_read_matches_inner() {
    let data = ramp(2 * 1024 * 1024);
    let inner = Source { stream: Box::new(Cursor::new(data.clone())) };
    let mut buf = Buffered::new(inner, 1024 * 1024).unwrap();
    let mut out = vec![0u8; data.len()];
    buf.read_exact(&mut out).unwrap();
    assert_eq!(out, data);
}

#[test]
fn buffered_read_at_eof_returns_zero() {
    let data = ramp(4096);
    let inner = Source { stream: Box::new(Cursor::new(data)) };
    let mut buf = Buffered::new(inner, 0).unwrap();
    let mut out = vec![0u8; 4096];
    buf.read_exact(&mut out).unwrap();
    let mut tail = [0u8; 16];
    assert_eq!(buf.read(&mut tail).unwrap(), 0);
}

#[test]
fn seek_within_window_does_not_block_or_lose_bytes() {
    let data = ramp(4 * 1024 * 1024);
    let inner = Source { stream: Box::new(Cursor::new(data.clone())) };
    let mut buf = Buffered::new(inner, 2 * 1024 * 1024).unwrap();
    let mut a = vec![0u8; 64 * 1024];
    buf.read_exact(&mut a).unwrap();
    buf.seek(SeekFrom::Current(-32 * 1024)).unwrap();
    let mut b = vec![0u8; 32 * 1024];
    buf.read_exact(&mut b).unwrap();
    assert_eq!(b[..], data[32 * 1024..64 * 1024]);
}

#[test]
fn seek_outside_window_restarts_prefetch() {
    let data = ramp(4 * 1024 * 1024);
    let inner = Source { stream: Box::new(Cursor::new(data.clone())) };
    let mut buf = Buffered::new(inner, 256 * 1024).unwrap();
    let mut a = vec![0u8; 8 * 1024];
    buf.read_exact(&mut a).unwrap();
    let target: u64 = 3 * 1024 * 1024;
    buf.seek(SeekFrom::Start(target)).unwrap();
    let mut b = vec![0u8; 16 * 1024];
    buf.read_exact(&mut b).unwrap();
    assert_eq!(b[..], data[target as usize..(target as usize + 16 * 1024)]);
}

#[test]
fn seek_to_end_then_read_returns_zero() {
    let data = ramp(64 * 1024);
    let inner = Source { stream: Box::new(Cursor::new(data)) };
    let mut buf = Buffered::new(inner, 0).unwrap();
    let end = buf.seek(SeekFrom::End(0)).unwrap();
    assert_eq!(end, 64 * 1024);
    let mut out = [0u8; 8];
    let t0 = Instant::now();
    assert_eq!(buf.read(&mut out).unwrap(), 0);
    assert!(t0.elapsed() < Duration::from_secs(2));
}

#[test]
fn backward_seek_outside_window_then_read_serves_correct_bytes() {
    let data = ramp(4 * 1024 * 1024);
    let inner = Source { stream: Box::new(Cursor::new(data.clone())) };
    let mut buf = Buffered::new(inner, 256 * 1024).unwrap();
    let mut scratch = vec![0u8; 512 * 1024];
    buf.read_exact(&mut scratch).unwrap();
    buf.seek(SeekFrom::Start(0)).unwrap();
    let mut out = vec![0u8; 4096];
    buf.read_exact(&mut out).unwrap();
    assert_eq!(out, data[..4096]);
}

#[test]
fn len_reports_total() {
    let data = ramp(12345);
    let inner = Source { stream: Box::new(Cursor::new(data)) };
    let buf = Buffered::new(inner, 0).unwrap();
    assert_eq!(buf.len(), Some(12345));
}

#[test]
fn builder_default_matches_new() {
    let data = ramp(64 * 1024);
    let inner_a = Source { stream: Box::new(Cursor::new(data.clone())) };
    let inner_b = Source { stream: Box::new(Cursor::new(data.clone())) };
    let mut a = Buffered::new(inner_a, 1024 * 1024).unwrap();
    let mut b = Buffered::build(BufferedSourceBuilder::new()
        .capacity(1024 * 1024)
        , inner_b)
        .unwrap();
    let mut out_a = vec![0u8; data.len()];
    let mut out_b = vec![0u8; data.len()];
    a.read_exact(&mut out_a).unwrap();
    b.read_exact(&mut out_b).unwrap();
    assert_eq!(out_a, out_b);
    assert_eq!(out_a, data);
}

#[test]
fn builder_custom_capacity_block_size() {
    let data = ramp(128 * 1024);
    let inner = Source { stream: Box::new(Cursor::new(data.clone())) };
    let mut buf = Buffered::build(BufferedSourceBuilder::new()
        .capacity(8 * 1024)
        .block_size(8 * 1024)
        , inner)
        .unwrap();
    let mut out = vec![0u8; data.len()];
    buf.read_exact(&mut out).unwrap();
    assert_eq!(out, data);
}

#[test]
fn builder_records_prefetch_timeout() {
    let data = ramp(1024);
    let inner = Source { stream: Box::new(Cursor::new(data)) };
    let buf = Buffered::build(BufferedSourceBuilder::new()
        .capacity(0)
        .prefetch_timeout(std::time::Duration::from_secs(5).as_nanos())
        , inner)
        .unwrap();
    assert_eq!(buf.prefetch_timeout(), std::time::Duration::from_secs(5).as_nanos());
}

#[test]
fn builder_prefetch_timeout_clamps_zero_to_one_millisecond() {
    let data = ramp(1024);
    let inner = Source { stream: Box::new(Cursor::new(data)) };
    let buf = Buffered::build(BufferedSourceBuilder::new()
        .prefetch_timeout(std::time::Duration::ZERO.as_nanos())
        , inner)
        .unwrap();
    assert!(buf.prefetch_timeout() >= std::time::Duration::from_millis(1).as_nanos());
}

#[test]
fn builder_lookback_zero_means_no_back_seek_cache() {
    let data = ramp(1024 * 1024);
    let inner = Source { stream: Box::new(Cursor::new(data.clone())) };
    let mut buf = Buffered::build(BufferedSourceBuilder::new()
        .capacity(64 * 1024)
        .block_size(8 * 1024)
        .lookback_fraction(0, 8)
        , inner)
        .unwrap();
    let mut a = vec![0u8; 128 * 1024];
    buf.read_exact(&mut a).unwrap();
    buf.seek(SeekFrom::Start(0)).unwrap();
    let mut b = vec![0u8; 4096];
    buf.read_exact(&mut b).unwrap();
    assert_eq!(b, data[..4096]);
}

#[test]
fn builder_lookback_clamps_full_fraction() {
    let data = ramp(64 * 1024);
    let inner = Source { stream: Box::new(Cursor::new(data.clone())) };
    let mut buf = Buffered::build(BufferedSourceBuilder::new()
        .capacity(16 * 1024)
        .block_size(4 * 1024)
        .lookback_fraction(8, 8)
        , inner)
        .unwrap();
    let mut out = vec![0u8; data.len()];
    buf.read_exact(&mut out).unwrap();
    assert_eq!(out, data);
}

#[test]
fn builder_seek_within_window_with_large_lookback() {
    let data = ramp(4 * 1024 * 1024);
    let inner = Source { stream: Box::new(Cursor::new(data.clone())) };
    let mut buf = Buffered::build(BufferedSourceBuilder::new()
        .capacity(1024 * 1024)
        .lookback_fraction(7, 8)
        , inner)
        .unwrap();
    let mut a = vec![0u8; 256 * 1024];
    buf.read_exact(&mut a).unwrap();
    buf.seek(SeekFrom::Current(-(192 * 1024_i64))).unwrap();
    let mut b = vec![0u8; 64 * 1024];
    buf.read_exact(&mut b).unwrap();
    assert_eq!(b, data[64 * 1024..128 * 1024]);
}

#[test]
fn worker_error_is_sticky_and_immediate() {

    let good = ramp(8 * 1024);
    let inner = Source {
        stream: Box::new(FailAfter {
        good: good.clone(),
        pos: 0,
        reported_len: 1024 * 1024,
        kind: ErrorKind::ConnectionReset,
    }),
    };
    let mut buf = Buffered::build(BufferedSourceBuilder::new()
        .capacity(0)
        .prefetch_timeout(Duration::from_secs(5).as_nanos())
        , inner)
        .unwrap();

    let mut head = vec![0u8; good.len()];
    buf.read_exact(&mut head).unwrap();
    assert_eq!(head, good);

    let mut probe = [0u8; 16];
    let e1 = failure(buf.read(&mut probe)).expect("must surface worker error");
    assert_eq!(e1.kind, ErrorKind::ConnectionReset);
    assert!(e1.message.contains("synthetic inner failure"));

    let t0 = Instant::now();
    let e2 = failure(buf.read(&mut probe)).expect("error must stay sticky");
    assert_eq!(e2.kind, ErrorKind::ConnectionReset);
    assert!(
        t0.elapsed() < Duration::from_secs(2),
        "sticky error must not wait out the prefetch timeout: {:?}",
        t0.elapsed()
    );
}

#[test]
fn seek_after_worker_death_keeps_failing_fast() {

    let good = ramp(8 * 1024);
    let inner = Source {
        stream: Box::new(FailAfter {
        good: good.clone(),
        pos: 0,
        reported_len: 1024 * 1024,
        kind: ErrorKind::BrokenPipe,
    }),
    };
    let mut buf = Buffered::build(BufferedSourceBuilder::new()
        .capacity(0)
        .prefetch_timeout(Duration::from_secs(5).as_nanos())
        , inner)
        .unwrap();

    let mut head = vec![0u8; good.len()];
    buf.read_exact(&mut head).unwrap();
    let mut probe = [0u8; 16];
    let _ = failure(buf.read(&mut probe)).expect("worker failure expected");

    buf.seek(SeekFrom::Start(0)).unwrap();
    buf.read_exact(&mut probe).unwrap();
    assert_eq!(probe[..], good[..16]);

    buf.seek(SeekFrom::Start(512 * 1024)).unwrap();
    let t0 = Instant::now();
    let e = failure(buf.read(&mut probe)).expect("dead worker cannot serve after out-of-window seek");
    assert_eq!(e.kind, ErrorKind::BrokenPipe);
    assert!(
        t0.elapsed() < Duration::from_secs(2),
        "read after seek must fail fast, took {:?}",
        t0.elapsed()
    );
}

#[test]
fn interrupted_reads_are_retried_not_fatal() {
    struct Interrupting {
        data: Vec<u8>,
        pos: u64,
        hiccups: u32,
    }
    impl BytesSource for Interrupting {
        fn read(&mut self, buf: &mut [u8]) -> Result<usize, IoError> {
            if self.hiccups > 0 && self.pos % 3 == 0 && self.pos < self.data.len() as u64 {
                self.hiccups -= 1;
                return Err(IoError::new(ErrorKind::Interrupted, String::from("interrupted")));
            }
            let start = self.pos as usize;
            if start >= self.data.len() {
                return Ok(0);
            }
            let n = buf.len().min(3).min(self.data.len() - start);
            buf[..n].copy_from_slice(&self.data[start..start + n]);
            self.pos += n as u64;
            Ok(n)
        }
        fn seek(&mut self, from: SeekFrom) -> Result<u64, IoError> {
            let len = self.data.len() as u64;
            let new = match from {
                SeekFrom::Start(n) => n,
                SeekFrom::End(d) => len.checked_add_signed(d).unwrap(),
                SeekFrom::Current(d) => self.pos.checked_add_signed(d).unwrap(),
            };
            self.pos = new;
            Ok(new)
        }
    }

    let data = ramp(1024);
    let inner = Source {
        stream: Box::new(Interrupting {
        data: data.clone(),
        pos: 0,
        hiccups: 8,
    }),
    };
    let mut buf = Buffered::new(inner, 0).unwrap();
    let mut out = vec![0u8; data.len()];
    buf.read_exact(&mut out).unwrap();
    assert_eq!(out, data);
    let mut tail = [0u8; 4];
    assert_eq!(buf.read(&mut tail).unwrap(), 0);
}
