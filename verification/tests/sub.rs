#![allow(dead_code)]
#![allow(unused_imports)]
use oxideav_source::stream::Cursor;
use oxideav_source::{
    mem, open_bytes, open_concat, open_data, open_file, open_mem, open_slice, parse_concat_uri,
    parse_data_uri, parse_slice_uri, stream_len, BytesSource, ConcatUri, DataUri, Error, ErrorKind,
    IoError, MemTable, SeekFrom, SliceUri, Source, SubSource,
};

struct World {
    table: MemTable,
    disk: Vec<(String, Vec<u8>)>,
}

impl World {
    fn new() -> Self {
        World { table: MemTable::new(), disk: Vec::new() }
    }

    fn put(&mut self, id: &str, data: Vec<u8>) {
        mem::put(&mut self.table, id, data);
    }

    fn remove(&mut self, id: &str) -> bool {
        mem::remove(&mut self.table, id)
    }

    fn named_file(&mut self, path: &str, bytes: &[u8]) -> String {
        self.disk.push((path.to_string(), bytes.to_vec()));
        path.to_string()
    }

    fn temp_file(&mut self, bytes: &[u8]) -> String {
        let path = format!("/tmp/source-{}.bin", self.disk.len());
        self.named_file(&path, bytes)
    }

    fn files(&self) -> impl Fn(&str) -> Result<Source, IoError> + '_ {
        move |path: &str| match self.disk.iter().find(|f| f.0 == path) {
            Some(f) => Ok(Source { stream: Box::new(Cursor::new(f.1.clone())) }),
            None => Err(IoError::new(
                ErrorKind::NotFound,
                String::from("No such file or directory (os error 2)"),
            )),
        }
    }

    fn open_bytes(&self, uri: &str) -> Result<Source, Error> {
        open_bytes(uri, &self.table, &self.files())
    }

    fn open_file(&self, uri: &str) -> Result<Source, Error> {
        open_file(uri, &self.files())
    }

    fn open_mem(&self, uri: &str) -> Result<Source, Error> {
        open_mem(uri, &self.table)
    }

    fn open_slice(&self, uri: &str) -> Result<Source, Error> {
        open_slice(uri, &self.table, &self.files())
    }

    fn open_concat(&self, uri: &str) -> Result<Source, Error> {
        open_concat(uri, &self.table, &self.files())
    }
}

trait ReadMore {
    fn read_to_end(&mut self, out: &mut Vec<u8>) -> Result<usize, IoError>;
    fn read_exact(&mut self, out: &mut [u8]) -> Result<(), IoError>;
}

impl<T: BytesSource + ?Sized> ReadMore for T {
    fn read_to_end(&mut self, out: &mut Vec<u8>) -> Result<usize, IoError> {
        let before = out.len();
        let mut chunk = vec![0u8; 4096];
        loop {
            let n = self.read(&mut chunk)?;
            if n == 0 {
                return Ok(out.len() - before);
            }
            out.extend_from_slice(&chunk[..n]);
        }
    }

    fn read_exact(&mut self, out: &mut [u8]) -> Result<(), IoError> {
        let mut at = 0;
        while at < out.len() {
            let n = self.read(&mut out[at..])?;
            if n == 0 {
                return Err(IoError::new(
                    ErrorKind::UnexpectedEof,
                    String::from("failed to fill whole buffer"),
                ));
            }
            at += n;
        }
        Ok(())
    }
}

fn ramp(n: usize) -> Vec<u8> {
    (0..n).map(|i| (i & 0xff) as u8).collect()
}

#[test]
fn window_reads_the_correct_slice() {
    let data = ramp(256);
    let inner = Source { stream: Box::new(Cursor::new(data.clone())) };
    let mut sub = SubSource::new(inner, 50, 40).unwrap();
    assert_eq!(sub.len(), 40);
    assert_eq!(sub.base(), 50);
    let mut out = vec![0u8; 40];
    sub.read_exact(&mut out).unwrap();
    assert_eq!(out, &data[50..90]);
}

#[test]
fn read_past_window_returns_eof() {
    let data = ramp(128);
    let inner = Source { stream: Box::new(Cursor::new(data)) };
    let mut sub = SubSource::new(inner, 10, 20).unwrap();
    let mut out = vec![0u8; 50];
    let n = sub.read(&mut out).unwrap();
    assert_eq!(n, 20);
    let n2 = sub.read(&mut out).unwrap();
    assert_eq!(n2, 0);
}

#[test]
fn seek_within_window_then_read() {
    let data = ramp(256);
    let inner = Source { stream: Box::new(Cursor::new(data.clone())) };
    let mut sub = SubSource::new(inner, 100, 100).unwrap();
    sub.seek(SeekFrom::Start(50)).unwrap();
    let mut byte = [0u8; 1];
    sub.read_exact(&mut byte).unwrap();
    assert_eq!(byte[0], data[150]);
}

#[test]
fn seek_end_anchors_at_window_end() {
    let data = ramp(64);
    let inner = Source { stream: Box::new(Cursor::new(data)) };
    let mut sub = SubSource::new(inner, 8, 16).unwrap();
    let pos = sub.seek(SeekFrom::End(0)).unwrap();
    assert_eq!(pos, 16);
    let mut byte = [0u8; 1];
    assert_eq!(sub.read(&mut byte).unwrap(), 0);
}

#[test]
fn sub_seek_current_relative() {
    let data = ramp(128);
    let inner = Source { stream: Box::new(Cursor::new(data)) };
    let mut sub = SubSource::new(inner, 0, 64).unwrap();
    sub.seek(SeekFrom::Start(20)).unwrap();
    let p = sub.seek(SeekFrom::Current(5)).unwrap();
    assert_eq!(p, 25);
    let p = sub.seek(SeekFrom::Current(-10)).unwrap();
    assert_eq!(p, 15);
}

#[test]
fn sub_seek_before_zero_errors() {
    let data = ramp(32);
    let inner = Source { stream: Box::new(Cursor::new(data)) };
    let mut sub = SubSource::new(inner, 0, 16).unwrap();
    let r = sub.seek(SeekFrom::Current(-1));
    assert!(r.is_err());
    let r = sub.seek(SeekFrom::End(-100));
    assert!(r.is_err());
}

#[test]
fn seek_past_window_then_read_returns_zero() {
    let data = ramp(64);
    let inner = Source { stream: Box::new(Cursor::new(data)) };
    let mut sub = SubSource::new(inner, 0, 32).unwrap();
    sub.seek(SeekFrom::Start(1000)).unwrap();
    let mut out = [0u8; 8];
    assert_eq!(sub.read(&mut out).unwrap(), 0);
    sub.seek(SeekFrom::Start(4)).unwrap();
    let mut byte = [0u8; 1];
    sub.read_exact(&mut byte).unwrap();
    assert_eq!(byte[0], 4);
}

#[test]
fn window_extending_past_inner_rejected() {
    let data = ramp(64);
    let inner = Source { stream: Box::new(Cursor::new(data)) };
    let r = SubSource::new(inner, 50, 50);
    assert!(r.is_err());
}

#[test]
fn window_at_exact_end_accepted() {
    let data = ramp(64);
    let inner = Source { stream: Box::new(Cursor::new(data)) };
    let mut sub = SubSource::new(inner, 30, 34).unwrap();
    let mut out = Vec::new();
    sub.read_to_end(&mut out).unwrap();
    assert_eq!(out.len(), 34);
    assert_eq!(out[0], 30);
    assert_eq!(out[33], 63);
}

#[test]
fn zero_length_window() {
    let data = ramp(64);
    let inner = Source { stream: Box::new(Cursor::new(data)) };
    let mut sub = SubSource::new(inner, 16, 0).unwrap();
    assert!(sub.is_empty());
    let mut out = [0u8; 4];
    assert_eq!(sub.read(&mut out).unwrap(), 0);
}

#[test]
fn overflowing_window_rejected() {
    let data = ramp(64);
    let inner = Source { stream: Box::new(Cursor::new(data)) };
    let r = SubSource::new(inner, u64::MAX, 1);
    assert!(r.is_err());
}

#[test]
fn into_inner_returns_inner_source() {
    let data = ramp(64);
    let inner = Source { stream: Box::new(Cursor::new(data.clone())) };
    let mut sub = SubSource::new(inner, 8, 16).unwrap();
    let mut byte = [0u8; 1];
    sub.read_exact(&mut byte).unwrap();
    let mut recovered = sub.into_inner();
    recovered.seek(SeekFrom::Start(0)).unwrap();
    let mut head = [0u8; 4];
    recovered.read_exact(&mut head).unwrap();
    assert_eq!(head, [0, 1, 2, 3]);
}

#[test]
fn nested_windows_compose() {
    let data = ramp(256);
    let inner = Source { stream: Box::new(Cursor::new(data.clone())) };
    let outer = SubSource::new(inner, 64, 128).unwrap();
    let mut nested = SubSource::new(Source { stream: Box::new(outer) }, 16, 32).unwrap();
    let mut out = vec![0u8; 32];
    nested.read_exact(&mut out).unwrap();
    assert_eq!(out, &data[80..112]);
}

#[test]
fn stream_len_helper_preserves_position() {
    let data = ramp(128);
    let mut src = Source { stream: Box::new(Cursor::new(data)) };
    src.seek(SeekFrom::Start(42)).unwrap();
    let len = stream_len(&mut src).unwrap();
    assert_eq!(len, 128);
    assert_eq!(src.stream_position().unwrap(), 42);
}

#[test]
fn windowed_view_of_a_file_reads_correct_slice() {
    let mut w = World::new();
    let data: Vec<u8> = (0u8..=255).collect();
    let p = w.temp_file(&data);
    let inner = w.open_bytes(&p).unwrap();
    let mut sub = SubSource::new(inner, 64, 32).unwrap();
    let mut out = vec![0u8; 32];
    sub.read_exact(&mut out).unwrap();
    let expected: Vec<u8> = (64u8..96).collect();
    assert_eq!(out, expected);
}

#[test]
fn windowed_view_seek_back_then_re_read() {
    let mut w = World::new();
    let data: Vec<u8> = (0u8..=255).collect();
    let p = w.temp_file(&data);
    let inner = w.open_bytes(&p).unwrap();
    let mut sub = SubSource::new(inner, 100, 20).unwrap();
    let mut first = [0u8; 5];
    sub.read_exact(&mut first).unwrap();
    assert_eq!(first, [100, 101, 102, 103, 104]);
    sub.seek(SeekFrom::Start(0)).unwrap();
    let mut again = [0u8; 5];
    sub.read_exact(&mut again).unwrap();
    assert_eq!(again, [100, 101, 102, 103, 104]);
}

#[test]
fn window_extending_past_end_rejected_on_file() {
    let mut w = World::new();
    let data: Vec<u8> = vec![0u8; 64];
    let p = w.temp_file(&data);
    let inner = w.open_bytes(&p).unwrap();
    let r = SubSource::new(inner, 50, 50);
    assert!(r.is_err());
}
