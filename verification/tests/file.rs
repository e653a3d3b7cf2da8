#![allow(dead_code)]
#![allow(unused_imports)]
use oxideav_source::stream::Cursor;
use oxideav_source::{
    mem, open_bytes, open_concat, open_data, open_file, open_mem, open_slice, parse_concat_uri,
    parse_data_uri, parse_slice_uri, stream_len, BytesSource, ConcatUri, DataUri, Error, ErrorKind,
    IoError, MemTable, SeekFrom, SliceUri, Source, SubSource,
};

struct World {
    table: MemTable,
    disk: Vec<(String, Vec<u8>)>,
}

impl World {
    fn new() -> Self {
        World { table: MemTable::new(), disk: Vec::new() }
    }

    fn put(&mut self, id: &str, data: Vec<u8>) {
        mem::put(&mut self.table, id, data);
    }

    fn remove(&mut self, id: &str) -> bool {
        mem::remove(&mut self.table, id)
    }

    fn named_file(&mut self, path: &str, bytes: &[u8]) -> String {
        self.disk.push((path.to_string(), bytes.to_vec()));
        path.to_string()
    }

    fn temp_file(&mut self, bytes: &[u8]) -> String {
        let path = format!("/tmp/source-{}.bin", self.disk.len());
        self.named_file(&path, bytes)
    }

    fn files(&self) -> impl Fn(&str) -> Result<Source, IoError> + '_ {
        move |path: &str| match self.disk.iter().find(|f| f.0 == path) {
            Some(f) => Ok(Source { stream: Box::new(Cursor::new(f.1.clone())) }),
            None => Err(IoError::new(
                ErrorKind::NotFound,
                String::from("No such file or directory (os error 2)"),
            )),
        }
    }

    fn open_bytes(&self, uri: &str) -> Result<Source, Error> {
        open_bytes(uri, &self.table, &self.files())
    }

    fn open_file(&self, uri: &str) -> Result<Source, Error> {
        open_file(uri, &self.files())
    }

    fn open_mem(&self, uri: &str) -> Result<Source, Error> {
        open_mem(uri, &self.table)
    }

    fn open_slice(&self, uri: &str) -> Result<Source, Error> {
        open_slice(uri, &self.table, &self.files())
    }

    fn open_concat(&self, uri: &str) -> Result<Source, Error> {
        open_concat(uri, &self.table, &self.files())
    }
}

trait ReadMore {
    fn read_to_end(&mut self, out: &mut Vec<u8>) -> Result<usize, IoError>;
    fn read_exact(&mut self, out: &mut [u8]) -> Result<(), IoError>;
}

impl<T: BytesSource + ?Sized> ReadMore for T {
    fn read_to_end(&mut self, out: &mut Vec<u8>) -> Result<usize, IoError> {
        let before = out.len();
        let mut chunk = vec![0u8; 4096];
        loop {
            let n = self.read(&mut chunk)?;
            if n == 0 {
                return Ok(out.len() - before);
            }
            out.extend_from_slice(&chunk[..n]);
        }
    }

    fn read_exact(&mut self, out: &mut [u8]) -> Result<(), IoError> {
        let mut at = 0;
        while at < out.len() {
            let n = self.read(&mut out[at..])?;
            if n == 0 {
                return Err(IoError::new(
                    ErrorKind::UnexpectedEof,
                    String::from("failed to fill whole buffer"),
                ));
            }
            at += n;
        }
        Ok(())
    }
}

const MANIFEST: &[u8] = b"[package]\nname = \"oxideav-source\"\n";

fn percent_encode_path(s: &str) -> String {
    let mut out = String::with_capacity(s.len());
    for b in s.as_bytes() {
        let unreserved = matches!(*b, b'A'..=b'Z' | b'a'..=b'z' | b'0'..=b'9'
            | b'-' | b'_' | b'.' | b'~' | b'/');
        if unreserved {
            out.push(*b as char);
        } else {
            out.push_str(&format!("%{:02X}", b));
        }
    }
    out
}

#[test]
fn open_bare_path_reads_first_bytes() {
    let mut w = World::new();
    w.named_file("Cargo.toml", MANIFEST);
    let mut f = w.open_bytes("Cargo.toml").unwrap();
    let mut head = [0u8; 4];
    f.read_exact(&mut head).expect("read");
    assert_eq!(&head, b"[pac");
}

#[test]
fn open_file_url_reads_first_bytes() {
    let mut w = World::new();
    w.named_file("/work/Cargo.toml", MANIFEST);
    let url = format!("file://{}/Cargo.toml", "/work");
    let mut f = w.open_bytes(&url).unwrap();
    let mut head = [0u8; 4];
    f.read_exact(&mut head).expect("read");
    assert_eq!(&head, b"[pac");
}

#[test]
fn file_open_supports_seek() {
    let mut w = World::new();
    w.named_file("Cargo.toml", MANIFEST);
    let mut f = w.open_bytes("Cargo.toml").unwrap();
    let end = f.seek(SeekFrom::End(0)).unwrap();
    assert!(end > 0);
    f.seek(SeekFrom::Start(0)).unwrap();
    let pos = f.stream_position().unwrap();
    assert_eq!(pos, 0);
}

#[test]
fn open_file_url_percent_decodes_space() {
    let mut w = World::new();
    let path = w.named_file("/tmp/oxideav-source-r222 space-test.bin", b"PERCENT");
    let encoded = percent_encode_path(&path);
    let url = format!("file://{encoded}");
    let mut f = w.open_bytes(&url).unwrap();
    let mut buf = Vec::new();
    f.read_to_end(&mut buf).unwrap();
    assert_eq!(buf, b"PERCENT");
}

#[test]
fn open_file_url_percent_decodes_utf8_multibyte() {
    let mut w = World::new();
    let path = w.named_file("/tmp/oxideav-source-r222-\u{41f}\u{440}\u{438}.bin", b"UTF8");
    let encoded = percent_encode_path(&path);
    let url = format!("file://{encoded}");
    let mut bs = w.open_bytes(&url).unwrap();
    let mut buf = Vec::new();
    bs.read_to_end(&mut buf).unwrap();
    assert_eq!(buf, b"UTF8");
}

#[test]
fn open_bare_path_does_not_percent_decode() {
    let mut w = World::new();
    let path = w.named_file("/tmp/oxideav-source-r222-100%25.bin", b"LITERAL");
    let mut bs = w.open_bytes(&path).unwrap();
    let mut buf = Vec::new();
    bs.read_to_end(&mut buf).unwrap();
    assert_eq!(buf, b"LITERAL");
}

#[test]
fn open_file_url_truncated_percent_rejected() {
    let w = World::new();
    let r = w.open_bytes("file:///tmp/%F");
    assert!(r.is_err());
}

#[test]
fn open_file_url_bad_hex_rejected() {
    let w = World::new();
    let r = w.open_bytes("file:///tmp/%ZZ");
    assert!(r.is_err());
}
