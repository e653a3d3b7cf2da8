#![allow(dead_code)]
#![allow(unused_imports)]
use oxideav_source::stream::Cursor;
use oxideav_source::{
    mem, open_bytes, open_concat, open_data, open_file, open_mem, open_slice, parse_concat_uri,
    parse_data_uri, parse_slice_uri, stream_len, BytesSource, ConcatUri, DataUri, Error, ErrorKind,
    IoError, MemTable, SeekFrom, SliceUri, Source, SubSource,
};

struct World {
    table: MemTable,
    disk: Vec<(String, Vec<u8>)>,
}

impl World {
    fn new() -> Self {
        World { table: MemTable::new(), disk: Vec::new() }
    }

    fn put(&mut self, id: &str, data: Vec<u8>) {
        mem::put(&mut self.table, id, data);
    }

    fn remove(&mut self, id: &str) -> bool {
        mem::remove(&mut self.table, id)
    }

    fn named_file(&mut self, path: &str, bytes: &[u8]) -> String {
        self.disk.push((path.to_string(), bytes.to_vec()));
        path.to_string()
    }

    fn temp_file(&mut self, bytes: &[u8]) -> String {
        let path = format!("/tmp/source-{}.bin", self.disk.len());
        self.named_file(&path, bytes)
    }

    fn files(&self) -> impl Fn(&str) -> Result<Source, IoError> + '_ {
        move |path: &str| match self.disk.iter().find(|f| f.0 == path) {
            Some(f) => Ok(Source { stream: Box::new(Cursor::new(f.1.clone())) }),
            None => Err(IoError::new(
                ErrorKind::NotFound,
                String::from("No such file or directory (os error 2)"),
            )),
        }
    }

    fn open_bytes(&self, uri: &str) -> Result<Source, Error> {
        open_bytes(uri, &self.table, &self.files())
    }

    fn open_file(&self, uri: &str) -> Result<Source, Error> {
        open_file(uri, &self.files())
    }

    fn open_mem(&self, uri: &str) -> Result<Source, Error> {
        open_mem(uri, &self.table)
    }

    fn open_slice(&self, uri: &str) -> Result<Source, Error> {
        open_slice(uri, &self.table, &self.files())
    }

    fn open_concat(&self, uri: &str) -> Result<Source, Error> {
        open_concat(uri, &self.table, &self.files())
    }
}

trait ReadMore {
    fn read_to_end(&mut self, out: &mut Vec<u8>) -> Result<usize, IoError>;
    fn read_exact(&mut self, out: &mut [u8]) -> Result<(), IoError>;
}

impl<T: BytesSource + ?Sized> ReadMore for T {
    fn read_to_end(&mut self, out: &mut Vec<u8>) -> Result<usize, IoError> {
        let before = out.len();
        let mut chunk = vec![0u8; 4096];
        loop {
            let n = self.read(&mut chunk)?;
            if n == 0 {
                return Ok(out.len() - before);
            }
            out.extend_from_slice(&chunk[..n]);
        }
    }

    fn read_exact(&mut self, out: &mut [u8]) -> Result<(), IoError> {
        let mut at = 0;
        while at < out.len() {
            let n = self.read(&mut out[at..])?;
            if n == 0 {
                return Err(IoError::new(
                    ErrorKind::UnexpectedEof,
                    String::from("failed to fill whole buffer"),
                ));
            }
            at += n;
        }
        Ok(())
    }
}

fn read_all(mut r: Source) -> Vec<u8> {
    let mut buf = Vec::new();
    r.read_to_end(&mut buf).unwrap();
    buf
}

#[test]
fn dispatches_file_uri_and_bare_path() {
    let mut w = World::new();
    let p = w.temp_file(b"file-bytes");
    let r = w.open_bytes(&format!("file://{}", p)).unwrap();
    assert_eq!(read_all(r), b"file-bytes");
    let r = w.open_bytes(&p).unwrap();
    assert_eq!(read_all(r), b"file-bytes");
}

#[test]
fn dispatches_mem() {
    let mut w = World::new();
    w.put("open-bytes-mem", b"mem-bytes".to_vec());
    let r = w.open_bytes("mem://open-bytes-mem").unwrap();
    assert_eq!(read_all(r), b"mem-bytes");
    w.remove("open-bytes-mem");
}

#[test]
fn dispatches_data() {
    let w = World::new();
    let r = w.open_bytes("data:,plain%20text").unwrap();
    assert_eq!(read_all(r), b"plain text");
    let r = w.open_bytes("data:;base64,SGVsbG8=").unwrap();
    assert_eq!(read_all(r), b"Hello");
}

#[test]
fn dispatches_slice() {
    let w = World::new();
    let r = w.open_bytes("slice:3+2!data:,ABCDEFGH").unwrap();
    assert_eq!(read_all(r), b"DE");
}

#[test]
fn dispatches_concat() {
    let w = World::new();
    let r = w.open_bytes("concat:data:,AA|data:,BB").unwrap();
    assert_eq!(read_all(r), b"AABB");
}

#[test]
fn slice_over_concat_composes() {
    let w = World::new();
    let r = w.open_bytes("slice:2+4!concat:data:,AB|data:,CDEF").unwrap();
    assert_eq!(read_all(r), b"CDEF");
}

#[test]
fn unknown_scheme_rejected_with_scheme_name() {
    let w = World::new();
    let err = match w.open_bytes("http://example.com/x") {
        Err(e) => e.to_string(),
        Ok(_) => panic!("http must not be dispatchable without a registry"),
    };
    assert!(err.contains("http"), "error should name the scheme: {err}");
}

#[test]
fn uppercase_schemes_dispatch() {
    let mut w = World::new();
    w.put("open-bytes-case", b"CASE".to_vec());
    let r = w.open_bytes("MEM://open-bytes-case").unwrap();
    assert_eq!(read_all(r), b"CASE");
    w.remove("open-bytes-case");
}

#[test]
fn missing_file_keeps_io_error_taxonomy() {
    let w = World::new();
    let err = match w.open_bytes("/no/such/path/oxideav-open-bytes-xyzzy") {
        Err(e) => e,
        Ok(_) => panic!("missing file must error"),
    };
    let msg = err.to_string();
    assert!(
        !msg.contains("no bundled in-process driver"),
        "missing file must not be reported as an unknown scheme: {msg}"
    );
}
