#![allow(dead_code)]
#![allow(unused_imports)]
use oxideav_source::stream::Cursor;
use oxideav_source::{
    mem, open_bytes, open_concat, open_data, open_file, open_mem, open_slice, parse_concat_uri,
    parse_data_uri, parse_slice_uri, stream_len, BytesSource, ConcatUri, DataUri, Error, ErrorKind,
    IoError, MemTable, SeekFrom, SliceUri, Source, SubSource,
};

struct World {
    table: MemTable,
    disk: Vec<(String, Vec<u8>)>,
}

impl World {
    fn new() -> Self {
        World { table: MemTable::new(), disk: Vec::new() }
    }

    fn put(&mut self, id: &str, data: Vec<u8>) {
        mem::put(&mut self.table, id, data);
    }

    fn remove(&mut self, id: &str) -> bool {
        mem::remove(&mut self.table, id)
    }

    fn named_file(&mut self, path: &str, bytes: &[u8]) -> String {
        self.disk.push((path.to_string(), bytes.to_vec()));
        path.to_string()
    }

    fn temp_file(&mut self, bytes: &[u8]) -> String {
        let path = format!("/tmp/source-{}.bin", self.disk.len());
        self.named_file(&path, bytes)
    }

    fn files(&self) -> impl Fn(&str) -> Result<Source, IoError> + '_ {
        move |path: &str| match self.disk.iter().find(|f| f.0 == path) {
            Some(f) => Ok(Source { stream: Box::new(Cursor::new(f.1.clone())) }),
            None => Err(IoError::new(
                ErrorKind::NotFound,
                String::from("No such file or directory (os error 2)"),
            )),
        }
    }

    fn open_bytes(&self, uri: &str) -> Result<Source, Error> {
        open_bytes(uri, &self.table, &self.files())
    }

    fn open_file(&self, uri: &str) -> Result<Source, Error> {
        open_file(uri, &self.files())
    }

    fn open_mem(&self, uri: &str) -> Result<Source, Error> {
        open_mem(uri, &self.table)
    }

    fn open_slice(&self, uri: &str) -> Result<Source, Error> {
        open_slice(uri, &self.table, &self.files())
    }

    fn open_concat(&self, uri: &str) -> Result<Source, Error> {
        open_concat(uri, &self.table, &self.files())
    }
}

trait ReadMore {
    fn read_to_end(&mut self, out: &mut Vec<u8>) -> Result<usize, IoError>;
    fn read_exact(&mut self, out: &mut [u8]) -> Result<(), IoError>;
}

impl<T: BytesSource + ?Sized> ReadMore for T {
    fn read_to_end(&mut self, out: &mut Vec<u8>) -> Result<usize, IoError> {
        let before = out.len();
        let mut chunk = vec![0u8; 4096];
        loop {
            let n = self.read(&mut chunk)?;
            if n == 0 {
                return Ok(out.len() - before);
            }
            out.extend_from_slice(&chunk[..n]);
        }
    }

    fn read_exact(&mut self, out: &mut [u8]) -> Result<(), IoError> {
        let mut at = 0;
        while at < out.len() {
            let n = self.read(&mut out[at..])?;
            if n == 0 {
                return Err(IoError::new(
                    ErrorKind::UnexpectedEof,
                    String::from("failed to fill whole buffer"),
                ));
            }
            at += n;
        }
        Ok(())
    }
}

fn read_all(mut r: Source) -> Vec<u8> {
    let mut buf = Vec::new();
    r.read_to_end(&mut buf).unwrap();
    buf
}

#[test]
fn file_driver_accepts_uppercase_scheme() {
    let mut w = World::new();
    let p = w.temp_file(b"case-file");
    let uri = format!("FILE://{}", p);
    let r = w.open_file(&uri).unwrap();
    assert_eq!(read_all(r), b"case-file");
}

#[test]
fn file_driver_accepts_mixed_case_scheme() {
    let mut w = World::new();
    let p = w.temp_file(b"case-file-mixed");
    let uri = format!("File://{}", p);
    let r = w.open_file(&uri).unwrap();
    assert_eq!(read_all(r), b"case-file-mixed");
}

#[test]
fn uppercase_file_uri_still_percent_decodes() {
    let mut w = World::new();
    let p = w.named_file("/tmp/oxideav scheme case.bin", b"decoded");
    let encoded = p.replace(' ', "%20");
    let r = w.open_file(&format!("FILE://{encoded}")).unwrap();
    assert_eq!(read_all(r), b"decoded");
}

#[test]
fn mem_driver_accepts_uppercase_scheme() {
    let mut w = World::new();
    w.put("scheme-case-mem", b"case-mem".to_vec());
    let r = w.open_mem("MEM://scheme-case-mem").unwrap();
    assert_eq!(read_all(r), b"case-mem");
    w.remove("scheme-case-mem");
}

#[test]
fn data_driver_accepts_uppercase_scheme() {
    let r = open_data("DATA:,case-data").unwrap();
    assert_eq!(read_all(r), b"case-data");
    let r = open_data("Data:;base64,SGVsbG8=").unwrap();
    assert_eq!(read_all(r), b"Hello");
}

#[test]
fn slice_driver_accepts_uppercase_scheme_and_inner() {
    let mut w = World::new();
    w.put("scheme-case-slice", b"abcdefgh".to_vec());
    let r = w.open_slice("SLICE:2+3!MEM://scheme-case-slice").unwrap();
    assert_eq!(read_all(r), b"cde");
    w.remove("scheme-case-slice");
}

#[test]
fn concat_driver_accepts_uppercase_scheme_and_segments() {
    let mut w = World::new();
    w.put("scheme-case-concat", b"BB".to_vec());
    let r = w.open_concat("CONCAT:DATA:,AA|MEM://scheme-case-concat").unwrap();
    assert_eq!(read_all(r), b"AABB");
    w.remove("scheme-case-concat");
}

#[test]
fn concat_rejects_uppercase_nested_concat_segment() {
    let w = World::new();
    let err = match w.open_concat("concat:CONCAT:a|b") {
        Err(e) => e.to_string(),
        Ok(_) => panic!("uppercase nested concat must be rejected"),
    };
    assert!(
        err.contains("nesting concat"),
        "uppercase nested concat must hit the explicit rejection, got: {err}"
    );
}

#[test]
fn registry_open_dispatches_uppercase_schemes() {
    let mut w = World::new();
    w.put("scheme-case-reg", b"via-registry".to_vec());

    let out = w.open_bytes("MEM://scheme-case-reg").unwrap();
    assert_eq!(read_all(out), b"via-registry");

    let out = w.open_bytes("DATA:,reg-data").unwrap();
    assert_eq!(read_all(out), b"reg-data");

    let out = w.open_bytes("SLICE:0+3!MEM://scheme-case-reg").unwrap();
    assert_eq!(read_all(out), b"via");

    w.remove("scheme-case-reg");
}

#[test]
fn wrong_scheme_still_rejected_regardless_of_case() {
    let w = World::new();
    assert!(w.open_mem("FILE:///tmp/x").is_err());
    assert!(open_data("MEM://x").is_err());
    assert!(w.open_file("MEM://x").is_err());
    assert!(w.open_slice("DATA:,x").is_err());
    assert!(w.open_concat("SLICE:0+1!mem://x").is_err());
}
