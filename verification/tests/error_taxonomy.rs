#![allow(dead_code)]
#![allow(unused_imports)]
use oxideav_source::stream::Cursor;
use oxideav_source::{
    mem, open_bytes, open_concat, open_data, open_file, open_mem, open_slice, parse_concat_uri,
    parse_data_uri, parse_slice_uri, stream_len, BytesSource, ConcatUri, DataUri, Error, ErrorKind,
    IoError, MemTable, SeekFrom, SliceUri, Source, SubSource,
};

struct World {
    table: MemTable,
    disk: Vec<(String, Vec<u8>)>,
}

impl World {
    fn new() -> Self {
        World { table: MemTable::new(), disk: Vec::new() }
    }

    fn put(&mut self, id: &str, data: Vec<u8>) {
        mem::put(&mut self.table, id, data);
    }

    fn remove(&mut self, id: &str) -> bool {
        mem::remove(&mut self.table, id)
    }

    fn named_file(&mut self, path: &str, bytes: &[u8]) -> String {
        self.disk.push((path.to_string(), bytes.to_vec()));
        path.to_string()
    }

    fn temp_file(&mut self, bytes: &[u8]) -> String {
        let path = format!("/tmp/source-{}.bin", self.disk.len());
        self.named_file(&path, bytes)
    }

    fn files(&self) -> impl Fn(&str) -> Result<Source, IoError> + '_ {
        move |path: &str| match self.disk.iter().find(|f| f.0 == path) {
            Some(f) => Ok(Source { stream: Box::new(Cursor::new(f.1.clone())) }),
            None => Err(IoError::new(
                ErrorKind::NotFound,
                String::from("No such file or directory (os error 2)"),
            )),
        }
    }

    fn open_bytes(&self, uri: &str) -> Result<Source, Error> {
        open_bytes(uri, &self.table, &self.files())
    }

    fn open_file(&self, uri: &str) -> Result<Source, Error> {
        open_file(uri, &self.files())
    }

    fn open_mem(&self, uri: &str) -> Result<Source, Error> {
        open_mem(uri, &self.table)
    }

    fn open_slice(&self, uri: &str) -> Result<Source, Error> {
        open_slice(uri, &self.table, &self.files())
    }

    fn open_concat(&self, uri: &str) -> Result<Source, Error> {
        open_concat(uri, &self.table, &self.files())
    }
}

trait ReadMore {
    fn read_to_end(&mut self, out: &mut Vec<u8>) -> Result<usize, IoError>;
    fn read_exact(&mut self, out: &mut [u8]) -> Result<(), IoError>;
}

impl<T: BytesSource + ?Sized> ReadMore for T {
    fn read_to_end(&mut self, out: &mut Vec<u8>) -> Result<usize, IoError> {
        let before = out.len();
        let mut chunk = vec![0u8; 4096];
        loop {
            let n = self.read(&mut chunk)?;
            if n == 0 {
                return Ok(out.len() - before);
            }
            out.extend_from_slice(&chunk[..n]);
        }
    }

    fn read_exact(&mut self, out: &mut [u8]) -> Result<(), IoError> {
        let mut at = 0;
        while at < out.len() {
            let n = self.read(&mut out[at..])?;
            if n == 0 {
                return Err(IoError::new(
                    ErrorKind::UnexpectedEof,
                    String::from("failed to fill whole buffer"),
                ));
            }
            at += n;
        }
        Ok(())
    }
}

fn kind_of(e: &Error) -> Option<ErrorKind> {
    match e {
        Error::Io(io) => Some(io.kind),
        _ => None,
    }
}

#[test]
fn unregistered_mem_id_is_io_not_found() {
    let w = World::new();
    let e = w.open_mem("mem://taxonomy-not-registered").err().unwrap();
    assert_eq!(
        kind_of(&e),
        Some(ErrorKind::NotFound),
        "unregistered mem id must be Io(NotFound), got {e:?}"
    );
}

#[test]
fn missing_file_is_io_not_found() {
    let w = World::new();
    let e = w.open_file("/no/such/oxideav-taxonomy-file").err().unwrap();
    assert_eq!(
        kind_of(&e),
        Some(ErrorKind::NotFound),
        "missing file must pass through as Io(NotFound), got {e:?}"
    );
}

#[test]
fn unknown_scheme_in_open_bytes_is_unsupported() {
    let w = World::new();
    let e = match w.open_bytes("http://example.com/x") {
        Err(e) => e,
        Ok(_) => panic!("http must not open"),
    };
    assert!(
        matches!(e, Error::Unsupported(_)),
        "unknown scheme must be Unsupported (registry-miss shape), got {e:?}"
    );
}

#[test]
fn malformed_uris_stay_invalid_data() {
    let w = World::new();
    for (label, e) in [
        ("bad slice grammar", w.open_slice("slice:nope").err().unwrap()),
        (
            "leading zeros",
            w.open_slice("slice:007+1!mem://x").err().unwrap(),
        ),
        ("bad escape", open_data("data:,%ZZ").err().unwrap()),
        ("bad base64", open_data("data:;base64,!!!!").err().unwrap()),
        ("missing comma", open_data("data:text/plain").err().unwrap()),
    ] {
        assert!(
            matches!(e, Error::InvalidData(_)),
            "{label} must be InvalidData, got {e:?}"
        );
    }
}

#[test]
fn slice_window_bounds_violation_is_invalid_data() {
    let w = World::new();
    let e = w.open_slice("slice:5+10!data:,ABC").err().unwrap();
    assert!(
        matches!(e, Error::InvalidData(_)),
        "out-of-bounds window must be InvalidData, got {e:?}"
    );
}

#[test]
fn composite_drivers_propagate_inner_taxonomy() {
    let w = World::new();
    let e = w.open_slice("slice:0+1!mem://taxonomy-absent").err().unwrap();
    assert_eq!(
        kind_of(&e),
        Some(ErrorKind::NotFound),
        "slice must propagate the inner NotFound, got {e:?}"
    );
    let e = w.open_bytes("concat:data:,ok|mem://taxonomy-absent")
        .err()
        .unwrap();
    assert_eq!(
        kind_of(&e),
        Some(ErrorKind::NotFound),
        "concat must propagate the segment NotFound, got {e:?}"
    );
}
