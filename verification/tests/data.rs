#![allow(dead_code)]
#![allow(unused_imports)]
use oxideav_source::stream::Cursor;
use oxideav_source::{
    mem, open_bytes, open_concat, open_data, open_file, open_mem, open_slice, parse_concat_uri,
    parse_data_uri, parse_slice_uri, stream_len, BytesSource, ConcatUri, DataUri, Error, ErrorKind,
    IoError, MemTable, SeekFrom, SliceUri, Source, SubSource,
};
use oxideav_source::data::parse;

struct World {
    table: MemTable,
    disk: Vec<(String, Vec<u8>)>,
}

impl World {
    fn new() -> Self {
        World { table: MemTable::new(), disk: Vec::new() }
    }

    fn put(&mut self, id: &str, data: Vec<u8>) {
        mem::put(&mut self.table, id, data);
    }

    fn remove(&mut self, id: &str) -> bool {
        mem::remove(&mut self.table, id)
    }

    fn named_file(&mut self, path: &str, bytes: &[u8]) -> String {
        self.disk.push((path.to_string(), bytes.to_vec()));
        path.to_string()
    }

    fn temp_file(&mut self, bytes: &[u8]) -> String {
        let path = format!("/tmp/source-{}.bin", self.disk.len());
        self.named_file(&path, bytes)
    }

    fn files(&self) -> impl Fn(&str) -> Result<Source, IoError> + '_ {
        move |path: &str| match self.disk.iter().find(|f| f.0 == path) {
            Some(f) => Ok(Source { stream: Box::new(Cursor::new(f.1.clone())) }),
            None => Err(IoError::new(
                ErrorKind::NotFound,
                String::from("No such file or directory (os error 2)"),
            )),
        }
    }

    fn open_bytes(&self, uri: &str) -> Result<Source, Error> {
        open_bytes(uri, &self.table, &self.files())
    }

    fn open_file(&self, uri: &str) -> Result<Source, Error> {
        open_file(uri, &self.files())
    }

    fn open_mem(&self, uri: &str) -> Result<Source, Error> {
        open_mem(uri, &self.table)
    }

    fn open_slice(&self, uri: &str) -> Result<Source, Error> {
        open_slice(uri, &self.table, &self.files())
    }

    fn open_concat(&self, uri: &str) -> Result<Source, Error> {
        open_concat(uri, &self.table, &self.files())
    }
}

trait ReadMore {
    fn read_to_end(&mut self, out: &mut Vec<u8>) -> Result<usize, IoError>;
    fn read_exact(&mut self, out: &mut [u8]) -> Result<(), IoError>;
}

impl<T: BytesSource + ?Sized> ReadMore for T {
    fn read_to_end(&mut self, out: &mut Vec<u8>) -> Result<usize, IoError> {
        let before = out.len();
        let mut chunk = vec![0u8; 4096];
        loop {
            let n = self.read(&mut chunk)?;
            if n == 0 {
                return Ok(out.len() - before);
            }
            out.extend_from_slice(&chunk[..n]);
        }
    }

    fn read_exact(&mut self, out: &mut [u8]) -> Result<(), IoError> {
        let mut at = 0;
        while at < out.len() {
            let n = self.read(&mut out[at..])?;
            if n == 0 {
                return Err(IoError::new(
                    ErrorKind::UnexpectedEof,
                    String::from("failed to fill whole buffer"),
                ));
            }
            at += n;
        }
        Ok(())
    }
}

#[test]
fn rfc2397_example_inline_text() {
    let p = parse("data:,A%20brief%20note").unwrap();
    assert_eq!(p.mediatype, "");
    assert!(!p.base64);
    assert_eq!(p.data, b"A brief note");
}

#[test]
fn rfc2397_example_base64_image_prefix() {
    let p = parse("data:image/gif;base64,SGVsbG8=").unwrap();
    assert_eq!(p.mediatype, "image/gif");
    assert!(p.base64);
    assert_eq!(p.data, b"Hello");
}

#[test]
fn empty_mediatype_no_payload() {
    let p = parse("data:,").unwrap();
    assert_eq!(p.mediatype, "");
    assert_eq!(p.data, b"");
}

#[test]
fn mediatype_with_parameter() {
    let p = parse("data:text/plain;charset=US-ASCII,abc").unwrap();
    assert_eq!(p.mediatype, "text/plain;charset=US-ASCII");
    assert!(!p.base64);
    assert_eq!(p.data, b"abc");
}

#[test]
fn base64_marker_case_insensitive() {
    let p = parse("data:application/octet-stream;BASE64,SGVsbG8=").unwrap();
    assert!(p.base64);
    assert_eq!(p.data, b"Hello");
}

#[test]
fn base64_with_internal_whitespace() {
    let p = parse("data:;base64,SG Vs\nbG8=").unwrap();
    assert_eq!(p.data, b"Hello");
}

#[test]
fn percent_decode_high_byte() {
    let p = parse("data:,%FF%00%7E").unwrap();
    assert_eq!(p.data, [0xff, 0x00, 0x7e]);
}

#[test]
fn missing_comma_rejected() {
    let r = parse("data:text/plain;base64");
    assert!(r.is_err());
}

#[test]
fn truncated_percent_rejected() {
    let r = parse("data:,%F");
    assert!(r.is_err());
}

#[test]
fn bad_hex_rejected() {
    let r = parse("data:,%ZZ");
    assert!(r.is_err());
}

#[test]
fn base64_bad_length_rejected() {
    let r = parse("data:;base64,SGV");
    assert!(r.is_err());
}

#[test]
fn base64_padding_in_middle_rejected() {
    let r = parse("data:;base64,SGVs=GVs");
    assert!(r.is_err());
}

#[test]
fn base64_invalid_char_rejected() {
    let r = parse("data:;base64,SG!s");
    assert!(r.is_err());
}

#[test]
fn data_wrong_scheme_rejected() {
    let r = parse("file:///tmp/x");
    assert!(r.is_err());
    let r = open_data("mem://x");
    assert!(r.is_err());
}

#[test]
fn open_data_returns_readable_cursor() {
    let mut r = open_data("data:,hello").unwrap();
    let mut buf = Vec::new();
    r.read_to_end(&mut buf).unwrap();
    assert_eq!(buf, b"hello");
}

#[test]
fn base64_full_alphabet_roundtrip() {
    let payload: Vec<u8> = (0u8..=255).collect();
    let uri = DataUri::new("application/octet-stream", true, payload.clone())
        .unwrap()
        .format();
    let parsed = parse(&uri).unwrap();
    assert_eq!(parsed.data, payload);
    assert!(parsed.base64);
    assert_eq!(parsed.mediatype, "application/octet-stream");
}

#[test]
fn typed_format_percent_form() {
    let d = DataUri::new("", false, b"A brief note!".to_vec()).unwrap();
    assert_eq!(d.format(), "data:,A%20brief%20note%21");
    assert_eq!(d.to_string(), d.format());
    assert_eq!(parse(&d.format()).unwrap(), d);
}

#[test]
fn typed_format_base64_form() {
    let d = DataUri::new("image/gif", true, b"Hello".to_vec()).unwrap();
    assert_eq!(d.format(), "data:image/gif;base64,SGVsbG8=");
    assert_eq!(parse(&d.format()).unwrap(), d);
}

#[test]
fn typed_open_serves_payload() {
    let d = DataUri::new("", false, vec![0xff, 0x00, 0x7e]).unwrap();
    let mut r = d.open().unwrap();
    let mut got = Vec::new();
    r.read_to_end(&mut got).unwrap();
    assert_eq!(got, d.data);
    let mut r2 = open_data(&d.format()).unwrap();
    let mut got2 = Vec::new();
    r2.read_to_end(&mut got2).unwrap();
    assert_eq!(got2, got);
}

#[test]
fn typed_constructor_rejects_comma_in_mediatype() {
    assert!(DataUri::new("text/plain,evil", false, vec![]).is_err());
    assert!(DataUri::new("text/plain,evil", true, vec![]).is_err());
}

#[test]
fn typed_constructor_rejects_marker_suffix_on_percent_form() {
    assert!(DataUri::new("text/plain;base64", false, vec![]).is_err());
    assert!(DataUri::new("text/plain;BASE64", false, vec![]).is_err());
    let d = DataUri::new("text/plain;base64", true, b"x".to_vec()).unwrap();
    assert_eq!(parse(&d.format()).unwrap(), d);
}

#[test]
fn leading_double_slash_mediatype_rejected() {
    assert!(parse("data:////x,abc").is_err());
    assert!(DataUri::new("//x", false, vec![]).is_err());
    let d = parse("data://x,abc").unwrap();
    assert_eq!(d.mediatype, "x");
    let d = parse("data:///x,abc").unwrap();
    assert_eq!(d.mediatype, "/x");
    assert_eq!(parse(&d.format()).unwrap(), d);
}

#[test]
fn typed_value_fixpoint_across_shapes() {
    for d in [
        DataUri::new("", false, vec![]).unwrap(),
        DataUri::new("", true, vec![]).unwrap(),
        DataUri::new("text/plain;charset=US-ASCII", false, b"abc".to_vec()).unwrap(),
        DataUri::new("application/octet-stream", true, (0u8..=255).collect()).unwrap(),
        DataUri::new("x", false, (0u8..=255).collect()).unwrap(),
    ] {
        assert_eq!(parse(&d.format()).unwrap(), d, "fixpoint on {d:?}");
    }
}

#[test]
fn data_inline_text_via_registry() {
    let w = World::new();
    let mut r = w.open_bytes("data:,Hello%2C%20world").unwrap();
    let mut buf = Vec::new();
    r.read_to_end(&mut buf).unwrap();
    assert_eq!(buf, b"Hello, world");
}

#[test]
fn data_base64_via_registry() {
    let w = World::new();
    let mut r = w.open_bytes("data:application/octet-stream;base64,T3hpZGVBVg==").unwrap();
    let mut buf = Vec::new();
    r.read_to_end(&mut buf).unwrap();
    assert_eq!(buf, b"OxideAV");
}

#[test]
fn data_source_is_seekable() {
    let w = World::new();
    let mut r = w.open_bytes("data:,abcdefghij").unwrap();
    let end = r.seek(SeekFrom::End(0)).unwrap();
    assert_eq!(end, 10);
    r.seek(SeekFrom::Start(4)).unwrap();
    let mut byte = [0u8; 1];
    r.read_exact(&mut byte).unwrap();
    assert_eq!(byte[0], b'e');
}

#[test]
fn data_malformed_errors_through_registry() {
    let w = World::new();
    let r = w.open_bytes("data:text/plain;base64");
    assert!(r.is_err());
}

#[test]
fn data_parse_exposes_mediatype() {
    let p = oxideav_source::parse_data_uri("data:image/png;base64,SGVsbG8=").unwrap();
    assert_eq!(p.mediatype, "image/png");
    assert!(p.base64);
    assert_eq!(p.data, b"Hello");
}
