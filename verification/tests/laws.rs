use oxideav_source::buffered::{sanitise_lookback, ReadStep, WorkerAction};
use oxideav_source::data;
use oxideav_source::mem;
use oxideav_source::slice;
use oxideav_source::stream::Cursor;
use oxideav_source::uri::{percent_decode_bytes, percent_decode_path, scheme_is, split};
use oxideav_source::{
    open_bytes, open_concat, open_file, open_mem, open_slice, parse_concat_uri, parse_data_uri,
    parse_slice_uri, stream_len, BufferedSourceBuilder, BytesSource, ConcatUri, DataUri, Error,
    ErrorKind, IoError, MemTable, SeekFrom, SliceUri, Source, SubSource, DEFAULT_BLOCK,
    DEFAULT_LOOKBACK_DEN, DEFAULT_LOOKBACK_NUM, DEFAULT_PREFETCH_TIMEOUT,
};

fn no_files(_path: &str) -> Result<Source, IoError> {
    Err(IoError::new(ErrorKind::NotFound, String::from("nothing there")))
}

fn source(data: &[u8]) -> Source {
    Source { stream: Box::new(Cursor::new(data.to_vec())) }
}

fn all(mut s: Source) -> Vec<u8> {
    let mut out = Vec::new();
    let mut chunk = [0u8; 5];
    loop {
        let n = s.read(&mut chunk).unwrap();
        if n == 0 {
            return out;
        }
        out.extend_from_slice(&chunk[..n]);
    }
}

fn strings(s: &[&str]) -> Vec<String> {
    s.iter().map(|t| t.to_string()).collect()
}

fn message<T>(r: Result<T, Error>) -> String {
    match r {
        Ok(_) => String::from("no error"),
        Err(e) => e.to_string(),
    }
}

#[test]
fn split_undoes_join() {
    assert_eq!(split("a1+-.x:rest"), ("a1+-.x", "rest"));
    assert_eq!(split("mem:////x"), ("mem", "//x"));
    assert_eq!(split("mem:/x"), ("mem", "/x"));
    assert_eq!(split("1x:rest"), ("file", "1x:rest"));
    assert_eq!(split(":rest"), ("file", ":rest"));
    assert_eq!(split("z:rest"), ("file", "z:rest"));
    assert_eq!(split("a b:rest"), ("file", "a b:rest"));
    assert_eq!(split("\u{e9}t\u{e9}:rest"), ("file", "\u{e9}t\u{e9}:rest"));
    assert_eq!(split(""), ("file", ""));
}

#[test]
fn a_single_letter_is_a_scheme_where_slashes_follow() {
    assert_eq!(split("c://host/x"), ("c", "host/x"));
    assert_eq!(split("C://"), ("C", ""));
    assert_eq!(split("c:///x"), ("c", "/x"));
    assert_eq!(split("c:/x"), ("file", "c:/x"));
    assert_eq!(split("c:\\x"), ("file", "c:\\x"));
    assert_eq!(split("c:"), ("file", "c:"));
    assert_eq!(split("1://x"), ("file", "1://x"));
    assert_eq!(
        message(open_bytes("c://host/x", &MemTable::new(), &no_files)),
        "unsupported: no bundled in-process driver for scheme \"c\" (URI: c://host/x); only \
         file/mem/data/slice/concat are dispatchable without a registry"
    );
}

#[test]
fn words_are_compared_up_to_case() {
    assert!(scheme_is("MeM", "mem"));
    assert!(!scheme_is("mem", "mems"));
    assert!(!scheme_is("[", "{"));
    assert!(!scheme_is("@", "`"));
}

#[test]
fn percent_errors_name_what_is_wrong() {
    assert_eq!(
        message(percent_decode_bytes("ab%4")),
        "invalid data: percent-encoding truncated at offset 2"
    );
    assert_eq!(
        message(percent_decode_bytes("%Z1")),
        "invalid data: percent-encoding: non-hex digit 'Z'"
    );
    assert_eq!(
        message(percent_decode_bytes("%1'")),
        "invalid data: percent-encoding: non-hex digit '\\''"
    );
    assert_eq!(
        message(percent_decode_path("%FF")),
        "invalid data: percent-decoded path is not valid UTF-8: invalid utf-8 sequence of 1 \
         bytes from index 0"
    );
    assert_eq!(percent_decode_path("%C3%A9").unwrap(), "\u{e9}");
}

#[test]
fn data_values_come_back_from_their_spelling() {
    for n in 0..20usize {
        let payload: Vec<u8> = (0..n).map(|i| (i * 37 + 11) as u8).collect();
        for base64 in [false, true] {
            let d = DataUri::new("text/plain;x=1", base64, payload.clone()).unwrap();
            assert_eq!(parse_data_uri(&d.format()).unwrap(), d);
        }
    }
    assert_eq!(
        DataUri::new("", true, vec![0xfb, 0xff]).unwrap().format(),
        "data:;base64,+/8="
    );
    assert_eq!(DataUri::new("", true, vec![0]).unwrap().format(), "data:;base64,AA==");
    assert_eq!(
        DataUri::new("m", false, vec![0x20, 0x7e, 0xab, 0x2f]).unwrap().format(),
        "data:m,%20~%AB%2F"
    );
}

#[test]
fn base64_payloads_are_padded_to_groups_of_four() {
    for n in 0..20usize {
        let payload: Vec<u8> = (0..n).map(|i| (i * 91 + 250) as u8).collect();
        let uri = DataUri::new("", true, payload).unwrap().format();
        let text = uri.strip_prefix("data:;base64,").unwrap();
        assert_eq!(text.len(), 4 * ((n + 2) / 3));
        let pads = (3 - n % 3) % 3;
        let (body, tail) = text.split_at(text.len() - pads);
        assert_eq!(tail, "=".repeat(pads));
        assert!(body.chars().all(|c| c.is_ascii_alphanumeric() || c == '+' || c == '/'));
    }
}

#[test]
fn base64_text_is_appended_and_read_back() {
    let mut out = String::from("\u{e9}:");
    data::encode_base64_into(&[0xfb, 0xff], &mut out);
    assert_eq!(out, "\u{e9}:+/8=");
    assert_eq!(data::decode_base64("+/8=").unwrap(), [0xfb, 0xff]);
}

#[test]
fn data_errors_name_what_is_wrong() {
    let m = |u: &str| message(data::parse(u));
    assert_eq!(m("mem://x"), "invalid data: data driver invoked on non-data URI: mem://x");
    assert_eq!(m("data:x"), "invalid data: data: URI missing comma separator");
    assert_eq!(
        m("data:;base64,AAAAA"),
        "invalid data: data:// base64 payload length 5 is not a multiple of 4"
    );
    assert_eq!(
        m("data:;base64,A=AA"),
        "invalid data: data:// base64 padding character before end of payload"
    );
    assert_eq!(
        m("data:;base64,A*AA"),
        "invalid data: data:// base64: invalid character '*'"
    );
    assert_eq!(
        m("data:;base64,A==="),
        "invalid data: data:// base64: more than two padding characters in a group"
    );
    assert_eq!(
        m("data:;base64,AA==AAAA"),
        "invalid data: data:// base64: padding before final group"
    );
    assert_eq!(
        m("data:////x,"),
        "invalid data: data: mediatype \"//x\" starts with \"//\" after the scheme split; it is \
         ambiguous with an authority-style spelling and cannot round-trip"
    );
    assert_eq!(
        message(DataUri::new("a\"b,c", false, Vec::new())),
        "invalid data: data: mediatype \"a\\\"b,c\" contains a ','; the grammar splits header \
         from payload at the first comma, so the value cannot round-trip"
    );
    assert_eq!(
        message(DataUri::new(";Base64", false, Vec::new())),
        "invalid data: data: mediatype \";Base64\" ends with the \";base64\" marker while the \
         payload is percent-encoded; the formatted URI would re-parse as base64 and the value \
         cannot round-trip"
    );
    assert_eq!(
        message(DataUri::new("//", true, Vec::new())),
        "invalid data: data: mediatype \"//\" starts with \"//\"; it cannot round-trip because \
         the formatted URI's leading '//' reads as an authority-style spelling and is stripped \
         on re-parse"
    );
}

#[test]
fn slice_bounds_are_canonical_decimals() {
    let m = |u: &str| message(slice::parse(u));
    assert_eq!(
        m("slice:007+1!x"),
        "invalid data: slice: offset \"007\" is not a non-negative decimal u64: leading zero in \
         canonical decimal"
    );
    assert_eq!(
        m("slice:1++2!x"),
        "invalid data: slice: length \"+2\" is not a non-negative decimal u64: invalid digit \
         found in string"
    );
    assert_eq!(
        m("slice:+2!x"),
        "invalid data: slice: offset \"\" is not a non-negative decimal u64: cannot parse \
         integer from empty string"
    );
    assert_eq!(
        m("slice:0+18446744073709551616!x"),
        "invalid data: slice: length \"18446744073709551616\" is not a non-negative decimal \
         u64: number too large to fit in target type"
    );
    assert_eq!(
        m("slice:0+99999999999999999999999!x"),
        "invalid data: slice: length \"99999999999999999999999\" is not a non-negative decimal \
         u64: number too large to fit in target type"
    );
    assert!(slice::parse("slice:\u{663}+1!x").is_err());
    assert_eq!(slice::parse("slice:0+18446744073709551615!x").unwrap().length, u64::MAX);
    assert_eq!(m("slice:1"), "invalid data: slice: URI missing '!' separator before inner URI");
    assert_eq!(
        m("slice:1!x"),
        "invalid data: slice: URI range missing '+' between offset and length"
    );
    assert_eq!(m("slice:1+2!"), "invalid data: slice: URI inner reference is empty after '!'");
    assert_eq!(m("data:,"), "invalid data: slice driver invoked on non-slice URI: data:,");
}

#[test]
fn slice_spellings_are_normalised() {
    let canonical = parse_slice_uri("slice:10+20!mem://x").unwrap();
    for u in ["SLICE:10+20!mem://x", "slice://10+20!mem://x", "Slice://10+20!mem://x"] {
        let s = parse_slice_uri(u).unwrap();
        assert_eq!(s, canonical);
        assert_eq!(s.format(), "slice:10+20!mem://x");
    }
    let nested = parse_slice_uri("slice:1+2!slice:3+4!mem:x").unwrap();
    assert_eq!(nested.format(), "slice:1+2!slice:3+4!mem:x");
    assert_eq!(
        message(SliceUri::new(1, 2, "slice:3+4!mem:x")),
        "invalid data: slice: URI inner reference \"slice:3+4!mem:x\" contains a '!'; a literal \
         '!' inside the inner URI cannot round-trip because the grammar splits on the first '!' \
         after the length token"
    );
    assert_eq!(
        message(SliceUri::new(1, 2, "")),
        "invalid data: slice: URI inner reference cannot be empty"
    );
    assert_eq!(SliceUri::new(0, u64::MAX, "x").unwrap().format(), "slice:0+18446744073709551615!x");
}

#[test]
fn concat_errors_name_what_is_wrong() {
    let m = |u: &str| message(parse_concat_uri(u));
    assert_eq!(m("mem:x"), "invalid data: concat driver invoked on non-concat URI: mem:x");
    assert_eq!(m("concat:"), "invalid data: concat: URI requires at least one segment");
    assert_eq!(m("concat:a||b"), "invalid data: concat: URI has an empty segment: \"a||b\"");
    assert_eq!(
        m("concat:////a|b"),
        "invalid data: concat: first segment \"//a\" starts with \"//\" after the scheme split; \
         a first segment with leading '//' is ambiguous with the authority-style `concat://` \
         spelling and cannot round-trip"
    );
    assert_eq!(
        message(ConcatUri::new(Vec::new())),
        "invalid data: concat: URI requires at least one segment"
    );
    assert_eq!(
        message(ConcatUri::new(strings(&["a", ""]))),
        "invalid data: concat: URI segment cannot be empty"
    );
    assert_eq!(
        message(ConcatUri::new(strings(&["a", "b|c"]))),
        "invalid data: concat: URI segment \"b|c\" contains a '|'; a literal '|' inside a \
         segment cannot round-trip because the grammar splits on every '|'"
    );
    assert_eq!(
        message(ConcatUri::new(strings(&["//a"]))),
        "invalid data: concat: first segment \"//a\" starts with \"//\"; it cannot round-trip \
         because the formatted URI's leading '//' reads as the authority-style `concat://` \
         spelling"
    );
    assert_eq!(
        message(open_concat("concat:data:,x|concat:y", &MemTable::new(), &no_files)),
        "invalid data: concat: segment \"concat:y\" is itself a concat: URI; nesting concat is \
         not supported because the outer '|' split would shred the inner segment list"
    );
}

#[test]
fn the_first_failing_segment_decides() {
    let t = MemTable::new();
    assert_eq!(
        message(open_bytes("concat:data:,x|mem:gone|http://y", &t, &no_files)),
        "I/O error: mem:// id 'gone' is not registered"
    );
    assert_eq!(
        message(open_bytes("concat:data:,x|http://y|mem:gone", &t, &no_files)),
        "unsupported: no bundled in-process driver for scheme \"http\" (URI: http://y); only \
         file/mem/data/slice/concat are dispatchable without a registry"
    );
}

#[test]
fn the_table_keeps_what_was_put_last() {
    let mut t = MemTable::new();
    mem::put(&mut t, "a", b"one".to_vec());
    let mut early = open_mem("mem:a", &t).unwrap();
    mem::put(&mut t, "a", b"two!".to_vec());
    mem::put(&mut t, "b", b"other".to_vec());
    let late = open_mem("mem://a", &t).unwrap();
    assert!(mem::remove(&mut t, "a"));
    assert!(!mem::remove(&mut t, "a"));
    let mut chunk = [0u8; 2];
    assert_eq!(early.read(&mut chunk).unwrap(), 2);
    assert_eq!(&chunk, b"on");
    early.seek(SeekFrom::Start(0)).unwrap();
    assert_eq!(all(early), b"one");
    assert_eq!(all(late), b"two!");
    assert_eq!(all(open_mem("mem:b", &t).unwrap()), b"other");
    mem::clear(&mut t);
    assert_eq!(
        message(open_mem("mem:b", &t)),
        "I/O error: mem:// id 'b' is not registered"
    );
    assert_eq!(message(open_mem("mem:", &t)), "invalid data: mem:// URI requires a non-empty id");
    assert_eq!(
        message(open_mem("mem:a/b", &t)),
        "invalid data: mem:// id must not contain '/': a/b"
    );
    assert_eq!(
        message(open_mem("data:,", &t)),
        "invalid data: mem driver invoked on non-mem URI: data:,"
    );
}

#[test]
fn windows_have_to_lie_inside() {
    assert_eq!(
        message(SubSource::new(source(b"0123456789"), 4, 7)),
        "invalid data: SubSource: window [4, 11) extends past inner length 10"
    );
    assert_eq!(
        message(SubSource::new(source(b""), u64::MAX, 1)),
        "invalid data: SubSource: base + len overflows u64"
    );
    let mut s = SubSource::new(source(b"0123456789"), 4, 6).unwrap();
    let e = s.seek(SeekFrom::End(-7)).err().unwrap();
    assert_eq!(e.kind, ErrorKind::InvalidInput);
    assert_eq!(e.message, "SubSource: seek resolves to a negative or overflowing position");
    assert_eq!(s.seek(SeekFrom::Start(u64::MAX)).unwrap(), u64::MAX);
    assert!(s.seek(SeekFrom::Current(1)).is_err());
    assert_eq!(s.stream_position().unwrap(), u64::MAX);
}

#[test]
fn nested_windows_are_windows() {
    let t = MemTable::new();
    let a = open_slice("slice:2+3!slice:1+6!data:,0123456789", &t, &no_files).unwrap();
    let b = open_slice("slice:3+3!data:,0123456789", &t, &no_files).unwrap();
    let (a, b) = (all(a), all(b));
    assert_eq!(a, b);
    assert_eq!(a, b"345");
}

#[test]
fn adjacent_windows_in_a_row_are_the_stream() {
    let t = MemTable::new();
    let u = "concat:slice:0+4!data:,0123456789|slice:4+0!data:,0123456789|slice:4+6!data:,0123456789";
    assert_eq!(all(open_bytes(u, &t, &no_files).unwrap()), b"0123456789");
}

#[test]
fn positions_survive_a_length_query() {
    let mut s = source(b"0123456789");
    s.seek(SeekFrom::Start(7)).unwrap();
    assert_eq!(stream_len(&mut s).unwrap(), 10);
    assert_eq!(s.stream_position().unwrap(), 7);
    let mut c = Cursor::new(b"abc".to_vec());
    let e = c.seek(SeekFrom::Current(-1)).err().unwrap();
    assert_eq!(e.message, "invalid seek to a negative or overflowing position");
    let mut buf = [9u8; 5];
    assert_eq!(c.read(&mut buf).unwrap(), 3);
    assert_eq!(&buf, b"abc\x09\x09");
}

#[test]
fn file_errors_keep_their_kind() {
    let denied = |_p: &str| -> Result<Source, IoError> {
        Err(IoError::new(ErrorKind::PermissionDenied, String::from("no")))
    };
    match open_file("file:///x", &denied) {
        Err(Error::Io(e)) => assert_eq!(e.kind, ErrorKind::PermissionDenied),
        _ => panic!("expected the failure of the file"),
    }
    assert_eq!(
        message(open_file("mem:x", &denied)),
        "invalid data: file driver invoked on non-file URI: mem:x"
    );
    match open_bytes("concat:data:,x|slice:0+1!/y", &MemTable::new(), &denied) {
        Err(Error::Io(e)) => assert_eq!(e.kind, ErrorKind::PermissionDenied),
        _ => panic!("expected the failure of the file"),
    }
}

#[test]
fn tunables_are_clamped() {
    let t = BufferedSourceBuilder::new().tuning();
    assert_eq!(t.capacity, 1024 * 1024);
    assert_eq!(t.block_size, DEFAULT_BLOCK);
    assert_eq!(t.prefetch_timeout, DEFAULT_PREFETCH_TIMEOUT);
    assert_eq!((t.lookback_num, t.lookback_den), (DEFAULT_LOOKBACK_NUM, DEFAULT_LOOKBACK_DEN));
    let t = BufferedSourceBuilder::default()
        .capacity(1)
        .block_size(1)
        .prefetch_timeout(0)
        .lookback_fraction(9, 8)
        .tuning();
    assert_eq!(t.capacity, 16384);
    assert_eq!(t.block_size, 4096);
    assert_eq!(t.prefetch_timeout, 1_000_000);
    assert_eq!((t.lookback_num, t.lookback_den), (7, 8));
    let t = BufferedSourceBuilder::new().lookback_fraction(3, 0).tuning();
    assert_eq!((t.lookback_num, t.lookback_den), (0, 1));
}

#[test]
fn a_lookback_fraction_in_range_stays() {
    assert_eq!(sanitise_lookback(3, 0), (0, 1));
    assert_eq!(sanitise_lookback(9, 8), (7, 8));
    assert_eq!(sanitise_lookback(3, 8), (3, 8));
    for (num, den) in [(0, 0), (5, 0), (0, 7), (3, 4), (4, 4), (9, 8), (u32::MAX, u32::MAX)] {
        let t = BufferedSourceBuilder::new().lookback_fraction(num, den).tuning();
        let (n, d) = (t.lookback_num, t.lookback_den);
        assert!(n < d);
        let t = BufferedSourceBuilder::new().lookback_fraction(n, d).tuning();
        assert_eq!((t.lookback_num, t.lookback_den), (n, d));
    }
}

#[test]
fn a_stalled_worker_times_the_reader_out() {
    let mut inner = source(&[7u8; 100]);
    let (mut ring, mut reader) = BufferedSourceBuilder::new()
        .prefetch_timeout(50_000_000)
        .build(&mut inner)
        .unwrap();
    let mut out = [0u8; 4];
    assert!(matches!(
        reader.read(&mut ring, &mut out),
        ReadStep::Wait { wake_worker: false }
    ));
    let e = reader.timed_out(&ring).unwrap();
    assert_eq!(e.kind, ErrorKind::TimedOut);
    assert_eq!(e.message, "BufferedSource: prefetch timeout (50 ms)");
    assert_eq!(reader.position(), 0);
}

#[test]
fn a_full_ring_behind_the_reader_is_drained() {
    let data: Vec<u8> = (0..100_000).map(|i| (i % 251) as u8).collect();
    let mut inner = source(&data);
    let (mut ring, mut reader) = BufferedSourceBuilder::new()
        .capacity(0)
        .block_size(0)
        .lookback_fraction(1, 2)
        .build(&mut inner)
        .unwrap();
    for _ in 0..4 {
        let n = match ring.worker_next() {
            WorkerAction::Fill(n) => n,
            other => panic!("expected a fill, got {other:?}"),
        };
        assert_eq!(n, 4096);
        let mut scratch = vec![0u8; n];
        let got = inner.read(&mut scratch);
        let verdict = ring.deposit(got, &scratch);
        assert!(verdict.wake_reader && !verdict.exit);
    }
    assert_eq!(ring.worker_next(), WorkerAction::Park);
    let step = reader.seek(&mut ring, SeekFrom::Start(16384)).unwrap();
    assert_eq!((step.pos, step.wake_all), (16384, false));
    let mut out = [0u8; 8];
    assert!(matches!(
        reader.read(&mut ring, &mut out),
        ReadStep::Wait { wake_worker: true }
    ));
    assert_eq!(ring.worker_next(), WorkerAction::Fill(4096));
    let step = reader.seek(&mut ring, SeekFrom::Start(8192)).unwrap();
    assert!(!step.wake_all);
    match reader.read(&mut ring, &mut out) {
        ReadStep::Ready { n, .. } => assert_eq!(n, 8),
        other => panic!("expected bytes, got {other:?}"),
    }
    assert_eq!(&out, &data[8192..8200]);
    let step = reader.seek(&mut ring, SeekFrom::Start(0)).unwrap();
    assert!(step.wake_all);
    assert_eq!(ring.worker_next(), WorkerAction::Reposition(0));
    let e = reader.seek(&mut ring, SeekFrom::Current(-1)).err().unwrap();
    assert_eq!(e.message, "seek before start");
    let e = reader.seek(&mut ring, SeekFrom::End(i64::MAX)).err();
    assert!(e.is_none());
    let e = reader.seek(&mut ring, SeekFrom::Current(i64::MAX)).err().unwrap();
    assert_eq!(e.message, "seek overflow");
    assert!(!ring.is_empty());
    ring.shut_down();
    assert_eq!(ring.worker_next(), WorkerAction::Exit);
}

#[test]
fn a_failed_move_is_told_by_every_read() {
    let mut inner = source(&[1u8; 50_000]);
    let (mut ring, mut reader) = BufferedSourceBuilder::new().build(&mut inner).unwrap();
    reader.seek(&mut ring, SeekFrom::Start(40_000)).unwrap();
    assert_eq!(ring.worker_next(), WorkerAction::Reposition(40_000));
    ring.reposition_failed(IoError::new(ErrorKind::BrokenPipe, String::from("gone")));
    assert!(ring.has_failed());
    let mut out = [0u8; 4];
    for _ in 0..3 {
        match reader.read(&mut ring, &mut out) {
            ReadStep::Failed(e) => {
                assert_eq!(e.kind, ErrorKind::BrokenPipe);
                assert_eq!(e.message, "gone");
            }
            other => panic!("expected the failure, got {other:?}"),
        }
        reader.seek(&mut ring, SeekFrom::Start(10)).unwrap();
    }
    assert!(reader.timed_out(&ring).is_none());
}
