#![allow(dead_code)]
#![allow(unused_imports)]
use oxideav_source::stream::Cursor;
use oxideav_source::{
    mem, open_bytes, open_concat, open_data, open_file, open_mem, open_slice, parse_concat_uri,
    parse_data_uri, parse_slice_uri, stream_len, BytesSource, ConcatUri, DataUri, Error, ErrorKind,
    IoError, MemTable, SeekFrom, SliceUri, Source, SubSource,
};
use oxideav_source::buffered::{
    BufferedSourceBuilder, ReadStep, Reader, RingState, WorkerAction,
};

struct World {
    table: MemTable,
    disk: Vec<(String, Vec<u8>)>,
}

impl World {
    fn new() -> Self {
        World { table: MemTable::new(), disk: Vec::new() }
    }

    fn put(&mut self, id: &str, data: Vec<u8>) {
        mem::put(&mut self.table, id, data);
    }

    fn remove(&mut self, id: &str) -> bool {
        mem::remove(&mut self.table, id)
    }

    fn named_file(&mut self, path: &str, bytes: &[u8]) -> String {
        self.disk.push((path.to_string(), bytes.to_vec()));
        path.to_string()
    }

    fn temp_file(&mut self, bytes: &[u8]) -> String {
        let path = format!("/tmp/source-{}.bin", self.disk.len());
        self.named_file(&path, bytes)
    }

    fn files(&self) -> impl Fn(&str) -> Result<Source, IoError> + '_ {
        move |path: &str| match self.disk.iter().find(|f| f.0 == path) {
            Some(f) => Ok(Source { stream: Box::new(Cursor::new(f.1.clone())) }),
            None => Err(IoError::new(
                ErrorKind::NotFound,
                String::from("No such file or directory (os error 2)"),
            )),
        }
    }

    fn open_bytes(&self, uri: &str) -> Result<Source, Error> {
        open_bytes(uri, &self.table, &self.files())
    }

    fn open_file(&self, uri: &str) -> Result<Source, Error> {
        open_file(uri, &self.files())
    }

    fn open_mem(&self, uri: &str) -> Result<Source, Error> {
        open_mem(uri, &self.table)
    }

    fn open_slice(&self, uri: &str) -> Result<Source, Error> {
        open_slice(uri, &self.table, &self.files())
    }

    fn open_concat(&self, uri: &str) -> Result<Source, Error> {
        open_concat(uri, &self.table, &self.files())
    }
}

trait ReadMore {
    fn read_to_end(&mut self, out: &mut Vec<u8>) -> Result<usize, IoError>;
    fn read_exact(&mut self, out: &mut [u8]) -> Result<(), IoError>;
}

impl<T: BytesSource + ?Sized> ReadMore for T {
    fn read_to_end(&mut self, out: &mut Vec<u8>) -> Result<usize, IoError> {
        let before = out.len();
        let mut chunk = vec![0u8; 4096];
        loop {
            let n = self.read(&mut chunk)?;
            if n == 0 {
                return Ok(out.len() - before);
            }
            out.extend_from_slice(&chunk[..n]);
        }
    }

    fn read_exact(&mut self, out: &mut [u8]) -> Result<(), IoError> {
        let mut at = 0;
        while at < out.len() {
            let n = self.read(&mut out[at..])?;
            if n == 0 {
                return Err(IoError::new(
                    ErrorKind::UnexpectedEof,
                    String::from("failed to fill whole buffer"),
                ));
            }
            at += n;
        }
        Ok(())
    }
}

struct Buffered {
    inner: Source,
    ring: RingState,
    reader: Reader,
}

impl Buffered {
    fn build(builder: BufferedSourceBuilder, inner: Source) -> Result<Self, IoError> {
        let mut inner = inner;
        let (ring, reader) = builder.build(&mut inner)?;
        Ok(Buffered { inner, ring, reader })
    }

    fn new(inner: Source, capacity: usize) -> Result<Self, IoError> {
        Buffered::build(BufferedSourceBuilder::new().capacity(capacity), inner)
    }

    fn len(&self) -> Option<u64> {
        self.ring.len()
    }

    fn prefetch_timeout(&self) -> u128 {
        self.reader.prefetch_timeout()
    }

    /// One turn of the worker. False iff it sleeps or is gone.
    fn work(&mut self) -> bool {
        if self.ring.has_failed() {
            return false;
        }
        match self.ring.worker_next() {
            WorkerAction::Exit | WorkerAction::Park => false,
            WorkerAction::Reposition(at) => {
                if let Err(e) = self.inner.seek(SeekFrom::Start(at)) {
                    self.ring.reposition_failed(e);
                }
                true
            }
            WorkerAction::Fill(n) => {
                let mut scratch = vec![0u8; n];
                let got = self.inner.read(&mut scratch);
                if let Ok(k) = got {
                    assert!(self.ring.accepts(k), "a fill always has room");
                }
                self.ring.deposit(got, &scratch);
                true
            }
        }
    }
}

impl BytesSource for Buffered {
    fn read(&mut self, out: &mut [u8]) -> Result<usize, IoError> {
        loop {
            match self.reader.read(&mut self.ring, out) {
                ReadStep::Ready { n, .. } => return Ok(n),
                ReadStep::Failed(e) => return Err(e),
                ReadStep::Wait { .. } => {
                    assert!(self.work(), "a waiting reader has a working worker");
                }
            }
        }
    }

    fn seek(&mut self, from: SeekFrom) -> Result<u64, IoError> {
        Ok(self.reader.seek(&mut self.ring, from)?.pos)
    }
}

struct XorShift(u64);

impl XorShift {
    fn new(seed: u64) -> Self {
        Self(seed | 1)
    }
    fn next(&mut self) -> u64 {
        let mut x = self.0;
        x ^= x << 13;
        x ^= x >> 7;
        x ^= x << 17;
        self.0 = x;
        x
    }
    fn below(&mut self, n: u64) -> u64 {
        self.next() % n.max(1)
    }
}


const SEEDS: &[u64] = &[7, 40499, 987_654_321, 0xDEAD_BEEF];

const OPS: usize = 400;

fn model_read(model: &mut std::io::Cursor<Vec<u8>>, n: usize) -> Vec<u8> {
    let mut out = vec![0u8; n];
    let k = std::io::Read::read(model, &mut out).unwrap();
    out.truncate(k);
    out
}

fn read_upto(r: &mut dyn BytesSource, n: usize) -> Result<Vec<u8>, IoError> {
    let mut out = vec![0u8; n];
    let mut filled = 0;
    while filled < n {
        let k = r.read(&mut out[filled..])?;
        if k == 0 {
            break;
        }
        filled += k;
    }
    out.truncate(filled);
    Ok(out)
}

fn differential_run(label: &str, payload: &[u8], src: &mut dyn BytesSource, seed: u64) {
    let mut model = std::io::Cursor::new(payload.to_vec());
    let mut rng = XorShift::new(seed);
    let len = payload.len() as u64;

    for step in 0..OPS {
        let ctx = || format!("{label}: seed {seed} step {step}");
        match rng.below(8) {
            0..=3 => {
                let n = rng.below(18) as usize;
                let got = read_upto(src, n).unwrap_or_else(|e| panic!("{}: read: {e:?}", ctx()));
                let want = model_read(&mut model, n);
                assert_eq!(got, want, "{}: read({n}) bytes diverge", ctx());
            }
            4 => {
                let target = if rng.below(10) == 0 {
                    u64::MAX - rng.below(4)
                } else {
                    rng.below(len * 2 + 16)
                };
                let got = src.seek(SeekFrom::Start(target));
                let want = std::io::Seek::seek(&mut model, std::io::SeekFrom::Start(target));
                assert_eq!(
                    got.is_ok(),
                    want.is_ok(),
                    "{}: seek(Start({target})) ok-ness diverges",
                    ctx()
                );
                if let (Ok(a), Ok(b)) = (got, want) {
                    assert_eq!(a, b, "{}: seek(Start({target})) position", ctx());
                }
            }
            5 => {
                let mag = rng.below(len + 24) as i64;
                let delta = if rng.below(2) == 0 { mag } else { -mag };
                let delta = if rng.below(12) == 0 { i64::MIN } else { delta };
                let got = src.seek(SeekFrom::Current(delta));
                let want = std::io::Seek::seek(&mut model, std::io::SeekFrom::Current(delta));
                assert_eq!(
                    got.is_ok(),
                    want.is_ok(),
                    "{}: seek(Current({delta})) ok-ness diverges",
                    ctx()
                );
                match (got, want) {
                    (Ok(a), Ok(b)) => {
                        assert_eq!(a, b, "{}: seek(Current({delta})) position", ctx())
                    }
                    (Err(_), Err(_)) => {
                    }
                    _ => unreachable!(),
                }
            }
            6 => {
                let mag = rng.below(len + 24) as i64;
                let delta = if rng.below(2) == 0 { mag } else { -mag };
                let got = src.seek(SeekFrom::End(delta));
                let want = std::io::Seek::seek(&mut model, std::io::SeekFrom::End(delta));
                assert_eq!(
                    got.is_ok(),
                    want.is_ok(),
                    "{}: seek(End({delta})) ok-ness diverges",
                    ctx()
                );
                if let (Ok(a), Ok(b)) = (got, want) {
                    assert_eq!(a, b, "{}: seek(End({delta})) position", ctx());
                }
            }
            _ => {
                let got = read_upto(src, 0).unwrap();
                assert!(got.is_empty(), "{}: zero-sized read", ctx());
            }
        }
        let sp = src
            .stream_position()
            .unwrap_or_else(|e| panic!("{}: stream_position: {e:?}", ctx()));
        let mp = std::io::Seek::stream_position(&mut model).unwrap();
        assert_eq!(sp, mp, "{}: positions diverge after op", ctx());
    }
}

fn payload() -> Vec<u8> {
    (0..777).map(|i| (i % 251) as u8).collect()
}



#[test]
fn mem_matches_model() {
    let mut w = World::new();
    let p = payload();
    w.put("diff-mem", p.clone());
    for &seed in SEEDS {
        let mut src = w.open_bytes("mem://diff-mem").unwrap();
        differential_run("mem", &p, &mut src, seed);
    }
    w.remove("diff-mem");
}

#[test]
fn data_matches_model() {
    let w = World::new();
    let p = payload();
    let mut uri = String::from("data:,");
    for b in &p {
        uri.push_str(&format!("%{b:02X}"));
    }
    for &seed in SEEDS {
        let mut src = w.open_bytes(&uri).unwrap();
        differential_run("data", &p, &mut src, seed);
    }
}

#[test]
fn slice_matches_model() {
    let mut w = World::new();
    let outer: Vec<u8> = (0..1000).map(|i| (i % 249) as u8).collect();
    let p = outer[111..888].to_vec();
    w.put("diff-slice", outer);
    for &seed in SEEDS {
        let mut src = w.open_bytes("slice:111+777!mem://diff-slice").unwrap();
        differential_run("slice", &p, &mut src, seed);
    }
    w.remove("diff-slice");
}

#[test]
fn concat_matches_model() {
    let mut w = World::new();
    let p = payload();
    w.put("diff-cc-a", p[..259].to_vec());
    w.put("diff-cc-b", p[259..518].to_vec());
    w.put("diff-cc-c", p[518..].to_vec());
    for &seed in SEEDS {
        let mut src = w.open_bytes("concat:mem://diff-cc-a|mem://diff-cc-b|mem://diff-cc-c").unwrap();
        differential_run("concat", &p, &mut src, seed);
    }
    for id in ["diff-cc-a", "diff-cc-b", "diff-cc-c"] {
        w.remove(id);
    }
}

#[test]
fn slice_over_concat_matches_model() {
    let mut w = World::new();
    let full = payload();
    let p = full[100..600].to_vec();
    w.put("diff-soc-a", full[..300].to_vec());
    w.put("diff-soc-b", full[300..].to_vec());
    for &seed in SEEDS {
        let mut src = w.open_bytes("slice:100+500!concat:mem://diff-soc-a|mem://diff-soc-b").unwrap();
        differential_run("slice-over-concat", &p, &mut src, seed);
    }
    w.remove("diff-soc-a");
    w.remove("diff-soc-b");
}

#[test]
fn sub_source_matches_model() {
    let outer: Vec<u8> = (0..900).map(|i| (i % 247) as u8).collect();
    let p = outer[50..850].to_vec();
    for &seed in SEEDS {
        let inner = Source { stream: Box::new(Cursor::new(outer.clone())) };
        let mut src = SubSource::new(inner, 50, 800).unwrap();
        differential_run("sub-source", &p, &mut src, seed);
    }
}

#[test]
fn buffered_matches_model() {
    let mut w = World::new();
    let p = payload();
    w.put("diff-buf", p.clone());
    for &seed in SEEDS {
        let inner = w.open_bytes("mem://diff-buf").unwrap();
        let mut src = Buffered::new(inner, 64 * 1024).unwrap();
        differential_run("buffered", &p, &mut src, seed);
    }
    w.remove("diff-buf");
}

#[test]
fn buffered_streaming_matches_model() {
    let mut w = World::new();
    let p: Vec<u8> = (0..512 * 1024).map(|i| (i % 251) as u8).collect();
    w.put("diff-buf-big", p.clone());
    for &seed in SEEDS {
        let inner = w.open_bytes("mem://diff-buf-big").unwrap();
        let mut src = Buffered::build(BufferedSourceBuilder::new().capacity(1).block_size(1), inner)
            .unwrap();
        differential_run("buffered-streaming", &p, &mut src, seed);
    }
    w.remove("diff-buf-big");
}
