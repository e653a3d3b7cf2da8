//! Prefetching: a ring of bytes that a worker fills ahead of a reader.
//!
//! Everything that worker and reader decide is decided here, on the state
//! that they share. What is left to the caller is to hold the lock, to sleep,
//! to wake, and to carry out the [`WorkerAction`]s on the inner stream.
use crate::error::{ErrorKind, IoError, IoErrorView};
use crate::stream::{BytesSource, SeekFrom};
use crate::stream;
use crate::text;
use std::collections::VecDeque;
use vstd::prelude::*;
use vstd::string::StringExecFns;

verus! {

/// Default number of bytes that the worker reads at a time.
pub const DEFAULT_BLOCK: usize = 262_144;

/// Default time that a read waits for the worker, in nanoseconds: 30 s.
pub const DEFAULT_PREFETCH_TIMEOUT: u128 = 30_000_000_000;

/// Default numerator of the part of the ring kept behind the reader.
pub const DEFAULT_LOOKBACK_NUM: u32 = 1;

/// Default denominator of the part of the ring kept behind the reader.
pub const DEFAULT_LOOKBACK_DEN: u32 = 8;

/// Default capacity of the ring.
pub const DEFAULT_CAPACITY: usize = 1_048_576;

/// Least number of bytes that the worker reads at a time.
pub const MIN_BLOCK: usize = 4096;

/// Least time that a read waits, in nanoseconds: 1 ms.
pub const MIN_PREFETCH_TIMEOUT: u128 = 1_000_000;

/// The values that a builder was given.
pub ghost struct Settings {
    pub capacity: usize,
    pub block_size: usize,
    pub prefetch_timeout: u128,
    pub lookback_num: u32,
    pub lookback_den: u32,
}

/// Collects the tunables of a prefetching source.
#[derive(Clone, Debug)]
pub struct BufferedSourceBuilder {
    capacity: usize,
    block_size: usize,
    prefetch_timeout: u128,
    lookback_num: u32,
    lookback_den: u32,
}

/// The tunables in force, every one clamped to a range that lets the worker
/// make progress.
#[derive(Clone, Copy, Debug, PartialEq, Eq, Structural)]
pub struct Tuning {
    pub capacity: usize,
    pub block_size: usize,
    /// In nanoseconds.
    pub prefetch_timeout: u128,
    pub lookback_num: u32,
    pub lookback_den: u32,
}

/// A lookback fraction brought into the range from 0 to below 1.
pub open spec fn sane_fraction(num: u32, den: u32) -> (u32, u32) {
    if den == 0 {
        (0, 1)
    } else if num >= den {
        ((den - 1) as u32, den)
    } else {
        (num, den)
    }
}

/// The larger of two numbers.
pub open spec fn at_least(a: int, b: int) -> int {
    if a < b {
        b
    } else {
        a
    }
}

impl Settings {
    /// The block size in force.
    pub open spec fn block(self) -> int {
        at_least(self.block_size as int, MIN_BLOCK as int)
    }

    /// The tunables in force.
    pub open spec fn tuning(self) -> Tuning {
        let fraction = sane_fraction(self.lookback_num, self.lookback_den);
        Tuning {
            capacity: at_least(self.capacity as int, 4 * self.block()) as usize,
            block_size: self.block() as usize,
            prefetch_timeout: at_least(
                self.prefetch_timeout as int,
                MIN_PREFETCH_TIMEOUT as int,
            ) as u128,
            lookback_num: fraction.0,
            lookback_den: fraction.1,
        }
    }
}

impl Tuning {
    /// True iff the values are such as [`BufferedSourceBuilder::tuning`]
    /// returns.
    pub open spec fn is_clamped(self) -> bool {
        &&& MIN_BLOCK <= self.block_size
        &&& 4 * self.block_size <= self.capacity
        &&& MIN_PREFETCH_TIMEOUT <= self.prefetch_timeout
        &&& self.lookback_num < self.lookback_den
    }
}

/// Brings a lookback fraction into the range from 0 to below 1. One that lies
/// there stays as it is, so that doing it twice changes nothing.
pub fn sanitise_lookback(num: u32, den: u32) -> (r: (u32, u32))
    ensures
        r == sane_fraction(num, den),
        r.1 >= 1 && r.0 < r.1,
        num < den ==> r == (num, den),
        den == 0 ==> r == (0u32, 1u32),
        num >= den && den > 0 ==> r == ((den - 1) as u32, den),
        sane_fraction(r.0, r.1) == r,
{
    if den == 0 {
        return (0, 1);
    }
    if num >= den {
        return (den.saturating_sub(1), den);
    }
    (num, den)
}

impl View for BufferedSourceBuilder {
    type V = Settings;

    closed spec fn view(&self) -> Settings {
        Settings {
            capacity: self.capacity,
            block_size: self.block_size,
            prefetch_timeout: self.prefetch_timeout,
            lookback_num: self.lookback_num,
            lookback_den: self.lookback_den,
        }
    }
}

impl BufferedSourceBuilder {
    /// A builder with every value at its default.
    pub fn new() -> (r: Self)
        ensures
            r@ == (Settings {
                capacity: DEFAULT_CAPACITY,
                block_size: DEFAULT_BLOCK,
                prefetch_timeout: DEFAULT_PREFETCH_TIMEOUT,
                lookback_num: DEFAULT_LOOKBACK_NUM,
                lookback_den: DEFAULT_LOOKBACK_DEN,
            }),
    {
        BufferedSourceBuilder {
            capacity: DEFAULT_CAPACITY,
            block_size: DEFAULT_BLOCK,
            prefetch_timeout: DEFAULT_PREFETCH_TIMEOUT,
            lookback_num: DEFAULT_LOOKBACK_NUM,
            lookback_den: DEFAULT_LOOKBACK_DEN,
        }
    }

    /// Sets the capacity of the ring, in bytes.
    pub fn capacity(self, bytes: usize) -> (r: Self)
        ensures
            r@ == (Settings { capacity: bytes, ..self@ }),
    {
        let mut b = self;
        b.capacity = bytes;
        b
    }

    /// Sets how many bytes the worker reads at a time.
    pub fn block_size(self, bytes: usize) -> (r: Self)
        ensures
            r@ == (Settings { block_size: bytes, ..self@ }),
    {
        let mut b = self;
        b.block_size = bytes;
        b
    }

    /// Sets how long a read waits for the worker, in nanoseconds.
    pub fn prefetch_timeout(self, nanos: u128) -> (r: Self)
        ensures
            r@ == (Settings { prefetch_timeout: nanos, ..self@ }),
    {
        let mut b = self;
        b.prefetch_timeout = nanos;
        b
    }

    /// Sets the part of the ring kept behind the reader.
    pub fn lookback_fraction(self, num: u32, den: u32) -> (r: Self)
        ensures
            r@ == (Settings { lookback_num: num, lookback_den: den, ..self@ }),
    {
        let mut b = self;
        b.lookback_num = num;
        b.lookback_den = den;
        b
    }

    /// The tunables in force, after clamping. Four blocks have to fit in a
    /// `usize`.
    pub fn tuning(&self) -> (r: Tuning)
        requires
            4 * self@.block() <= usize::MAX,
        ensures
            r == self@.tuning(),
            r.is_clamped(),
    {
        let block_size: usize = if self.block_size < MIN_BLOCK {
            MIN_BLOCK
        } else {
            self.block_size
        };
        let capacity: usize = if self.capacity < 4 * block_size {
            4 * block_size
        } else {
            self.capacity
        };
        let prefetch_timeout: u128 = if self.prefetch_timeout < MIN_PREFETCH_TIMEOUT {
            MIN_PREFETCH_TIMEOUT
        } else {
            self.prefetch_timeout
        };
        let (lookback_num, lookback_den) = sanitise_lookback(
            self.lookback_num,
            self.lookback_den,
        );
        Tuning { capacity, block_size, prefetch_timeout, lookback_num, lookback_den }
    }

    /// Probes the inner stream, puts its cursor back, and sets up the ring
    /// and the reader at that position.
    pub fn build<S: BytesSource + ?Sized>(self, inner: &mut S) -> (r: Result<
        (RingState, Reader),
        IoError,
    >)
        requires
            4 * self@.block() <= usize::MAX,
        ensures
            r matches Ok(made) ==> {
                &&& made.0@.is_set_up(self@.tuning(), made.1.pos())
                &&& made.0@.valid()
                &&& made.1.timeout() == self@.tuning().prefetch_timeout
            },
            old(inner).is_steady() ==> {
                &&& stream::same_stream(final(inner), old(inner))
                &&& final(inner).pos() == old(inner).pos()
                &&& match stream::content(old(inner)).length_fault(old(inner).pos()) {
                    Some(v) => r matches Err(e) && e@ == v,
                    None => {
                        &&& r matches Ok(made)
                        &&& made.1.pos() == old(inner).pos()
                        &&& made.0@.total == Some(old(inner).bytes().len() as u64)
                        &&& representable_len(old(inner).bytes())
                    },
                }
            },
    {
        let tuning = self.tuning();
        let pos = inner.stream_position()?;
        let end = inner.seek(SeekFrom::End(0))?;
        inner.seek(SeekFrom::Start(pos))?;
        proof {
            lemma_rear_below_capacity(tuning.capacity, tuning.lookback_num, tuning.lookback_den);
        }
        let ring = RingState {
            buf: VecDeque::with_capacity(tuning.capacity),
            ring_start: pos,
            capacity: tuning.capacity,
            block_size: tuning.block_size,
            lookback_num: tuning.lookback_num,
            lookback_den: tuning.lookback_den,
            total_len: Some(end),
            eof: end == pos,
            err: None,
            worker_dead: false,
            target_pos: None,
            stop: false,
        };
        Ok((ring, Reader { pos, prefetch_timeout: tuning.prefetch_timeout }))
    }
}

/// True iff the length of `data` can be told in a `u64`.
pub open spec fn representable_len(data: Seq<u8>) -> bool {
    stream::representable(data.len() as int)
}

impl Default for BufferedSourceBuilder {
    fn default() -> (r: Self)
        ensures
            r@ == (Settings {
                capacity: DEFAULT_CAPACITY,
                block_size: DEFAULT_BLOCK,
                prefetch_timeout: DEFAULT_PREFETCH_TIMEOUT,
                lookback_num: DEFAULT_LOOKBACK_NUM,
                lookback_den: DEFAULT_LOOKBACK_DEN,
            }),
    {
        BufferedSourceBuilder::new()
    }
}

/// The state that reader and worker share.
pub struct RingState {
    buf: VecDeque<u8>,
    ring_start: u64,
    capacity: usize,
    block_size: usize,
    lookback_num: u32,
    lookback_den: u32,
    total_len: Option<u64>,
    eof: bool,
    err: Option<IoError>,
    worker_dead: bool,
    target_pos: Option<u64>,
    stop: bool,
}

/// The content of a [`RingState`].
pub ghost struct Ring {
    /// The prefetched bytes, oldest first.
    pub buf: Seq<u8>,
    /// The position of the first prefetched byte in the inner stream.
    pub start: int,
    /// How many bytes the ring may hold.
    pub capacity: nat,
    /// How many bytes the worker reads at a time.
    pub block: nat,
    /// How many bytes stay behind the reader.
    pub rear: nat,
    /// The length of the inner stream, if known.
    pub total: Option<u64>,
    /// True iff nothing follows the last prefetched byte.
    pub eof: bool,
    /// What the worker failed with.
    pub err: Option<IoErrorView>,
    /// True iff the worker has given up.
    pub dead: bool,
    /// Where the reader wants the worker to go.
    pub target: Option<u64>,
    /// True iff the reader is gone.
    pub stop: bool,
}

/// What the worker is to do next.
#[derive(Clone, Copy, Debug, PartialEq, Eq, Structural)]
pub enum WorkerAction {
    /// Return.
    Exit,
    /// Wake the reader, then seek the inner stream to this position.
    Reposition(u64),
    /// Sleep until the reader makes room, seeks or goes.
    Park,
    /// Read at most this many bytes from the inner stream.
    Fill(usize),
}

/// What the worker is to do after it handed in what a read gave.
#[derive(Clone, Copy, Debug, PartialEq, Eq, Structural)]
pub struct DepositVerdict {
    /// The reader is to be woken.
    pub wake_reader: bool,
    /// The worker is to return.
    pub exit: bool,
}

/// How far a read got.
#[derive(Clone, Debug)]
pub enum ReadStep {
    /// The read is over with this many bytes.
    Ready { n: usize, wake_worker: bool },
    /// The read failed.
    Failed(IoError),
    /// The read has to wait for the worker.
    Wait { wake_worker: bool },
}

/// The content of a [`ReadStep`], with the bytes that were handed over.
pub ghost enum ReadOutcome {
    Ready { bytes: Seq<u8>, wake_worker: bool },
    Failed(IoErrorView),
    Wait { wake_worker: bool },
}

/// Where a seek of the reader went.
#[derive(Clone, Copy, Debug, PartialEq, Eq, Structural)]
pub struct SeekStep {
    /// The new position.
    pub pos: u64,
    /// Worker and reader are to be woken: the ring was reset.
    pub wake_all: bool,
}

/// How many bytes of a ring of `capacity` stay behind the reader.
pub open spec fn rear_of(capacity: int, num: int, den: int) -> int {
    let product = if capacity * num > u64::MAX {
        u64::MAX as int
    } else {
        capacity * num
    };
    if den == 0 {
        0
    } else {
        product / den
    }
}

/// True iff a position is at or past a known end.
pub open spec fn past(total: Option<u64>, pos: int) -> bool {
    total matches Some(end) && pos >= end
}

impl Ring {
    /// The position behind the last prefetched byte.
    pub open spec fn tail(self) -> int {
        self.start + self.buf.len()
    }

    /// What holds of every ring.
    pub open spec fn valid(self) -> bool {
        &&& 0 <= self.start
        &&& self.tail() <= u64::MAX
        &&& self.buf.len() <= self.capacity
        &&& self.capacity <= usize::MAX
        &&& self.rear < self.capacity
        &&& 0 < self.block <= usize::MAX
        &&& self.err is Some <==> self.dead
    }

    /// A ring as it is before anything was prefetched.
    pub open spec fn is_set_up(self, tuning: Tuning, pos: int) -> bool {
        &&& self.buf.len() == 0
        &&& self.start == pos
        &&& self.capacity == tuning.capacity
        &&& self.block == tuning.block_size
        &&& self.rear == rear_of(
            tuning.capacity as int,
            tuning.lookback_num as int,
            tuning.lookback_den as int,
        )
        &&& self.total is Some
        &&& self.eof == (self.total == Some(pos as u64))
        &&& self.err is None
        &&& !self.dead
        &&& self.target is None
        &&& !self.stop
    }

    /// True iff what the worker has read is of no use any more.
    pub open spec fn discards(self) -> bool {
        self.target is Some || self.stop
    }

    /// True iff the worker may hand in `n` bytes.
    pub open spec fn accepts(self, n: int) -> bool {
        self.discards() || (self.buf.len() + n <= self.capacity && self.tail() + n <= u64::MAX)
    }

    /// An empty ring at another position.
    pub open spec fn emptied_at(self, pos: u64) -> Ring {
        Ring {
            buf: Seq::empty(),
            start: pos as int,
            eof: past(self.total, pos as int),
            ..self
        }
    }

    /// The ring without its first `n` bytes.
    pub open spec fn without(self, n: int) -> Ring {
        Ring { buf: self.buf.skip(n), start: self.start + n, ..self }
    }

    /// What the worker does next, and the ring when it sets out.
    pub open spec fn worker_next(self) -> (WorkerAction, Ring) {
        if self.stop {
            (WorkerAction::Exit, self)
        } else if let Some(t) = self.target {
            (WorkerAction::Reposition(t), Ring { target: None, err: None, ..self.emptied_at(t) })
        } else if self.eof || self.buf.len() == self.capacity {
            (WorkerAction::Park, self)
        } else {
            let free = self.capacity - self.buf.len();
            let n = if free <= self.block {
                free
            } else {
                self.block as int
            };
            (WorkerAction::Fill(n as usize), self)
        }
    }

    /// The ring once the worker has given up. It keeps what it needs to tell the
    /// failure again.
    pub open spec fn failed(self, e: IoErrorView) -> Ring {
        Ring { err: Some(e.retold()), dead: true, ..self }
    }

    /// What becomes of what a read of the inner stream gave.
    pub open spec fn deposited(self, got: Result<Seq<u8>, IoErrorView>) -> (DepositVerdict, Ring) {
        if self.discards() {
            (DepositVerdict { wake_reader: false, exit: false }, self)
        } else {
            match got {
                Ok(bytes) => {
                    let ring = if bytes.len() == 0 {
                        Ring { eof: true, ..self }
                    } else {
                        Ring { buf: self.buf + bytes, ..self }
                    };
                    (DepositVerdict { wake_reader: true, exit: false }, ring)
                },
                Err(e) => if e.kind == ErrorKind::Interrupted {
                    (DepositVerdict { wake_reader: false, exit: false }, self)
                } else {
                    (DepositVerdict { wake_reader: true, exit: true }, self.failed(e))
                },
            }
        }
    }

    /// How a read at `pos` with room for `room` bytes goes, and the ring
    /// after it.
    pub open spec fn read(self, pos: int, room: nat) -> (ReadOutcome, Ring) {
        let rel = pos - self.start;
        if room == 0 {
            (ReadOutcome::Ready { bytes: Seq::empty(), wake_worker: false }, self)
        } else if rel < 0 {
            (
                ReadOutcome::Failed(
                    IoErrorView {
                        kind: ErrorKind::InvalidInput,
                        message: "BufferedSource: reader behind ring start"@,
                        code: None,
                    },
                ),
                self,
            )
        } else if rel < self.buf.len() {
            let n = if self.buf.len() - rel <= room {
                self.buf.len() - rel
            } else {
                room as int
            };
            let spent = rel + n - self.rear;
            (
                ReadOutcome::Ready {
                    bytes: self.buf.subrange(rel, rel + n),
                    wake_worker: spent > 0,
                },
                if spent > 0 {
                    self.without(spent)
                } else {
                    self
                },
            )
        } else if let Some(e) = self.err {
            (ReadOutcome::Failed(e), self)
        } else if self.eof || past(self.total, pos) {
            (ReadOutcome::Ready { bytes: Seq::empty(), wake_worker: false }, self)
        } else if self.buf.len() == self.capacity {
            (
                ReadOutcome::Wait { wake_worker: true },
                self.without(self.buf.len() - self.rear),
            )
        } else {
            (ReadOutcome::Wait { wake_worker: false }, self)
        }
    }

    /// Where a seek of a reader at `pos` goes.
    pub open spec fn seek_goal(self, pos: int, from: SeekFrom) -> Result<int, IoErrorView> {
        let (base, d) = match from {
            SeekFrom::Start(n) => (n as int, 0),
            SeekFrom::Current(d) => (pos, d as int),
            SeekFrom::End(d) => (if let Some(end) = self.total { end as int } else { 0 }, d as int),
        };
        if from is End && self.total is None {
            Err(
                IoErrorView {
                    kind: ErrorKind::Unsupported,
                    message: "stream length unknown"@,
                    code: None,
                },
            )
        } else if base + d > u64::MAX {
            Err(
                IoErrorView {
                    kind: ErrorKind::InvalidInput,
                    message: "seek overflow"@,
                    code: None,
                },
            )
        } else if base + d < 0 {
            Err(
                IoErrorView {
                    kind: ErrorKind::InvalidInput,
                    message: "seek before start"@,
                    code: None,
                },
            )
        } else {
            Ok(base + d)
        }
    }

    /// The ring after a seek to `goal`: as it was where the goal lies in it or
    /// right behind it, else empty and with the worker sent to the goal.
    pub open spec fn sought(self, goal: int) -> Ring {
        if self.start <= goal <= self.tail() {
            self
        } else {
            Ring {
                target: Some(goal as u64),
                err: if self.dead {
                    self.err
                } else {
                    None
                },
                ..self.emptied_at(goal as u64)
            }
        }
    }
}

/// A fraction brought into range lies from 0 to below 1, one that lies there
/// stays as it is, and so bringing it into range twice changes nothing.
pub proof fn lemma_sane_fraction_is_a_fixed_point(num: u32, den: u32)
    ensures
        ({
            let (n, d) = sane_fraction(num, den);
            &&& n < d
            &&& num < den ==> (n, d) == (num, den)
            &&& den == 0 ==> (n, d) == (0u32, 1u32)
            &&& num >= den && den > 0 ==> n == den - 1 && d == den
            &&& sane_fraction(n, d) == (n, d)
        }),
{
}

/// The part of the ring that stays behind the reader is smaller than the
/// ring, so that a full ring can always be drained by a byte or more.
pub proof fn lemma_rear_below_capacity(capacity: usize, num: u32, den: u32)
    requires
        num < den,
        capacity > 0,
    ensures
        0 <= rear_of(capacity as int, num as int, den as int) < capacity,
{
    let c = capacity as int;
    let n = num as int;
    let d = den as int;
    let product = if c * n > u64::MAX {
        u64::MAX as int
    } else {
        c * n
    };
    assert(0 <= c * n < c * d) by (nonlinear_arith)
        requires
            c > 0,
            0 <= n < d,
    ;
    assert(0 <= product / d < c) by (nonlinear_arith)
        requires
            0 <= product < c * d,
            d > 0,
            c > 0,
    ;
}

impl View for RingState {
    type V = Ring;

    closed spec fn view(&self) -> Ring {
        Ring {
            buf: self.buf@,
            start: self.ring_start as int,
            capacity: self.capacity as nat,
            block: self.block_size as nat,
            rear: rear_of(
                self.capacity as int,
                self.lookback_num as int,
                self.lookback_den as int,
            ) as nat,
            total: self.total_len,
            eof: self.eof,
            err: match self.err {
                Some(e) => Some(e@),
                None => None,
            },
            dead: self.worker_dead,
            target: self.target_pos,
            stop: self.stop,
        }
    }
}

impl RingState {
    /// How many bytes stay behind the reader.
    fn rear(&self) -> (r: usize)
        requires
            self@.valid(),
        ensures
            r == self@.rear,
    {
        let product: u64 = match (self.capacity as u64).checked_mul(self.lookback_num as u64) {
            Some(p) => p,
            None => u64::MAX,
        };
        proof {
            let c = self.capacity as int;
            let n = self.lookback_num as int;
            assert(0 <= c * n) by (nonlinear_arith)
                requires
                    0 <= c,
                    0 <= n,
            ;
        }
        if self.lookback_den == 0 {
            0
        } else {
            let r: u64 = product / self.lookback_den as u64;
            assert(r == self@.rear);
            r as usize
        }
    }

    /// Drops the first `n` bytes.
    fn drop_front(&mut self, n: usize)
        requires
            old(self)@.valid(),
            n <= old(self)@.buf.len(),
        ensures
            final(self)@ == old(self)@.without(n as int),
            final(self)@.valid(),
    {
        let mut i: usize = 0;
        assert(old(self)@.buf.skip(0) =~= old(self)@.buf);
        while i < n
            invariant
                i <= n,
                n <= old(self)@.buf.len(),
                self@ == (Ring { buf: old(self)@.buf.skip(i as int), ..old(self)@ }),
            decreases n - i,
        {
            self.buf.pop_front();
            i = i + 1;
            assert(self@.buf =~= old(self)@.buf.skip(i as int));
        }
        self.ring_start = self.ring_start + n as u64;
    }

    /// Empties the ring at a new position.
    fn empty_at(&mut self, pos: u64)
        ensures
            final(self)@ == old(self)@.emptied_at(pos),
    {
        self.buf.clear();
        self.ring_start = pos;
        self.eof = self.is_past(pos);
    }

    /// True iff `pos` is at or past a known end.
    fn is_past(&self, pos: u64) -> (r: bool)
        ensures
            r == past(self@.total, pos as int),
    {
        match self.total_len {
            Some(end) => pos >= end,
            None => false,
        }
    }

    /// The length of the inner stream, if known.
    pub fn len(&self) -> (r: Option<u64>)
        ensures
            r == self@.total,
    {
        self.total_len
    }

    /// True iff the inner stream is known to be empty.
    pub fn is_empty(&self) -> (r: bool)
        ensures
            r == (self@.total == Some(0u64)),
    {
        match self.total_len {
            Some(end) => end == 0,
            None => false,
        }
    }

    /// True iff the worker has given up.
    pub fn has_failed(&self) -> (r: bool)
        ensures
            r == self@.dead,
    {
        self.worker_dead
    }

    /// Tells the worker that the reader is gone.
    pub fn shut_down(&mut self)
        ensures
            final(self)@ == (Ring { stop: true, ..old(self)@ }),
            old(self)@.valid() ==> final(self)@.valid(),
    {
        self.stop = true;
    }

    /// Decides what the worker does next. A request to move is taken over
    /// here: the ring is emptied at the new position.
    pub fn worker_next(&mut self) -> (r: WorkerAction)
        requires
            old(self)@.valid(),
            !old(self)@.dead,
        ensures
            (r, final(self)@) == old(self)@.worker_next(),
            final(self)@.valid(),
            r matches WorkerAction::Fill(n) ==> n > 0 && final(self)@.buf.len() + n
                <= final(self)@.capacity,
    {
        if self.stop {
            return WorkerAction::Exit;
        }
        match self.target_pos {
            Some(t) => {
                self.target_pos = None;
                self.empty_at(t);
                self.err = None;
                WorkerAction::Reposition(t)
            },
            None => {
                if self.eof {
                    return WorkerAction::Park;
                }
                let free: usize = self.capacity - self.buf.len();
                if free == 0 {
                    return WorkerAction::Park;
                }
                let n: usize = if free <= self.block_size {
                    free
                } else {
                    self.block_size
                };
                WorkerAction::Fill(n)
            },
        }
    }

    /// Records that the inner stream could not be moved. The worker returns.
    pub fn reposition_failed(&mut self, e: IoError)
        requires
            old(self)@.valid(),
        ensures
            final(self)@ == old(self)@.failed(e@),
            final(self)@.valid(),
    {
        self.err = Some(IoError::new(e.kind, e.message));
        self.worker_dead = true;
    }

    /// True iff the worker may hand in `n` bytes.
    pub fn accepts(&self, n: usize) -> (r: bool)
        requires
            self@.valid(),
        ensures
            r == self@.accepts(n as int),
    {
        let len = self.buf.len();
        self.target_pos.is_some() || self.stop || (n <= self.capacity - len && n as u64 <= u64::MAX
            - (self.ring_start + len as u64))
    }

    /// Takes in what a read of the inner stream gave: the first bytes of
    /// `scratch`, the end of the stream, or a failure.
    pub fn deposit(&mut self, got: Result<usize, IoError>, scratch: &[u8]) -> (r: DepositVerdict)
        requires
            old(self)@.valid(),
            !old(self)@.dead,
            got matches Ok(n) ==> n <= scratch@.len() && old(self)@.accepts(n as int),
        ensures
            (r, final(self)@) == old(self)@.deposited(
                match got {
                    Ok(n) => Ok(scratch@.take(n as int)),
                    Err(e) => Err(e@),
                },
            ),
            final(self)@.valid(),
    {
        if self.target_pos.is_some() || self.stop {
            return DepositVerdict { wake_reader: false, exit: false };
        }
        match got {
            Ok(n) => {
                if n == 0 {
                    self.eof = true;
                } else {
                    let mut i: usize = 0;
                    while i < n
                        invariant
                            i <= n,
                            n <= scratch@.len(),
                            self@ == (Ring {
                                buf: old(self)@.buf + scratch@.take(i as int),
                                ..old(self)@
                            }),
                        decreases n - i,
                    {
                        self.buf.push_back(scratch[i]);
                        i = i + 1;
                        assert(self@.buf =~= old(self)@.buf + scratch@.take(i as int));
                    }
                }
                DepositVerdict { wake_reader: true, exit: false }
            },
            Err(e) => {
                if e.kind == ErrorKind::Interrupted {
                    DepositVerdict { wake_reader: false, exit: false }
                } else {
                    self.err = Some(IoError::new(e.kind, e.message));
                    self.worker_dead = true;
                    DepositVerdict { wake_reader: true, exit: true }
                }
            },
        }
    }

    /// Copies `n` bytes of the ring, from `rel` on.
    fn copy_out(&self, rel: usize, n: usize, out: &mut [u8])
        requires
            rel + n <= self@.buf.len(),
            n <= old(out)@.len(),
            self@.valid(),
        ensures
            final(out)@ == self@.buf.subrange(rel as int, rel + n) + old(out)@.skip(n as int),
    {
        let mut i: usize = 0;
        while i < n
            invariant
                i <= n,
                rel + n <= self@.buf.len(),
                self@.valid(),
                n <= out@.len(),
                out@.len() == old(out)@.len(),
                forall|j: int| 0 <= j < i ==> out@[j] == self@.buf[rel + j],
                forall|j: int| i <= j < out@.len() ==> out@[j] == old(out)@[j],
            decreases n - i,
        {
            out[i] = self.buf[rel + i];
            i = i + 1;
        }
        assert(out@ =~= self@.buf.subrange(rel as int, rel + n) + old(out)@.skip(n as int));
    }
}

/// The reader's side: where it stands and how long it waits.
pub struct Reader {
    pos: u64,
    prefetch_timeout: u128,
}

/// True iff a step reports an outcome.
pub open spec fn step_reports(r: ReadStep, o: ReadOutcome) -> bool {
    match (r, o) {
        (ReadStep::Ready { n, wake_worker }, ReadOutcome::Ready { bytes, wake_worker: wake }) => {
            n == bytes.len() && wake_worker == wake
        },
        (ReadStep::Failed(e), ReadOutcome::Failed(v)) => e@ == v,
        (ReadStep::Wait { wake_worker }, ReadOutcome::Wait { wake_worker: wake }) => wake_worker
            == wake,
        _ => false,
    }
}

/// The bytes that an outcome hands over.
pub open spec fn handed_over(o: ReadOutcome) -> Seq<u8> {
    match o {
        ReadOutcome::Ready { bytes, wake_worker } => bytes,
        _ => Seq::empty(),
    }
}

/// What a read that waited in vain for `nanos` fails with.
pub open spec fn timeout_error(nanos: u128) -> IoErrorView {
    IoErrorView {
        kind: ErrorKind::TimedOut,
        message: "BufferedSource: prefetch timeout ("@ + text::letters(
            text::decimal((nanos / 1_000_000) as nat),
        ) + " ms)"@,
        code: None,
    }
}

impl Reader {
    /// The reader's position in the inner stream.
    pub closed spec fn pos(&self) -> int {
        self.pos as int
    }

    /// How long a read waits, in nanoseconds.
    pub closed spec fn timeout(&self) -> u128 {
        self.prefetch_timeout
    }

    /// The reader's position in the inner stream.
    pub fn position(&self) -> (r: u64)
        ensures
            r == self.pos(),
    {
        self.pos
    }

    /// How long a read waits for the worker, in nanoseconds.
    pub fn prefetch_timeout(&self) -> (r: u128)
        ensures
            r == self.timeout(),
    {
        self.prefetch_timeout
    }

    /// One look at the ring on behalf of a read: it ends the read, or says
    /// that the read has to wait.
    pub fn read(&mut self, ring: &mut RingState, out: &mut [u8]) -> (r: ReadStep)
        requires
            old(ring)@.valid(),
        ensures
            ({
                let (outcome, after) = old(ring)@.read(old(self).pos(), old(out)@.len());
                let bytes = handed_over(outcome);
                &&& step_reports(r, outcome)
                &&& final(ring)@ == after
                &&& bytes.len() <= old(out)@.len()
                &&& final(out)@ == bytes + old(out)@.skip(bytes.len() as int)
                &&& final(self).pos() == old(self).pos() + bytes.len()
            }),
            final(ring)@.valid(),
            final(self).timeout() == old(self).timeout(),
    {
        proof {
            assert(Seq::<u8>::empty() + old(out)@.skip(0) =~= old(out)@);
        }
        if out.len() == 0 {
            return ReadStep::Ready { n: 0, wake_worker: false };
        }
        if self.pos < ring.ring_start {
            return ReadStep::Failed(
                IoError::new(
                    ErrorKind::InvalidInput,
                    "BufferedSource: reader behind ring start".to_owned(),
                ),
            );
        }
        let rel: u64 = self.pos - ring.ring_start;
        let held: usize = ring.buf.len();
        if rel < held as u64 {
            let at = rel as usize;
            let n: usize = if held - at <= out.len() {
                held - at
            } else {
                out.len()
            };
            ring.copy_out(at, n, out);
            self.pos = self.pos + n as u64;
            let rear = ring.rear();
            if at + n > rear {
                ring.drop_front(at + n - rear);
                return ReadStep::Ready { n, wake_worker: true };
            }
            return ReadStep::Ready { n, wake_worker: false };
        }
        match &ring.err {
            Some(e) => {
                return ReadStep::Failed(e.duplicate());
            },
            None => {},
        }
        if ring.eof || ring.is_past(self.pos) {
            return ReadStep::Ready { n: 0, wake_worker: false };
        }
        if held == ring.capacity {
            let rear = ring.rear();
            ring.drop_front(held - rear);
            return ReadStep::Wait { wake_worker: true };
        }
        ReadStep::Wait { wake_worker: false }
    }

    /// What a read that waited its full time fails with, unless the worker
    /// has meanwhile failed or met the end, which the next look shows.
    pub fn timed_out(&self, ring: &RingState) -> (r: Option<IoError>)
        ensures
            match r {
                Some(e) => ring@.err is None && !ring@.eof && e@ == timeout_error(self.timeout()),
                None => ring@.err is Some || ring@.eof,
            },
    {
        if ring.err.is_none() && !ring.eof {
            let mut m = "BufferedSource: prefetch timeout (".to_owned();
            let millis = text::decimal_string(self.prefetch_timeout / 1_000_000);
            m.append(millis.as_str());
            m.append(" ms)");
            Some(IoError::new(ErrorKind::TimedOut, m))
        } else {
            None
        }
    }

    /// Moves the reader. Inside the ring that is all; elsewhere the ring is
    /// emptied and the worker sent to the new position.
    pub fn seek(&mut self, ring: &mut RingState, from: SeekFrom) -> (r: Result<SeekStep, IoError>)
        requires
            old(ring)@.valid(),
        ensures
            match old(ring)@.seek_goal(old(self).pos(), from) {
                Ok(goal) => {
                    &&& r matches Ok(s)
                    &&& s.pos == goal
                    &&& s.wake_all == !(old(ring)@.start <= goal <= old(ring)@.tail())
                    &&& final(self).pos() == goal
                    &&& final(ring)@ == old(ring)@.sought(goal)
                },
                Err(v) => {
                    &&& r matches Err(e)
                    &&& e@ == v
                    &&& final(self).pos() == old(self).pos()
                    &&& final(ring)@ == old(ring)@
                },
            },
            final(ring)@.valid(),
            final(self).timeout() == old(self).timeout(),
    {
        let goal: u64 = match from {
            SeekFrom::Start(n) => n,
            SeekFrom::Current(d) => add_signed(self.pos, d)?,
            SeekFrom::End(d) => match ring.total_len {
                Some(end) => add_signed(end, d)?,
                None => {
                    return Err(
                        IoError::new(ErrorKind::Unsupported, "stream length unknown".to_owned()),
                    );
                },
            },
        };
        let end: u64 = ring.ring_start + ring.buf.len() as u64;
        if goal >= ring.ring_start && goal <= end {
            self.pos = goal;
            return Ok(SeekStep { pos: goal, wake_all: false });
        }
        ring.target_pos = Some(goal);
        ring.empty_at(goal);
        if !ring.worker_dead {
            ring.err = None;
        }
        self.pos = goal;
        Ok(SeekStep { pos: goal, wake_all: true })
    }
}

/// The position `delta` away from `base`.
fn add_signed(base: u64, delta: i64) -> (r: Result<u64, IoError>)
    ensures
        match r {
            Ok(p) => p == base + delta,
            Err(e) => if delta >= 0 {
                base + delta > u64::MAX && e@ == (IoErrorView {
                    kind: ErrorKind::InvalidInput,
                    message: "seek overflow"@,
                    code: None,
                })
            } else {
                base + delta < 0 && e@ == (IoErrorView {
                    kind: ErrorKind::InvalidInput,
                    message: "seek before start"@,
                    code: None,
                })
            },
        },
{
    match base.checked_add_signed(delta) {
        Some(p) => Ok(p),
        None => if delta >= 0 {
            Err(IoError::new(ErrorKind::InvalidInput, "seek overflow".to_owned()))
        } else {
            Err(IoError::new(ErrorKind::InvalidInput, "seek before start".to_owned()))
        },
    }
}

} // verus!
