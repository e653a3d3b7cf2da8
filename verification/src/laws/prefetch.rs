//! Laws of prefetching: what worker and reader do to the ring, step by step.
use crate::buffered;
use crate::buffered::{DepositVerdict, ReadOutcome, ReadStep, Ring, Settings, Tuning, WorkerAction};
use crate::error::{ErrorKind, IoErrorView};
use crate::lockstep;
use crate::lockstep::Phase;
use crate::stream::SeekFrom;
use crate::text;
use vstd::prelude::*;

verus! {

/// True iff two rings agree in all but the bytes, where they start and whether
/// they end the stream.
pub open spec fn same_settings(a: Ring, b: Ring) -> bool {
    &&& a.capacity == b.capacity
    &&& a.block == b.block
    &&& a.rear == b.rear
    &&& a.total == b.total
    &&& a.stop == b.stop
}

/// True iff two rings hold the same bytes at the same place.
pub open spec fn same_bytes(a: Ring, b: Ring) -> bool {
    a.buf == b.buf && a.start == b.start && a.eof == b.eof
}

/// A failure of the inner stream that is not an interruption ends the worker
/// and is kept, by kind and message. What was prefetched stays, and so does
/// whether it ends the stream.
pub proof fn law_failures_are_kept(ring: Ring, e: IoErrorView)
    requires
        ring.target is None,
        !ring.stop,
        e.kind != ErrorKind::Interrupted,
    ensures
        ({
            let (verdict, after) = ring.deposited(Err(e));
            &&& verdict.exit && verdict.wake_reader
            &&& after.dead
            &&& (after.err matches Some(kept) && kept.kind == e.kind && kept.message == e.message
                && kept.code is None)
            &&& same_bytes(after, ring)
            &&& same_settings(after, ring)
            &&& after.target == ring.target
        }),
{
}

/// A worker that cannot move the inner stream gives up the same way.
pub proof fn law_failed_moves_are_kept(ring: Ring, e: IoErrorView)
    ensures
        ({
            let after = ring.failed(e);
            &&& after.dead
            &&& (after.err matches Some(kept) && kept.kind == e.kind && kept.message == e.message
                && kept.code is None)
            &&& same_bytes(after, ring)
            &&& same_settings(after, ring)
            &&& after.target == ring.target
        }),
{
}

/// Behind a failure the reader gets what was prefetched before it, and then the
/// failure, on that read and, the ring being as it was, on every later one.
pub proof fn law_readers_get_the_bytes_and_then_the_failure(
    ring: Ring,
    e: IoErrorView,
    pos: int,
    room: nat,
)
    requires
        ring.target is None,
        !ring.stop,
        e.kind != ErrorKind::Interrupted,
        ring.start <= pos,
        room > 0,
    ensures
        ({
            let after = ring.deposited(Err(e)).1;
            let (outcome, later) = after.read(pos, room);
            &&& pos < ring.tail() ==> {
                &&& outcome matches ReadOutcome::Ready { bytes, .. }
                &&& bytes.len() > 0
                &&& forall|i: int|
                    0 <= i < bytes.len() ==> #[trigger] bytes[i] == ring.buf[pos - ring.start + i]
            }
            &&& pos >= ring.tail() ==> {
                &&& outcome matches ReadOutcome::Failed(told)
                &&& told.kind == e.kind
                &&& told.message == e.message
                &&& later == after
            }
            &&& later.dead && later.err == after.err
        }),
{
}

/// Bytes of the inner stream go behind those that are there. The end is met
/// where a read gave none, and nowhere else.
pub proof fn law_bytes_are_appended(ring: Ring, got: Seq<u8>)
    requires
        ring.target is None,
        !ring.stop,
    ensures
        ({
            let (verdict, after) = ring.deposited(Ok(got));
            &&& verdict == (DepositVerdict { wake_reader: true, exit: false })
            &&& after.buf == ring.buf + got
            &&& after.start == ring.start
            &&& after.eof == (ring.eof || got.len() == 0)
            &&& same_settings(after, ring)
            &&& after.err == ring.err && after.dead == ring.dead && after.target == ring.target
        }),
{
    assert(ring.buf + Seq::<u8>::empty() =~= ring.buf);
    if got.len() == 0 {
        assert(got =~= Seq::<u8>::empty());
    }
}

/// What comes in after the reader went elsewhere, or was interrupted, changes
/// nothing.
pub proof fn law_late_results_are_dropped(ring: Ring, got: Result<Seq<u8>, IoErrorView>)
    requires
        ring.target is Some || ring.stop || (got matches Err(e) && e.kind
            == ErrorKind::Interrupted),
    ensures
        ring.deposited(got) == (DepositVerdict { wake_reader: false, exit: false }, ring),
{
}

/// Whatever a read of the inner stream gave, bytes or a failure, handing it in
/// keeps worker and reader in step. So the end is never met before the end of
/// the data.
pub proof fn law_every_result_keeps_step(
    ring: Ring,
    pos: int,
    asked: usize,
    cursor: int,
    data: Seq<u8>,
    got: Result<Seq<u8>, IoErrorView>,
)
    requires
        lockstep::in_step(ring, pos, Phase::Filling(asked), cursor, data),
        !ring.dead,
        got matches Ok(b) ==> {
            &&& b.len() <= asked
            &&& b.len() == 0 ==> cursor >= data.len()
            &&& b.len() > 0 ==> 0 <= cursor && cursor + b.len() <= data.len() && b
                == data.subrange(cursor, cursor + b.len())
        },
    ensures
        ({
            let after = ring.deposited(got).1;
            let moved = match got {
                Ok(b) => b.len() as int,
                Err(_) => 0,
            };
            &&& lockstep::in_step(after, pos, Phase::Idle, cursor + moved, data)
            &&& after.eof ==> after.tail() >= data.len()
            &&& after.buf.len() > 0 ==> after.buf == data.subrange(after.start, after.tail())
            &&& after.dead <==> (got matches Err(e) && e.kind != ErrorKind::Interrupted
                && ring.target is None && !ring.stop)
        }),
{
    if let Ok(b) = got {
        lockstep::lemma_deposit_keeps_step(ring, pos, asked, cursor, data, b);
    }
}

/// A read takes from what is prefetched as much as there is and fits. It keeps
/// the bytes behind the new position that the lookback covers and drops those
/// before, and wakes the worker where it dropped some.
pub proof fn law_reads_take_what_is_prefetched(ring: Ring, pos: int, room: nat)
    requires
        ring.start <= pos < ring.tail(),
        room > 0,
    ensures
        ({
            let left = ring.tail() - pos;
            let n = if left <= room {
                left
            } else {
                room as int
            };
            let keep = pos + n - ring.rear;
            let (outcome, after) = ring.read(pos, room);
            &&& (outcome matches ReadOutcome::Ready { bytes, wake_worker } && bytes.len() == n && (
            forall|i: int|
                0 <= i < n ==> #[trigger] bytes[i] == ring.buf[pos - ring.start + i])
                && wake_worker == (keep > ring.start))
            &&& after.start == if keep > ring.start {
                keep
            } else {
                ring.start
            }
            &&& ring.rear <= ring.capacity ==> after.tail() == ring.tail()
            &&& forall|q: int|
                after.start <= q < ring.tail() ==> #[trigger] after.buf[q - after.start]
                    == ring.buf[q - ring.start]
            &&& after.eof == ring.eof && after.err == ring.err && after.dead == ring.dead
            &&& after.target == ring.target
            &&& same_settings(after, ring)
        }),
{
}

/// A read that finds nothing prefetched tells a failure, or the end, or waits.
/// It waits on a full ring only after making room in it.
pub proof fn law_reads_that_find_nothing(ring: Ring, pos: int, room: nat)
    requires
        ring.tail() <= pos,
        room > 0,
    ensures
        ({
            let (outcome, after) = ring.read(pos, room);
            let ended = ring.eof || (ring.total matches Some(end) && pos >= end);
            &&& (ring.err matches Some(e) ==> outcome == ReadOutcome::Failed(e) && after == ring)
            &&& ring.err is None && ended ==> outcome == (ReadOutcome::Ready {
                bytes: Seq::empty(),
                wake_worker: false,
            }) && after == ring
            &&& ring.err is None && !ended ==> outcome == (ReadOutcome::Wait {
                wake_worker: ring.buf.len() == ring.capacity,
            })
            &&& ring.err is None && !ended && ring.buf.len() != ring.capacity ==> after == ring
            &&& ring.err is None && !ended && ring.buf.len() == ring.capacity && ring.rear
                <= ring.capacity ==> {
                &&& after.tail() == ring.tail()
                &&& after.buf.len() == ring.rear
                &&& after.buf == ring.buf.skip(ring.buf.len() - ring.rear)
                &&& after.eof == ring.eof && after.err == ring.err && after.dead == ring.dead
                &&& after.target == ring.target
                &&& same_settings(after, ring)
            }
        }),
{
}

/// A read without room is over at once, and one behind the ring is refused.
pub proof fn law_reads_without_room_or_ring(ring: Ring, pos: int, room: nat)
    ensures
        ring.read(pos, 0) == (
            ReadOutcome::Ready { bytes: Seq::empty(), wake_worker: false },
            ring,
        ),
        room > 0 && pos < ring.start ==> {
            let (outcome, after) = ring.read(pos, room);
            &&& (outcome matches ReadOutcome::Failed(e) && e.kind == ErrorKind::InvalidInput)
            &&& after == ring
        },
{
}

/// What a look at the ring reports is what came of it.
pub proof fn law_steps_report_their_outcome(r: ReadStep, o: ReadOutcome)
    requires
        buffered::step_reports(r, o),
    ensures
        match r {
            ReadStep::Ready { n, wake_worker } => o matches ReadOutcome::Ready {
                bytes,
                wake_worker: w,
            } && bytes.len() == n && w == wake_worker && buffered::handed_over(o) == bytes,
            ReadStep::Failed(e) => o matches ReadOutcome::Failed(v) && e@ == v
                && buffered::handed_over(o).len() == 0,
            ReadStep::Wait { wake_worker } => o matches ReadOutcome::Wait { wake_worker: w } && w
                == wake_worker && buffered::handed_over(o).len() == 0,
        },
{
}

/// The worker goes when it is told to; else it moves where the reader wants
/// it, with the ring empty there and earlier failures forgotten; else it rests
/// at the end and on a full ring; else it reads a block, or what fits.
pub proof fn law_workers_do_what_is_wanted(ring: Ring)
    requires
        ring.buf.len() <= ring.capacity <= usize::MAX,
        ring.block <= usize::MAX,
    ensures
        ({
            let (action, after) = ring.worker_next();
            let free = ring.capacity - ring.buf.len();
            &&& ring.stop ==> action is Exit && after == ring
            &&& (!ring.stop && ring.target is Some ==> {
                let t = ring.target->0;
                &&& action == WorkerAction::Reposition(t)
                &&& after.buf.len() == 0 && after.start == t
                &&& after.eof == (ring.total matches Some(end) && t >= end)
                &&& after.target is None && after.err is None && after.dead == ring.dead
                &&& same_settings(after, ring)
            })
            &&& !ring.stop && ring.target is None && (ring.eof || free == 0) ==> action is Park
                && after == ring
            &&& !ring.stop && ring.target is None && !ring.eof && free > 0 ==> after == ring
                && action == WorkerAction::Fill(
                (if free <= ring.block {
                    free
                } else {
                    ring.block as int
                }) as usize,
            )
        }),
{
}

/// A seek counts from the start, the reader or the end of the stream. It is
/// refused past the range of positions, before the start, and from an end that
/// is not known.
pub proof fn law_seeks_of_the_reader(ring: Ring, pos: int, n: u64, d: i64)
    ensures
        ring.seek_goal(pos, SeekFrom::Start(n)) == Ok::<_, IoErrorView>(n as int),
        match ring.seek_goal(pos, SeekFrom::Current(d)) {
            Ok(goal) => goal == pos + d && 0 <= goal <= u64::MAX,
            Err(e) => e.kind == ErrorKind::InvalidInput && !(0 <= pos + d <= u64::MAX),
        },
        match (ring.total, ring.seek_goal(pos, SeekFrom::End(d))) {
            (None, Err(e)) => e.kind == ErrorKind::Unsupported,
            (None, Ok(_)) => false,
            (Some(end), Ok(goal)) => goal == end + d && 0 <= goal <= u64::MAX,
            (Some(end), Err(e)) => e.kind == ErrorKind::InvalidInput && !(0 <= end + d
                <= u64::MAX),
        },
{
}

/// A seek into what is prefetched, or right behind it, leaves the ring alone.
/// Any other empties it at the goal and sends the worker there; a failure of a
/// worker that is gone is still told.
pub proof fn law_rings_after_a_seek(ring: Ring, goal: u64)
    ensures
        ({
            let after = ring.sought(goal as int);
            let inside = ring.start <= goal && goal <= ring.start + ring.buf.len();
            &&& inside ==> after == ring
            &&& !inside ==> {
                &&& after.buf.len() == 0
                &&& after.start == goal
                &&& after.target == Some(goal)
                &&& after.eof == (ring.total matches Some(end) && goal >= end)
                &&& after.dead == ring.dead
                &&& ring.dead ==> after.err == ring.err
                &&& !ring.dead ==> after.err is None
                &&& same_settings(after, ring)
            }
        }),
{
}

/// The tunables in force are those asked for, but for a block of 4096 bytes, a
/// ring of four blocks and a wait of a millisecond at the least, and a fraction
/// below one.
pub proof fn law_tunables_are_raised_to_their_least(s: Settings)
    requires
        4 * s.block() <= usize::MAX,
    ensures
        ({
            let t = s.tuning();
            &&& t.block_size == if s.block_size < 4096 {
                4096
            } else {
                s.block_size
            }
            &&& t.capacity == if s.capacity < 4 * t.block_size {
                (4 * t.block_size) as usize
            } else {
                s.capacity
            }
            &&& t.prefetch_timeout == if s.prefetch_timeout < 1_000_000 {
                1_000_000
            } else {
                s.prefetch_timeout
            }
            &&& s.lookback_num < s.lookback_den ==> t.lookback_num == s.lookback_num
                && t.lookback_den == s.lookback_den
            &&& s.lookback_den == 0 ==> t.lookback_num == 0 && t.lookback_den == 1
            &&& s.lookback_num >= s.lookback_den > 0 ==> t.lookback_num == s.lookback_den - 1
                && t.lookback_den == s.lookback_den
        }),
        s.block() == if s.block_size < 4096 {
            4096
        } else {
            s.block_size as int
        },
{
}

/// What stays behind the reader is that fraction of the ring, in whole bytes,
/// as long as the product can be told in 64 bits.
pub proof fn law_lookback_is_a_fraction_of_the_ring(capacity: int, num: int, den: int)
    requires
        capacity >= 0,
        num >= 0,
        den > 0,
        capacity * num <= u64::MAX,
    ensures
        ({
            let rear = buffered::rear_of(capacity, num, den);
            &&& 0 <= rear
            &&& rear * den <= capacity * num < (rear + 1) * den
        }),
{
    let product = capacity * num;
    assert(0 <= product) by (nonlinear_arith)
        requires
            capacity >= 0,
            num >= 0,
            product == capacity * num,
    ;
    let rear = product / den;
    assert(0 <= rear && rear * den <= product < (rear + 1) * den) by (nonlinear_arith)
        requires
            0 <= product,
            den > 0,
            rear == product / den,
    ;
}

/// A ring is set up empty, where the inner stream stands, with the length of
/// that known and the end met only if it stands there.
pub proof fn law_rings_are_set_up_empty(ring: Ring, tuning: Tuning, pos: int)
    requires
        ring.is_set_up(tuning, pos),
    ensures
        ring.buf.len() == 0,
        ring.start == pos,
        ring.capacity == tuning.capacity,
        ring.block == tuning.block_size,
        ring.rear == buffered::rear_of(
            tuning.capacity as int,
            tuning.lookback_num as int,
            tuning.lookback_den as int,
        ),
        ring.total matches Some(end) && (ring.eof <==> end == pos as u64),
        ring.err is None && !ring.dead,
        ring.target is None && !ring.stop,
{
}

/// A reader that waited in vain is told for how many milliseconds.
pub proof fn law_timeouts_are_told_in_milliseconds(nanos: u128, ms: u128)
    requires
        ms * 1_000_000 <= nanos < (ms + 1) * 1_000_000,
    ensures
        buffered::timeout_error(nanos) == (IoErrorView {
            kind: ErrorKind::TimedOut,
            message: "BufferedSource: prefetch timeout ("@ + text::letters(
                text::decimal(ms as nat),
            ) + " ms)"@,
            code: None,
        }),
{
    assert(nanos / 1_000_000 == ms);
}

} // verus!
