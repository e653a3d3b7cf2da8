//! Worker and reader in step: what holds however their steps interleave.
//!
//! The inner stream holds `data`, and the worker's cursor stands at `cursor`
//! in it. The worker is always in one of three phases; the reader may look at
//! the ring and seek in any of them. [`in_step`] is kept by every step of
//! either side, and it is what makes the reader see exactly the inner stream.
use crate::buffered::{DepositVerdict, ReadOutcome, Ring, Tuning, WorkerAction};
use crate::buffered;
use crate::error::{ErrorKind, IoErrorView};
use crate::stream;
use crate::stream::SeekFrom;
use vstd::prelude::*;

verus! {

/// What the worker is at while it does not hold the lock.
pub ghost enum Phase {
    /// It is about to decide what to do next, or sleeps.
    Idle,
    /// It moves the inner stream to this position.
    Seeking(u64),
    /// It reads at most this many bytes.
    Filling(usize),
}

/// What always holds between ring, reader, worker and inner stream.
pub open spec fn in_step(
    ring: Ring,
    pos: int,
    phase: Phase,
    cursor: int,
    data: Seq<u8>,
) -> bool {
    &&& ring.valid()
    &&& buffered::representable_len(data)
    &&& ring.total == Some(data.len() as u64)
    &&& ring.start <= pos <= ring.tail()
    &&& ring.buf.len() > 0 ==> ring.tail() <= data.len() && ring.buf == data.subrange(
        ring.start,
        ring.tail(),
    )
    &&& ring.eof ==> ring.tail() >= data.len()
    &&& (ring.target matches Some(t) ==> ring.buf.len() == 0 && ring.start == t)
    &&& (phase matches Phase::Filling(n) ==> n > 0)
    &&& !ring.dead && !ring.discards() ==> match phase {
        Phase::Idle => cursor == ring.tail(),
        Phase::Seeking(t) => ring.buf.len() == 0 && ring.start == t,
        Phase::Filling(n) => {
            &&& cursor == ring.tail()
            &&& ring.buf.len() + n <= ring.capacity
        },
    }
}

/// Worker and reader start out in step.
pub proof fn lemma_start_in_step(ring: Ring, tuning: Tuning, pos: int, data: Seq<u8>)
    requires
        ring.valid(),
        ring.is_set_up(tuning, pos),
        ring.total == Some(data.len() as u64),
        buffered::representable_len(data),
        pos <= u64::MAX,
    ensures
        in_step(ring, pos, Phase::Idle, pos, data),
{
}

/// The reader sees the inner stream: what a read hands over are the bytes
/// that stand at the reader's position; it hands over nothing only at the end
/// or where there is no room; it fails only with what the worker failed with;
/// and the reader never finds itself behind the ring.
pub proof fn lemma_reads_show_the_inner_stream(
    ring: Ring,
    pos: int,
    room: nat,
    phase: Phase,
    cursor: int,
    data: Seq<u8>,
)
    requires
        in_step(ring, pos, phase, cursor, data),
    ensures
        ({
            let (outcome, after) = ring.read(pos, room);
            let bytes = buffered::handed_over(outcome);
            &&& in_step(after, pos + bytes.len(), phase, cursor, data)
            &&& outcome is Ready ==> {
                &&& bytes.len() <= room
                &&& bytes.len() == 0 <==> room == 0 || pos >= data.len()
                &&& bytes.len() > 0 ==> pos + bytes.len() <= data.len() && bytes == data.subrange(
                    pos,
                    pos + bytes.len(),
                )
            }
            &&& (outcome matches ReadOutcome::Failed(e) ==> ring.dead && ring.err == Some(e))
            &&& outcome is Wait ==> room > 0 && pos < data.len() && !ring.dead
        }),
{
    let (outcome, after) = ring.read(pos, room);
    let bytes = buffered::handed_over(outcome);
    if after.buf.len() > 0 {
        assert(after.buf =~= data.subrange(after.start, after.tail()));
    }
    if bytes.len() > 0 {
        assert(bytes =~= data.subrange(pos, pos + bytes.len()));
    }
}

/// A reader that waits is fed: the worker is not asleep on a full ring or at
/// the end, but moves, reads or has been told to go.
pub proof fn lemma_waiting_reader_has_a_working_worker(ring: Ring, pos: int, room: nat)
    requires
        ring.valid(),
        ring.read(pos, room).0 is Wait,
    ensures
        !(ring.read(pos, room).1.worker_next().0 is Park),
{
}

/// A seek keeps worker and reader in step.
pub proof fn lemma_seek_keeps_step(
    ring: Ring,
    pos: int,
    from: SeekFrom,
    phase: Phase,
    cursor: int,
    data: Seq<u8>,
)
    requires
        in_step(ring, pos, phase, cursor, data),
    ensures
        ring.seek_goal(pos, from) matches Ok(goal) ==> in_step(
            ring.sought(goal),
            goal,
            phase,
            cursor,
            data,
        ),
{
}

/// A seek goes where the same seek would go in the inner stream, and is
/// refused where that one would be.
pub proof fn lemma_seek_agrees_with_the_inner_stream(
    ring: Ring,
    pos: int,
    from: SeekFrom,
    phase: Phase,
    cursor: int,
    data: Seq<u8>,
)
    requires
        in_step(ring, pos, phase, cursor, data),
    ensures
        ({
            let target = from.target(data.len() as int, pos);
            match ring.seek_goal(pos, from) {
                Ok(goal) => stream::representable(target) && goal == target,
                Err(e) => !stream::representable(target) && e.kind
                    == ErrorKind::InvalidInput,
            }
        }),
{
}

/// The worker's decision keeps worker and reader in step, and takes the
/// worker into the phase that it names.
pub proof fn lemma_decision_keeps_step(ring: Ring, pos: int, cursor: int, data: Seq<u8>)
    requires
        in_step(ring, pos, Phase::Idle, cursor, data),
        !ring.dead,
    ensures
        ({
            let (action, after) = ring.worker_next();
            match action {
                WorkerAction::Exit => ring.stop && after == ring,
                WorkerAction::Park => after == ring,
                WorkerAction::Reposition(t) => in_step(
                    after,
                    pos,
                    Phase::Seeking(t),
                    cursor,
                    data,
                ),
                WorkerAction::Fill(n) => in_step(after, pos, Phase::Filling(n), cursor, data),
            }
        }),
{
}

/// Once the inner stream has moved, the worker is ready for its next decision.
pub proof fn lemma_move_keeps_step(ring: Ring, pos: int, goal: u64, cursor: int, data: Seq<u8>)
    requires
        in_step(ring, pos, Phase::Seeking(goal), cursor, data),
    ensures
        in_step(ring, pos, Phase::Idle, goal as int, data),
{
}

/// What a read of the inner stream gave always has room in the ring, whatever
/// the reader did meanwhile, and taking it in keeps worker and reader in step.
pub proof fn lemma_deposit_keeps_step(
    ring: Ring,
    pos: int,
    asked: usize,
    cursor: int,
    data: Seq<u8>,
    got: Seq<u8>,
)
    requires
        in_step(ring, pos, Phase::Filling(asked), cursor, data),
        !ring.dead,
        got.len() <= asked,
        got.len() == 0 ==> cursor >= data.len(),
        got.len() > 0 ==> 0 <= cursor && cursor + got.len() <= data.len() && got == data.subrange(
            cursor,
            cursor + got.len(),
        ),
    ensures
        ring.accepts(got.len() as int),
        in_step(ring.deposited(Ok(got)).1, pos, Phase::Idle, cursor + got.len(), data),
        ring.deposited(Ok(got)).0 == (DepositVerdict {
            wake_reader: !ring.discards(),
            exit: false,
        }),
{
    let after = ring.deposited(Ok(got)).1;
    if after.buf.len() > 0 {
        assert(after.buf =~= data.subrange(after.start, after.tail()));
    }
}

/// Every fill feeds a waiting reader: once the worker has handed in what it
/// read, the reader has bytes to go on with.
pub proof fn lemma_fill_feeds_the_reader(
    ring: Ring,
    pos: int,
    room: nat,
    asked: usize,
    cursor: int,
    data: Seq<u8>,
    got: Seq<u8>,
)
    requires
        in_step(ring, pos, Phase::Filling(asked), cursor, data),
        !ring.discards(),
        ring.read(pos, room).0 is Wait,
        got.len() == 0 ==> cursor >= data.len(),
    ensures
        got.len() > 0,
        ring.deposited(Ok(got)).1.read(pos, room).0 is Ready,
        buffered::handed_over(ring.deposited(Ok(got)).1.read(pos, room).0).len() > 0,
{
    lemma_reads_show_the_inner_stream(
        ring,
        pos,
        room,
        Phase::Filling(asked),
        cursor,
        data,
    );
}

/// An interrupted read is tried again: nothing changes.
pub proof fn lemma_interruption_changes_nothing(ring: Ring, e: IoErrorView)
    requires
        e.kind == ErrorKind::Interrupted,
    ensures
        ring.deposited(Err(e)) == (DepositVerdict { wake_reader: false, exit: false }, ring),
{
}

/// A failure of the inner stream, in a read or a move, keeps worker and
/// reader in step: what was prefetched stays readable.
pub proof fn lemma_failure_keeps_step(
    ring: Ring,
    pos: int,
    phase: Phase,
    cursor: int,
    data: Seq<u8>,
    e: IoErrorView,
    cursor_after: int,
)
    requires
        in_step(ring, pos, phase, cursor, data),
        !ring.dead,
    ensures
        in_step(ring.failed(e), pos, Phase::Idle, cursor_after, data),
        ring.failed(e).buf == ring.buf,
{
}

/// A worker that has given up stays so, and its error is told again by every
/// read that finds nothing prefetched: neither reads nor seeks take it away.
pub proof fn lemma_failure_is_sticky(ring: Ring, pos: int, room: nat, from: SeekFrom)
    requires
        ring.valid(),
        ring.dead,
        ring.start <= pos,
        room > 0,
    ensures
        ring.read(pos, room).1.dead,
        ring.read(pos, room).1.err == ring.err,
        pos >= ring.tail() ==> ring.read(pos, room) == (
            ReadOutcome::Failed(ring.err->0),
            ring,
        ),
        ring.seek_goal(pos, from) matches Ok(goal) ==> {
            &&& ring.sought(goal).dead
            &&& ring.sought(goal).err == ring.err
        },
{
}

/// After a read, the reader can go back over the bytes that the lookback
/// covers, as far as the ring held them, without a move of the worker.
pub proof fn lemma_lookback_is_kept(ring: Ring, pos: int, room: nat, goal: int)
    requires
        ring.valid(),
        ring.start <= pos,
        ({
            let end = pos + buffered::handed_over(ring.read(pos, room).0).len();
            &&& ring.read(pos, room).0 is Ready
            &&& end - ring.rear <= goal <= end
            &&& ring.start <= goal <= ring.tail()
        }),
    ensures
        ring.read(pos, room).1.sought(goal) == ring.read(pos, room).1,
{
}

/// Shutting down keeps worker and reader in step, and ends the worker.
pub proof fn lemma_shut_down_ends_the_worker(
    ring: Ring,
    pos: int,
    phase: Phase,
    cursor: int,
    data: Seq<u8>,
)
    requires
        in_step(ring, pos, phase, cursor, data),
    ensures
        in_step(Ring { stop: true, ..ring }, pos, phase, cursor, data),
        (Ring { stop: true, ..ring }).worker_next().0 is Exit,
{
}

} // verus!
