//! Seekable byte streams.
use crate::error::{ErrorKind, IoError, IoErrorView};
use vstd::prelude::*;

verus! {

/// Where a seek goes, counted from the start, the end or the cursor.
#[derive(Clone, Copy, Debug, PartialEq, Eq, Structural)]
pub enum SeekFrom {
    Start(u64),
    End(i64),
    Current(i64),
}

impl SeekFrom {
    /// The position that the seek names in a stream of `len` bytes whose
    /// cursor stands at `pos`. It may lie outside the range of a `u64`.
    pub open spec fn target(self, len: int, pos: int) -> int {
        match self {
            SeekFrom::Start(n) => n as int,
            SeekFrom::End(d) => len + d,
            SeekFrom::Current(d) => pos + d,
        }
    }
}

/// True iff a position can be told in a `u64`.
pub open spec fn representable(p: int) -> bool {
    0 <= p <= u64::MAX
}

/// What a read does to a stream that holds `bytes` with its cursor at `pos`:
/// it hands over some of the bytes that come next, at least one where there
/// is one and room for it, leaves the rest of the buffer alone, and moves the
/// cursor past them.
pub open spec fn reads(
    bytes: Seq<u8>,
    pos: nat,
    before: Seq<u8>,
    n: usize,
    after: Seq<u8>,
    pos_after: nat,
) -> bool {
    &&& n <= before.len()
    &&& n == 0 <==> (before.len() == 0 || pos >= bytes.len())
    &&& n > 0 ==> pos + n <= bytes.len()
    &&& after == if n > 0 {
        bytes.subrange(pos as int, pos + n) + before.skip(n as int)
    } else {
        before
    }
    &&& pos_after == pos + n
}

/// What a seek does to a stream of `len` bytes with its cursor at `pos`: it
/// moves the cursor to the named position, past the end included, or refuses
/// a position that does not exist and leaves the cursor where it was.
pub open spec fn seeks(
    len: nat,
    pos: nat,
    from: SeekFrom,
    r: Result<u64, IoError>,
    pos_after: nat,
) -> bool {
    let target = from.target(len as int, pos as int);
    if representable(target) {
        r == Ok::<u64, IoError>(target as u64) && pos_after == target
    } else {
        &&& pos_after == pos
        &&& r matches Err(e)
        &&& e@.kind == ErrorKind::InvalidInput
    }
}

/// A seekable stream of bytes.
///
/// What a stream promises depends on what stands behind it. A stream that
/// `is_steady` holds fixed bytes and fails exactly where it says that it does;
/// everywhere else its reads and seeks are exact. Of any other stream nothing
/// is known but that a read reports no more bytes than it had room for.
pub trait BytesSource: Send {
    /// The bytes that the stream holds.
    open spec fn bytes(&self) -> Seq<u8> {
        Seq::empty()
    }

    /// The position of the cursor.
    open spec fn pos(&self) -> nat {
        0
    }

    /// True iff the stream holds fixed bytes and fails exactly where it says.
    /// A stream that does not say so makes no such promise.
    open spec fn is_steady(&self) -> bool {
        false
    }

    /// True iff a read takes all that is there and fits.
    open spec fn fills(&self) -> bool {
        false
    }

    /// What a read with room for a byte or more fails with at a position, if
    /// it does.
    open spec fn read_fault(&self, at: nat) -> Option<IoErrorView> {
        None
    }

    /// What a seek to a position fails with, if it does.
    open spec fn seek_fault(&self, to: nat) -> Option<IoErrorView> {
        None
    }

    /// Reads into `buf` and returns how many bytes were read; `0` stands for
    /// the end of the stream.
    fn read(&mut self, buf: &mut [u8]) -> (r: Result<usize, IoError>)
        ensures
            final(buf)@.len() == old(buf)@.len(),
            r matches Ok(n) ==> n <= old(buf)@.len(),
            old(self).is_steady() ==> {
                &&& final(self).is_steady()
                &&& final(self).bytes() == old(self).bytes()
                &&& final(self).fills() == old(self).fills()
                &&& forall|at: nat| #[trigger]
                    final(self).read_fault(at) == old(self).read_fault(at)
                &&& forall|to: nat| #[trigger]
                    final(self).seek_fault(to) == old(self).seek_fault(to)
                &&& if old(buf)@.len() > 0 && old(self).read_fault(old(self).pos()) is Some {
                    &&& r matches Err(e)
                    &&& Some(e@) == old(self).read_fault(old(self).pos())
                    &&& final(self).pos() == old(self).pos()
                } else {
                    &&& r matches Ok(n)
                    &&& reads(
                        old(self).bytes(),
                        old(self).pos(),
                        old(buf)@,
                        n,
                        final(buf)@,
                        final(self).pos(),
                    )
                    &&& old(self).fills() ==> n == old(buf)@.len() || old(self).pos() + n
                        >= old(self).bytes().len()
                }
            },
    ;

    /// Moves the cursor and returns its new position.
    fn seek(&mut self, from: SeekFrom) -> (r: Result<u64, IoError>)
        ensures
            old(self).is_steady() ==> {
                let target = from.target(old(self).bytes().len() as int, old(self).pos() as int);
                &&& final(self).is_steady()
                &&& final(self).bytes() == old(self).bytes()
                &&& final(self).fills() == old(self).fills()
                &&& forall|at: nat| #[trigger]
                    final(self).read_fault(at) == old(self).read_fault(at)
                &&& forall|to: nat| #[trigger]
                    final(self).seek_fault(to) == old(self).seek_fault(to)
                &&& representable(old(self).bytes().len() as int)
                &&& representable(old(self).pos() as int)
                &&& if representable(target) && old(self).seek_fault(target as nat) is Some {
                    &&& r matches Err(e)
                    &&& Some(e@) == old(self).seek_fault(target as nat)
                    &&& final(self).pos() == old(self).pos()
                } else {
                    seeks(old(self).bytes().len(), old(self).pos(), from, r, final(self).pos())
                }
            },
    ;

    /// The position of the cursor.
    fn stream_position(&mut self) -> (r: Result<u64, IoError>)
        ensures
            old(self).is_steady() ==> {
                &&& final(self).is_steady()
                &&& final(self).bytes() == old(self).bytes()
                &&& final(self).fills() == old(self).fills()
                &&& forall|at: nat| #[trigger]
                    final(self).read_fault(at) == old(self).read_fault(at)
                &&& forall|to: nat| #[trigger]
                    final(self).seek_fault(to) == old(self).seek_fault(to)
                &&& final(self).pos() == old(self).pos()
                &&& match old(self).seek_fault(old(self).pos()) {
                    Some(v) => r matches Err(e) && e@ == v,
                    None => r matches Ok(p) && p == old(self).pos(),
                }
            },
    {
        self.seek(SeekFrom::Current(0))
    }
}

/// True iff neither reads nor seeks of the stream fail anywhere.
pub open spec fn never_fails<S: BytesSource + ?Sized>(s: &S) -> bool {
    &&& forall|at: nat| (#[trigger] s.read_fault(at)) is None
    &&& forall|to: nat| (#[trigger] s.seek_fault(to)) is None
}

/// True iff two states are states of the same stream, up to where the cursor
/// stands.
pub open spec fn same_stream<S: BytesSource + ?Sized>(a: &S, b: &S) -> bool {
    &&& a.is_steady() == b.is_steady()
    &&& a.bytes() == b.bytes()
    &&& a.fills() == b.fills()
    &&& forall|at: nat| (#[trigger] a.read_fault(at)) == b.read_fault(at)
    &&& forall|to: nat| (#[trigger] a.seek_fault(to)) == b.seek_fault(to)
}

/// What a stream holds and where it fails.
#[verifier::ext_equal]
pub ghost struct Content {
    pub bytes: Seq<u8>,
    pub read_faults: spec_fn(nat) -> Option<IoErrorView>,
    pub seek_faults: spec_fn(nat) -> Option<IoErrorView>,
}

impl Content {
    /// Bytes that can be read and reached everywhere.
    pub open spec fn sound(bytes: Seq<u8>) -> Content {
        Content { bytes, read_faults: |at: nat| None, seek_faults: |to: nat| None }
    }

    /// What a read with room for a byte or more fails with at a position, if
    /// it does.
    pub open spec fn read_fault(self, at: nat) -> Option<IoErrorView> {
        (self.read_faults)(at)
    }

    /// What a seek to a position fails with, if it does.
    pub open spec fn seek_fault(self, to: nat) -> Option<IoErrorView> {
        (self.seek_faults)(to)
    }

    /// What a seek to a position, and a read there, fail with, if they do.
    pub open spec fn reach_fault(self, at: nat) -> Option<IoErrorView> {
        if self.seek_fault(at) is Some {
            self.seek_fault(at)
        } else {
            self.read_fault(at)
        }
    }

    /// What finding out the length fails with, from a position on, if it does:
    /// the position and then the end have to be reached.
    pub open spec fn length_fault(self, pos: nat) -> Option<IoErrorView> {
        if self.seek_fault(pos) is Some {
            self.seek_fault(pos)
        } else {
            self.seek_fault(self.bytes.len())
        }
    }
}

/// What a stream holds and where it fails.
pub open spec fn content<S: BytesSource + ?Sized>(s: &S) -> Content {
    Content {
        bytes: s.bytes(),
        read_faults: |at: nat| s.read_fault(at),
        seek_faults: |to: nat| s.seek_fault(to),
    }
}

/// Contents are equal where they hold the same and fail alike everywhere.
pub proof fn lemma_same_content(a: Content, b: Content)
    requires
        a.bytes == b.bytes,
        forall|at: nat| (#[trigger] a.read_fault(at)) == b.read_fault(at),
        forall|to: nat| (#[trigger] a.seek_fault(to)) == b.seek_fault(to),
    ensures
        a == b,
{
    assert forall|at: nat| #[trigger] (a.read_faults)(at) == (b.read_faults)(at) by {
        assert(a.read_fault(at) == b.read_fault(at));
    }
    assert forall|to: nat| #[trigger] (a.seek_faults)(to) == (b.seek_faults)(to) by {
        assert(a.seek_fault(to) == b.seek_fault(to));
    }
    assert(a.read_faults =~= b.read_faults);
    assert(a.seek_faults =~= b.seek_faults);
}

/// States of the same stream have the same content.
pub proof fn lemma_same_stream_same_content<S: BytesSource + ?Sized>(a: &S, b: &S)
    requires
        same_stream(a, b),
    ensures
        content(a) == content(b),
{
    lemma_same_content(content(a), content(b));
}

/// A stream that never fails has sound content.
pub proof fn lemma_never_fails_is_sound<S: BytesSource + ?Sized>(s: &S)
    requires
        never_fails(s),
    ensures
        content(s) == Content::sound(s.bytes()),
{
    lemma_same_content(content(s), Content::sound(s.bytes()));
}

/// The length of a stream, with its cursor left where it was.
pub fn stream_len<S: BytesSource + ?Sized>(src: &mut S) -> (r: Result<u64, IoError>)
    ensures
        old(src).is_steady() ==> {
            &&& same_stream(final(src), old(src))
            &&& final(src).pos() == old(src).pos()
            &&& match content(old(src)).length_fault(old(src).pos()) {
                Some(v) => r matches Err(e) && e@ == v,
                None => r matches Ok(n) && n == old(src).bytes().len(),
            }
        },
{
    let saved = src.stream_position()?;
    let end = src.seek(SeekFrom::End(0))?;
    if saved != end {
        src.seek(SeekFrom::Start(saved))?;
    }
    Ok(end)
}

/// The position that a seek names, where it exists.
pub(crate) fn seek_target(len: u64, pos: u64, from: SeekFrom) -> (r: Option<u64>)
    ensures
        ({
            let target = from.target(len as int, pos as int);
            r == if representable(target) {
                Some(target as u64)
            } else {
                None
            }
        }),
{
    match from {
        SeekFrom::Start(n) => Some(n),
        SeekFrom::End(d) => len.checked_add_signed(d),
        SeekFrom::Current(d) => pos.checked_add_signed(d),
    }
}

/// Copies the bytes of `data` from `pos` on into `buf`, as many as there are
/// and as fit, and returns how many.
pub(crate) fn read_at(data: &[u8], pos: u64, buf: &mut [u8]) -> (n: usize)
    ensures
        reads(data@, pos as nat, old(buf)@, n, final(buf)@, (pos + n) as nat),
        n == if pos >= data@.len() {
            0
        } else if old(buf)@.len() <= data@.len() - pos {
            old(buf)@.len() as int
        } else {
            data@.len() - pos
        },
{
    let len = data.len();
    if buf.len() == 0 || pos >= len as u64 {
        return 0;
    }
    let start = pos as usize;
    let left = len - start;
    let n: usize = if buf.len() <= left {
        buf.len()
    } else {
        left
    };
    let mut i: usize = 0;
    while i < n
        invariant
            i <= n,
            n <= old(buf)@.len(),
            buf@.len() == old(buf)@.len(),
            start + n <= len,
            len == data@.len(),
            forall|j: int| 0 <= j < i ==> buf@[j] == data@[start + j],
            forall|j: int| i <= j < buf@.len() ==> buf@[j] == old(buf)@[j],
        decreases n - i,
    {
        buf[i] = data[start + i];
        i = i + 1;
    }
    assert(buf@ =~= data@.subrange(pos as int, pos + n) + old(buf)@.skip(n as int));
    n
}

/// A stream of whatever kind. Any stream can be put in; what it promises is
/// what the stream in it promises.
pub struct Source {
    pub stream: Box<dyn BytesSource>,
}

impl BytesSource for Source {
    open spec fn bytes(&self) -> Seq<u8> {
        self.stream.bytes()
    }

    open spec fn pos(&self) -> nat {
        self.stream.pos()
    }

    open spec fn is_steady(&self) -> bool {
        self.stream.is_steady()
    }

    open spec fn fills(&self) -> bool {
        self.stream.fills()
    }

    open spec fn read_fault(&self, at: nat) -> Option<IoErrorView> {
        self.stream.read_fault(at)
    }

    open spec fn seek_fault(&self, to: nat) -> Option<IoErrorView> {
        self.stream.seek_fault(to)
    }

    fn read(&mut self, buf: &mut [u8]) -> (r: Result<usize, IoError>) {
        self.stream.read(buf)
    }

    fn seek(&mut self, from: SeekFrom) -> (r: Result<u64, IoError>) {
        self.stream.seek(from)
    }
}

/// A stream over bytes held in memory.
pub struct Cursor {
    data: Vec<u8>,
    pos: u64,
}

impl Cursor {
    /// A stream over `data`, with its cursor at the start.
    pub fn new(data: Vec<u8>) -> (r: Self)
        ensures
            r.bytes() == data@,
            r.pos() == 0,
            r.is_steady(),
            r.fills(),
            never_fails(&r),
    {
        Cursor { data, pos: 0 }
    }
}

impl BytesSource for Cursor {
    closed spec fn bytes(&self) -> Seq<u8> {
        self.data@
    }

    closed spec fn pos(&self) -> nat {
        self.pos as nat
    }

    open spec fn is_steady(&self) -> bool {
        true
    }

    open spec fn fills(&self) -> bool {
        true
    }

    open spec fn read_fault(&self, at: nat) -> Option<IoErrorView> {
        None
    }

    open spec fn seek_fault(&self, to: nat) -> Option<IoErrorView> {
        None
    }

    fn read(&mut self, buf: &mut [u8]) -> (r: Result<usize, IoError>)
        ensures
            r matches Ok(n) && n == if old(self).pos() >= old(self).bytes().len() {
                0
            } else if old(buf)@.len() <= old(self).bytes().len() - old(self).pos() {
                old(buf)@.len() as int
            } else {
                old(self).bytes().len() - old(self).pos()
            },
    {
        let data = self.data.as_slice();
        let n = read_at(data, self.pos, buf);
        if n > 0 {
            assert(self.pos + n <= data.len());
            self.pos = self.pos + n as u64;
        }
        Ok(n)
    }

    fn seek(&mut self, from: SeekFrom) -> (r: Result<u64, IoError>)
        ensures
            r matches Err(e) ==> e@.message
                == "invalid seek to a negative or overflowing position"@,
    {
        match seek_target(self.data.len() as u64, self.pos, from) {
            Some(p) => {
                self.pos = p;
                Ok(p)
            },
            None => Err(
                IoError::new(
                    ErrorKind::InvalidInput,
                    "invalid seek to a negative or overflowing position".to_owned(),
                ),
            ),
        }
    }
}

/// Two reads in a row hand over what one longer read would: how a stream is
/// cut into reads does not matter.
pub proof fn lemma_reads_join(
    bytes: Seq<u8>,
    pos: nat,
    before1: Seq<u8>,
    n1: usize,
    after1: Seq<u8>,
    before2: Seq<u8>,
    n2: usize,
    after2: Seq<u8>,
    mid: nat,
    end: nat,
)
    requires
        pos <= bytes.len(),
        reads(bytes, pos, before1, n1, after1, mid),
        reads(bytes, mid, before2, n2, after2, end),
    ensures
        end == pos + n1 + n2,
        end <= bytes.len(),
        after1.take(n1 as int) + after2.take(n2 as int) == bytes.subrange(
            pos as int,
            end as int,
        ),
{
    assert(after1.take(n1 as int) + after2.take(n2 as int) =~= bytes.subrange(
        pos as int,
        end as int,
    ));
}

/// A read behind a seek hands over the bytes at the place sought, or none
/// where that is at or past the end.
pub proof fn lemma_seek_decides_what_is_read(
    bytes: Seq<u8>,
    pos: nat,
    from: SeekFrom,
    r: Result<u64, IoError>,
    mid: nat,
    before: Seq<u8>,
    n: usize,
    after: Seq<u8>,
    end: nat,
)
    requires
        seeks(bytes.len(), pos, from, r, mid),
        reads(bytes, mid, before, n, after, end),
    ensures
        r matches Ok(p) ==> {
            &&& p == from.target(bytes.len() as int, pos as int)
            &&& p >= bytes.len() ==> n == 0
            &&& p < bytes.len() && before.len() > 0 ==> n > 0
            &&& n > 0 ==> after.take(n as int) == bytes.subrange(p as int, p + n)
        },
        r is Err ==> mid == pos,
{
    if n > 0 {
        assert(after.take(n as int) =~= bytes.subrange(mid as int, mid + n));
    }
}

} // verus!
