//! `concat:` URIs: several streams in a row, seen as one.
//!
//! `concat:<first>|<second>|...`, where every segment is a URI or a bare path.
use crate::error::{Error, ErrorKind, ErrorView, IoError, IoErrorView};
use crate::mem::MemTable;
use crate::open;
use crate::stream::{BytesSource, Content, SeekFrom, Source};
use crate::stream;
use crate::text;
use crate::text::{COLON, PIPE};
use crate::uri;
use vstd::prelude::*;
use vstd::string::StringExecFns;

verus! {

/// Several byte strings in a row.
pub open spec fn concatenated(s: Seq<Seq<u8>>) -> Seq<u8>
    decreases s.len(),
{
    if s.len() == 0 {
        Seq::empty()
    } else {
        concatenated(s.drop_last()) + s.last()
    }
}

/// What several streams hold and where they fail.
pub open spec fn contents(parts: Seq<Source>) -> Seq<Content> {
    Seq::new(parts.len(), |i: int| stream::content(&parts[i]))
}

/// The bytes of several streams.
pub open spec fn bytes_of(c: Seq<Content>) -> Seq<Seq<u8>> {
    Seq::new(c.len(), |i: int| c[i].bytes)
}

/// True iff every one of the streams is steady.
pub open spec fn all_steady(parts: Seq<Source>) -> bool {
    forall|i: int| 0 <= i < parts.len() ==> (#[trigger] parts[i]).is_steady()
}

/// True iff the streams are the same, one by one, up to where their cursors
/// stand.
pub open spec fn same_streams(a: Seq<Source>, b: Seq<Source>) -> bool {
    &&& a.len() == b.len()
    &&& forall|i: int| 0 <= i < a.len() ==> stream::same_stream(&#[trigger] a[i], &b[i])
}

/// Which of several byte strings in a row the byte at `p` stands in.
pub open spec fn part_at(s: Seq<Seq<u8>>, p: int) -> int
    decreases s.len(),
{
    if s.len() <= 1 || p >= concatenated(s.drop_last()).len() {
        s.len() - 1
    } else {
        part_at(s.drop_last(), p)
    }
}

/// What a read of several streams in a row fails with at a position, if it
/// does: what the part that holds the position fails with there.
pub open spec fn row_read_fault(c: Seq<Content>, at: nat) -> Option<IoErrorView> {
    let b = bytes_of(c);
    if at < concatenated(b).len() {
        let k = part_at(b, at as int);
        c[k].reach_fault((at - concatenated(b.take(k)).len()) as nat)
    } else {
        None
    }
}

/// Why streams cannot be put in a row, from the `k`th on: one fails where it
/// is asked for its length, they are too long together, or the first fails to
/// go back to its start.
pub open spec fn row_fault(c: Seq<Content>, k: int) -> Option<ErrorView>
    decreases c.len() - k,
{
    if k >= c.len() {
        if c.len() > 0 && c[0].seek_fault(0) is Some {
            Some(ErrorView::Io(c[0].seek_fault(0)->0))
        } else {
            None
        }
    } else if let Some(e) = c[k].seek_fault(c[k].bytes.len()) {
        Some(ErrorView::Io(e))
    } else if concatenated(bytes_of(c).take(k + 1)).len() > u64::MAX {
        Some(ErrorView::InvalidData("concat: total length overflows u64"@))
    } else {
        row_fault(c, k + 1)
    }
}

/// Several streams, seen as one.
pub open spec fn row(c: Seq<Content>) -> Content {
    Content {
        bytes: concatenated(bytes_of(c)),
        read_faults: |at: nat| row_read_fault(c, at),
        seek_faults: |to: nat| None,
    }
}

/// What several streams make when they are put in a row.
pub open spec fn in_a_row(c: Seq<Content>) -> Result<Content, ErrorView> {
    match row_fault(c, 0) {
        Some(e) => Err(e),
        None => Ok(row(c)),
    }
}

/// Each of the byte strings stands, whole, behind those before it.
pub proof fn lemma_concatenated_part(s: Seq<Seq<u8>>, k: int)
    requires
        0 <= k < s.len(),
    ensures
        ({
            let at = concatenated(s.take(k)).len() as int;
            &&& concatenated(s.take(k + 1)).len() == at + s[k].len()
            &&& at + s[k].len() <= concatenated(s).len()
            &&& concatenated(s).subrange(at, at + s[k].len()) == s[k]
        }),
    decreases s.len(),
{
    let at = concatenated(s.take(k)).len() as int;
    assert(s.take(k + 1).drop_last() =~= s.take(k));
    if k == s.len() - 1 {
        assert(s.take(k) =~= s.drop_last());
        assert(s.take(k + 1) =~= s);
        assert(concatenated(s).subrange(at, at + s[k].len()) =~= s[k]);
    } else {
        let t = s.drop_last();
        lemma_concatenated_part(t, k);
        assert(t.take(k) =~= s.take(k));
        assert(t.take(k + 1) =~= s.take(k + 1));
        assert(concatenated(s).subrange(at, at + s[k].len()) =~= concatenated(t).subrange(
            at,
            at + s[k].len(),
        ));
    }
}

/// The byte strings in a row are as long as all of them together.
proof fn lemma_concatenated_len(s: Seq<Seq<u8>>, k: int)
    requires
        0 <= k <= s.len(),
    ensures
        concatenated(s.take(k)).len() <= concatenated(s).len(),
{
    if k < s.len() {
        lemma_concatenated_part(s, k);
    } else {
        assert(s.take(k) =~= s);
    }
}

/// A byte stands in the part that begins at or before it and ends behind it,
/// and in no other.
pub proof fn lemma_part_is(s: Seq<Seq<u8>>, p: int, k: int)
    requires
        0 <= k < s.len(),
        concatenated(s.take(k)).len() <= p < concatenated(s.take(k + 1)).len(),
    ensures
        part_at(s, p) == k,
    decreases s.len(),
{
    let t = s.drop_last();
    if k == s.len() - 1 {
        assert(s.take(k) =~= t);
    } else {
        assert(t.take(k) =~= s.take(k));
        assert(t.take(k + 1) =~= s.take(k + 1));
        lemma_concatenated_len(t, k + 1);
        lemma_part_is(t, p, k);
    }
}

/// Every byte of a row stands in one of the parts.
pub proof fn lemma_part_at(s: Seq<Seq<u8>>, p: int)
    requires
        0 <= p < concatenated(s).len(),
    ensures
        0 <= part_at(s, p) < s.len(),
        concatenated(s.take(part_at(s, p))).len() <= p,
        p < concatenated(s.take(part_at(s, p) + 1)).len(),
    decreases s.len(),
{
    let t = s.drop_last();
    if s.len() <= 1 || p >= concatenated(t).len() {
        assert(s.take(s.len() - 1) =~= t);
        assert(s.take(s.len() as int) =~= s);
        if s.len() == 1 {
            assert(concatenated(t).len() == 0);
        }
    } else {
        lemma_part_at(t, p);
        let k = part_at(t, p);
        assert(t.take(k) =~= s.take(k));
        assert(t.take(k + 1) =~= s.take(k + 1));
    }
}

/// The same streams have the same contents.
proof fn lemma_same_streams_same_contents(a: Seq<Source>, b: Seq<Source>)
    requires
        same_streams(a, b),
    ensures
        contents(a) == contents(b),
        all_steady(a) == all_steady(b),
{
    assert forall|i: int| 0 <= i < a.len() implies contents(a)[i] == contents(b)[i] by {
        assert(stream::same_stream(&a[i], &b[i]));
        stream::lemma_same_stream_same_content(&a[i], &b[i]);
    }
    assert(contents(a) =~= contents(b));
    assert forall|i: int| all_steady(b) && 0 <= i < a.len() implies (
    #[trigger] a[i]).is_steady() by {
        assert(b[i].is_steady());
    }
    assert forall|i: int| all_steady(a) && 0 <= i < b.len() implies (
    #[trigger] b[i]).is_steady() by {
        assert(a[i].is_steady());
    }
}

/// Streams that never fail make a row that never fails, unless they are too
/// long together.
pub proof fn lemma_row_of_sound_parts(parts: Seq<Seq<u8>>)
    ensures
        ({
            let c = Seq::new(parts.len(), |i: int| Content::sound(parts[i]));
            in_a_row(c) == if concatenated(parts).len() > u64::MAX {
                Err(ErrorView::InvalidData("concat: total length overflows u64"@))
            } else {
                Ok::<_, ErrorView>(Content::sound(concatenated(parts)))
            }
        }),
{
    let c = Seq::new(parts.len(), |i: int| Content::sound(parts[i]));
    assert(bytes_of(c) =~= parts);
    assert(parts.take(0) =~= Seq::<Seq<u8>>::empty());
    lemma_sound_from(c, 0);
    assert forall|at: nat| (#[trigger] row(c).read_fault(at)) is None by {
        if at < concatenated(parts).len() {
            lemma_part_at(parts, at as int);
        }
    }
    stream::lemma_same_content(row(c), Content::sound(concatenated(parts)));
}

proof fn lemma_sound_from(c: Seq<Content>, k: int)
    requires
        forall|i: int| 0 <= i < c.len() ==> #[trigger] c[i] == Content::sound(c[i].bytes),
        0 <= k <= c.len(),
        concatenated(bytes_of(c).take(k)).len() <= u64::MAX,
    ensures
        row_fault(c, k) == if concatenated(bytes_of(c)).len() > u64::MAX {
            Some(ErrorView::InvalidData("concat: total length overflows u64"@))
        } else {
            None
        },
    decreases c.len() - k,
{
    let b = bytes_of(c);
    if c.len() > 0 {
        assert(c[0] == Content::sound(c[0].bytes));
    }
    if k < c.len() {
        assert(c[k] == Content::sound(c[k].bytes));
        lemma_concatenated_len(b, k + 1);
        if concatenated(b.take(k + 1)).len() <= u64::MAX {
            lemma_sound_from(c, k + 1);
        }
    } else {
        assert(b.take(k) =~= b);
    }
}

/// An empty byte string in a row changes nothing.
pub proof fn lemma_empty_part_is_transparent(a: Seq<Seq<u8>>, b: Seq<Seq<u8>>)
    ensures
        concatenated(a + seq![Seq::<u8>::empty()] + b) == concatenated(a + b),
    decreases b.len(),
{
    let hole = seq![Seq::<u8>::empty()];
    if b.len() == 0 {
        assert((a + hole + b).drop_last() =~= a);
        assert(a + b =~= a);
        assert(concatenated(a) + Seq::<u8>::empty() =~= concatenated(a));
    } else {
        lemma_empty_part_is_transparent(a, b.drop_last());
        assert((a + hole + b).drop_last() =~= a + hole + b.drop_last());
        assert((a + b).drop_last() =~= a + b.drop_last());
    }
}

/// Rows put in a row are one row.
pub proof fn lemma_rows_in_a_row(a: Seq<Seq<u8>>, b: Seq<Seq<u8>>)
    ensures
        concatenated(a + b) == concatenated(a) + concatenated(b),
    decreases b.len(),
{
    if b.len() == 0 {
        assert(a + b =~= a);
        assert(concatenated(a) + Seq::<u8>::empty() =~= concatenated(a));
    } else {
        lemma_rows_in_a_row(a, b.drop_last());
        assert((a + b).drop_last() =~= a + b.drop_last());
        assert(concatenated(a) + concatenated(b.drop_last()) + b.last() =~= concatenated(a) + (
        concatenated(b.drop_last()) + b.last()));
    }
}

/// Moving one of the streams leaves them the same streams.
proof fn lemma_one_moved(before: Seq<Source>, after: Seq<Source>, given: Seq<Source>, k: int)
    requires
        0 <= k < before.len(),
        same_streams(before, given),
        after.len() == before.len(),
        stream::same_stream(&after[k], &before[k]),
        forall|i: int| 0 <= i < before.len() && i != k ==> #[trigger] after[i] == before[i],
    ensures
        same_streams(after, given),
{
    assert forall|i: int| 0 <= i < after.len() implies stream::same_stream(
        &#[trigger] after[i],
        &given[i],
    ) by {
        assert(stream::same_stream(&before[i], &given[i]));
        if i == k {
            assert forall|at: nat| (#[trigger] after[k].read_fault(at)) == given[k].read_fault(
                at,
            ) by {
                assert(after[k].read_fault(at) == before[k].read_fault(at));
            }
            assert forall|to: nat| (#[trigger] after[k].seek_fault(to)) == given[k].seek_fault(
                to,
            ) by {
                assert(after[k].seek_fault(to) == before[k].seek_fault(to));
            }
        }
    }
}

/// A stream over several streams in a row.
pub struct ConcatSource {
    parts: Vec<Source>,
    starts: Vec<u64>,
    total: u64,
    pos: u64,
}

impl ConcatSource {
    /// True iff the start of every part is where the parts before it end.
    spec fn is_laid_out(&self) -> bool {
        let c = bytes_of(contents(self.parts@));
        &&& self.starts@.len() == self.parts@.len() + 1
        &&& forall|k: int|
            0 <= k <= self.parts@.len() ==> #[trigger] self.starts@[k] == concatenated(
                c.take(k),
            ).len()
        &&& self.total == concatenated(c).len()
    }

    /// The parts, in order.
    pub closed spec fn sources(&self) -> Seq<Source> {
        self.parts@
    }

    /// The length of all parts together, as they gave it.
    pub closed spec fn total_len(&self) -> u64 {
        self.total
    }

    /// Puts the parts in a row. Every part is asked for its length.
    pub fn new(parts: Vec<Source>) -> (r: Result<Self, Error>)
        ensures
            r matches Ok(s) ==> s.pos() == 0,
            r matches Err(e) ==> e@ is Io || e@ == ErrorView::InvalidData(
                "concat: total length overflows u64"@,
            ),
            all_steady(parts@) ==> match in_a_row(contents(parts@)) {
                Ok(c) => {
                    &&& r matches Ok(s)
                    &&& s.is_steady()
                    &&& stream::content(&s) == c
                    &&& s.total_len() == c.bytes.len()
                    &&& same_streams(s.sources(), parts@)
                },
                Err(v) => {
                    &&& r matches Err(e)
                    &&& e@ == v
                },
            },
    {
        let ghost given = parts@;
        let ghost c = bytes_of(contents(given));
        let mut held = parts;
        let mut starts: Vec<u64> = Vec::new();
        let mut acc: u64 = 0;
        let mut i: usize = 0;
        assert(c.take(0) =~= Seq::<Seq<u8>>::empty());
        while i < held.len()
            invariant
                i <= held@.len(),
                starts@.len() == i,
                given == parts@,
                c == bytes_of(contents(given)),
                held@.len() == given.len(),
                all_steady(given) ==> {
                    &&& same_streams(held@, given)
                    &&& row_fault(contents(given), 0) == row_fault(
                        contents(given),
                        i as int,
                    )
                    &&& acc == concatenated(c.take(i as int)).len()
                    &&& forall|k: int|
                        0 <= k < i ==> #[trigger] starts@[k] == concatenated(c.take(k)).len()
                },
            decreases held@.len() - i,
        {
            starts.push(acc);
            let ghost before = held@;
            proof {
                if all_steady(given) {
                    assert(given[i as int].is_steady());
                    assert(stream::same_stream(&held@[i as int], &given[i as int]));
                }
            }
            let len: u64 = match held[i].seek(SeekFrom::End(0)) {
                Ok(n) => n,
                Err(e) => {
                    return Err(Error::Io(e));
                },
            };
            proof {
                lemma_concatenated_part(c, i as int);
                if all_steady(given) {
                    lemma_one_moved(before, held@, given, i as int);
                }
            }
            acc = match acc.checked_add(len) {
                Some(a) => a,
                None => {
                    return Err(Error::invalid("concat: total length overflows u64"));
                },
            };
            i = i + 1;
        }
        assert(c.take(i as int) =~= c);
        starts.push(acc);
        if held.len() > 0 {
            let ghost before = held@;
            proof {
                if all_steady(given) {
                    assert(given[0].is_steady());
                    assert(stream::same_stream(&held@[0], &given[0]));
                }
            }
            match held[0].seek(SeekFrom::Start(0)) {
                Ok(_) => {},
                Err(e) => {
                    return Err(Error::Io(e));
                },
            }
            proof {
                if all_steady(given) {
                    lemma_one_moved(before, held@, given, 0);
                }
            }
        }
        proof {
            if all_steady(given) {
                lemma_same_streams_same_contents(held@, given);
            }
        }
        let s = ConcatSource { parts: held, starts, total: acc, pos: 0 };
        proof {
            stream::lemma_same_content(stream::content(&s), row(contents(held@)));
        }
        Ok(s)
    }

    /// The part that the byte at `pos` stands in.
    fn segment_for(&self, pos: u64) -> (r: Option<usize>)
        ensures
            match r {
                Some(i) => {
                    &&& pos < self.total
                    &&& i < self.parts@.len()
                    &&& i + 1 < self.starts@.len()
                    &&& self.starts@[i as int] <= pos < self.starts@[i + 1]
                },
                None => self.is_laid_out() ==> pos >= self.total,
            },
    {
        if pos >= self.total {
            return None;
        }
        if self.starts.len() == 0 {
            return None;
        }
        let last: usize = self.starts.len() - 1;
        let mut i: usize = 0;
        assert(bytes_of(contents(self.parts@)).take(0) =~= Seq::<Seq<u8>>::empty());
        while i < self.parts.len() && i < last
            invariant
                pos < self.total,
                i <= self.parts@.len(),
                i <= last,
                last + 1 == self.starts@.len(),
                self.is_laid_out() ==> self.starts@[i as int] <= pos,
            decreases self.parts@.len() - i,
        {
            if pos >= self.starts[i] && pos < self.starts[i + 1] {
                return Some(i);
            }
            i = i + 1;
        }
        proof {
            if self.is_laid_out() {
                assert(bytes_of(contents(self.parts@)).take(i as int) =~= bytes_of(contents(self.parts@)));
            }
        }
        None
    }
}

impl BytesSource for ConcatSource {
    open spec fn bytes(&self) -> Seq<u8> {
        concatenated(bytes_of(contents(self.sources())))
    }

    closed spec fn pos(&self) -> nat {
        self.pos as nat
    }

    closed spec fn is_steady(&self) -> bool {
        all_steady(self.parts@) && self.is_laid_out()
    }

    open spec fn read_fault(&self, at: nat) -> Option<IoErrorView> {
        row_read_fault(contents(self.sources()), at)
    }

    open spec fn seek_fault(&self, to: nat) -> Option<IoErrorView> {
        None
    }

    fn read(&mut self, buf: &mut [u8]) -> (r: Result<usize, IoError>)
        ensures
            final(self).total_len() == old(self).total_len(),
            r matches Ok(n) ==> final(self).pos() == old(self).pos() + n,
            r is Err ==> final(self).pos() == old(self).pos(),
            old(buf)@.len() == 0 || old(self).pos() >= old(self).total_len() ==> {
                &&& r == Ok::<usize, IoError>(0)
                &&& final(self).sources() == old(self).sources()
                &&& final(buf)@ == old(buf)@
            },
            old(self).is_steady() ==> {
                let c = bytes_of(contents(old(self).sources()));
                &&& old(self).total_len() == old(self).bytes().len()
                &&& same_streams(final(self).sources(), old(self).sources())
                &&& (r matches Ok(n) ==> n == 0 || old(self).pos() + n <= concatenated(
                    c.take(part_at(c, old(self).pos() as int) + 1),
                ).len())
                &&& (r matches Ok(n) ==> old(self).pos() < concatenated(c).len()
                    && old(self).sources()[part_at(c, old(self).pos() as int)].fills() ==> n
                    == old(buf)@.len() || old(self).pos() + n == concatenated(
                    c.take(part_at(c, old(self).pos() as int) + 1),
                ).len())
            },
    {
        if buf.len() == 0 {
            return Ok(0);
        }
        let idx: usize = match self.segment_for(self.pos) {
            Some(i) => i,
            None => {
                return Ok(0);
            },
        };
        assert(idx + 1 < self.starts.len());
        let from: u64 = self.pos - self.starts[idx];
        let left: u64 = self.starts[idx + 1] - self.pos;
        let want: usize = if buf.len() as u64 <= left {
            buf.len()
        } else {
            left as usize
        };
        let ghost before = buf@;
        let ghost given = self.parts@;
        let ghost c = bytes_of(contents(given));
        let ghost k = idx as int;
        proof {
            if old(self).is_steady() {
                lemma_concatenated_part(c, k);
                lemma_part_is(c, self.pos as int, k);
                assert(given[k].is_steady());
            }
        }
        let moved = self.parts[idx].seek(SeekFrom::Start(from));
        let ghost between = self.parts@;
        proof {
            if old(self).is_steady() {
                lemma_one_moved(given, between, given, k);
                lemma_same_streams_same_contents(between, given);
            }
        }
        match moved {
            Ok(_) => {},
            Err(e) => {
                return Err(e);
            },
        }
        let (head, tail) = buf.split_at_mut(want);
        let got = self.parts[idx].read(head);
        proof {
            if old(self).is_steady() {
                lemma_one_moved(between, self.parts@, given, k);
                lemma_same_streams_same_contents(self.parts@, given);
            }
        }
        let n: usize = match got {
            Ok(n) => n,
            Err(e) => {
                return Err(e);
            },
        };
        self.pos = self.pos + n as u64;
        proof {
            if old(self).is_steady() {
                let at = self.starts@[k] as int;
                assert(concatenated(c).subrange(at, at + c[k].len()) == c[k]);
                assert(concatenated(c).subrange(at + from, at + from + n) =~= c[k].subrange(
                    from as int,
                    from + n,
                ));
                assert(buf@ =~= concatenated(c).subrange(
                    old(self).pos() as int,
                    old(self).pos() + n,
                ) + before.skip(n as int));
            }
        }
        Ok(n)
    }

    fn seek(&mut self, from: SeekFrom) -> (r: Result<u64, IoError>)
        ensures
            final(self).sources() == old(self).sources(),
            final(self).total_len() == old(self).total_len(),
            stream::seeks(
                old(self).total_len() as nat,
                old(self).pos(),
                from,
                r,
                final(self).pos(),
            ),
            r matches Err(e) ==> e@.message
                == "concat: seek resolves to a negative or overflowing position"@,
    {
        match stream::seek_target(self.total, self.pos, from) {
            Some(p) => {
                self.pos = p;
                Ok(p)
            },
            None => Err(
                IoError::new(
                    ErrorKind::InvalidInput,
                    "concat: seek resolves to a negative or overflowing position".to_owned(),
                ),
            ),
        }
    }
}

/// The spellings of several strings.
pub open spec fn spellings(v: Seq<String>) -> Seq<Seq<u8>> {
    v.map_values(|t: String| text::octets(t@))
}

/// What stands between the separators.
pub open spec fn pieces(b: Seq<u8>) -> Seq<Seq<u8>>
    decreases b.len(),
{
    let at = text::find(b, PIPE) as int;
    if at >= b.len() {
        seq![b]
    } else {
        seq![b.take(at)] + pieces(b.skip(at + 1))
    }
}

/// Pieces with a separator between any two of them.
pub open spec fn joined(s: Seq<Seq<u8>>) -> Seq<u8>
    decreases s.len(),
{
    if s.len() == 0 {
        Seq::empty()
    } else if s.len() == 1 {
        s[0]
    } else {
        s[0].push(PIPE) + joined(s.drop_first())
    }
}

/// What is wrong with the segments from `i` on.
pub open spec fn segment_fault(s: Seq<Seq<u8>>, i: int) -> Option<ErrorView>
    decreases s.len() - i,
{
    if i >= s.len() {
        None
    } else if s[i].len() == 0 {
        Some(ErrorView::InvalidData("concat: URI segment cannot be empty"@))
    } else if s[i].contains(PIPE) {
        Some(
            ErrorView::InvalidData(
                "concat: URI segment "@ + text::shown(s[i])
                    + " contains a '|'; a literal '|' inside a segment cannot round-trip because the grammar splits on every '|'"@,
            ),
        )
    } else {
        segment_fault(s, i + 1)
    }
}

/// Why segments have no spelling as a URI.
pub open spec fn unspellable(s: Seq<Seq<u8>>) -> Option<ErrorView> {
    if s.len() == 0 {
        Some(ErrorView::InvalidData("concat: URI requires at least one segment"@))
    } else if segment_fault(s, 0) is Some {
        segment_fault(s, 0)
    } else if text::leads_with_slashes(s[0]) {
        Some(
            ErrorView::InvalidData(
                "concat: first segment "@ + text::shown(s[0])
                    + " starts with \"//\"; it cannot round-trip because the formatted URI's leading '//' reads as the authority-style `concat://` spelling"@,
            ),
        )
    } else {
        None
    }
}

/// True iff segments have a spelling as a URI.
pub open spec fn is_spellable(s: Seq<Seq<u8>>) -> bool {
    &&& s.len() > 0
    &&& forall|i: int| 0 <= i < s.len() ==> (#[trigger] s[i]).len() > 0 && !s[i].contains(PIPE)
    &&& !text::leads_with_slashes(s[0])
}

/// The spelling of segments as a URI.
pub open spec fn spelled(s: Seq<Seq<u8>>) -> Seq<u8> {
    text::octets("concat:"@) + joined(s)
}

/// True iff one of the pieces is empty.
pub open spec fn has_empty(s: Seq<Seq<u8>>) -> bool {
    exists|i: int| 0 <= i < s.len() && (#[trigger] s[i]).len() == 0
}

/// The segments of a `concat:` URI.
pub open spec fn parsed(u: Seq<u8>) -> Result<Seq<Seq<u8>>, ErrorView> {
    let (scheme, rest) = uri::parts(u);
    let s = pieces(rest);
    if !uri::same_word(scheme, text::octets("concat"@)) {
        Err(
            ErrorView::InvalidData(
                "concat driver invoked on non-concat URI: "@ + text::letters(u),
            ),
        )
    } else if rest.len() == 0 {
        Err(ErrorView::InvalidData("concat: URI requires at least one segment"@))
    } else if has_empty(s) {
        Err(
            ErrorView::InvalidData(
                "concat: URI has an empty segment: "@ + text::shown(rest),
            ),
        )
    } else if text::leads_with_slashes(s[0]) {
        Err(
            ErrorView::InvalidData(
                "concat: first segment "@ + text::shown(s[0])
                    + " starts with \"//\" after the scheme split; a first segment with leading '//' is ambiguous with the authority-style `concat://` spelling and cannot round-trip"@,
            ),
        )
    } else {
        Ok(s)
    }
}

/// The error for a segment that is itself a `concat:` URI.
pub open spec fn nested(segment: Seq<u8>) -> ErrorView {
    ErrorView::InvalidData(
        "concat: segment "@ + text::shown(segment)
            + " is itself a concat: URI; nesting concat is not supported because the outer '|' split would shred the inner segment list"@,
    )
}

/// A `concat:` URI, taken apart.
#[derive(Clone, Debug, PartialEq, Eq)]
pub struct ConcatUri {
    pub segments: Vec<String>,
}

impl View for ConcatUri {
    type V = Seq<Seq<u8>>;

    open spec fn view(&self) -> Seq<Seq<u8>> {
        spellings(self.segments@)
    }
}

/// Cuts `s` at every separator.
fn cut_all(s: &str) -> (r: Vec<String>)
    ensures
        spellings(r@) == pieces(text::octets(s@)),
{
    let mut out: Vec<String> = Vec::new();
    let mut rest: &str = s;
    let ghost goal = pieces(text::octets(s@));
    assert(spellings(out@) =~= Seq::<Seq<u8>>::empty());
    assert(Seq::<Seq<u8>>::empty() + goal =~= goal);
    loop
        invariant_except_break
            goal == spellings(out@) + pieces(text::octets(rest@)),
        ensures
            spellings(out@) == goal,
        decreases text::octets(rest@).len(),
    {
        let ghost before = spellings(out@);
        match text::find_byte(rest, PIPE) {
            Some(at) => {
                proof {
                    text::lemma_find(text::octets(rest@), PIPE);
                }
                let (piece, after) = text::cut(rest, at);
                out.push(piece.to_owned());
                proof {
                    assert(spellings(out@) =~= before.push(text::octets(piece@)));
                    assert(before + (seq![text::octets(piece@)] + pieces(text::octets(after@)))
                        =~= before.push(text::octets(piece@)) + pieces(text::octets(after@)));
                }
                rest = after;
            },
            None => {
                out.push(rest.to_owned());
                proof {
                    assert(spellings(out@) =~= before + seq![text::octets(rest@)]);
                }
                break;
            },
        }
    }
    out
}

/// True iff one of the strings is empty.
fn any_empty(v: &Vec<String>) -> (r: bool)
    ensures
        r == has_empty(spellings(v@)),
{
    let mut i: usize = 0;
    let ghost s = spellings(v@);
    while i < v.len()
        invariant
            i <= v@.len(),
            s == spellings(v@),
            forall|j: int| 0 <= j < i ==> (#[trigger] s[j]).len() > 0,
        decreases v@.len() - i,
    {
        if v[i].as_str().as_bytes().len() == 0 {
            assert(s[i as int].len() == 0);
            return true;
        }
        i = i + 1;
    }
    false
}

impl ConcatUri {
    /// A URI with the given segments. Segments that would not come back from
    /// its spelling are refused.
    pub fn new(segments: Vec<String>) -> (r: Result<Self, Error>)
        ensures
            match r {
                Ok(c) => {
                    &&& unspellable(spellings(segments@)) is None
                    &&& c@ == spellings(segments@)
                },
                Err(e) => unspellable(spellings(segments@)) == Some(e@),
            },
    {
        let ghost s = spellings(segments@);
        if segments.len() == 0 {
            return Err(Error::invalid("concat: URI requires at least one segment"));
        }
        let mut i: usize = 0;
        while i < segments.len()
            invariant
                i <= segments@.len(),
                s == spellings(segments@),
                segment_fault(s, 0) == segment_fault(s, i as int),
            ensures
                segment_fault(s, 0) is None,
            decreases segments@.len() - i,
        {
            let seg = segments[i].as_str();
            assert(s[i as int] == text::octets(seg@));
            if seg.as_bytes().len() == 0 {
                return Err(Error::invalid("concat: URI segment cannot be empty"));
            }
            if text::contains_byte(seg, PIPE) {
                let shown = text::show(seg);
                return Err(
                    Error::InvalidData(
                        text::join3(
                            "concat: URI segment ",
                            shown.as_str(),
                            " contains a '|'; a literal '|' inside a segment cannot round-trip because the grammar splits on every '|'",
                        ),
                    ),
                );
            }
            i = i + 1;
        }
        assert(s[0] == text::octets(segments@[0]@));
        if text::starts_with_slashes(segments[0].as_str()) {
            let shown = text::show(segments[0].as_str());
            return Err(
                Error::InvalidData(
                    text::join3(
                        "concat: first segment ",
                        shown.as_str(),
                        " starts with \"//\"; it cannot round-trip because the formatted URI's leading '//' reads as the authority-style `concat://` spelling",
                    ),
                ),
            );
        }
        Ok(ConcatUri { segments })
    }

    /// The canonical spelling.
    pub fn format(&self) -> (r: String)
        ensures
            text::octets(r@) == spelled(self@),
    {
        let mut out = "concat:".to_owned();
        let ghost goal = spelled(self@);
        let mut i: usize = 0;
        proof {
            assert(self@.skip(0) =~= self@);
        }
        while i < self.segments.len()
            invariant
                i <= self.segments@.len(),
                goal == text::octets(out@) + joined(self@.skip(i as int)),
            decreases self.segments@.len() - i,
        {
            let ghost left = self@.skip(i as int);
            let ghost before = text::octets(out@);
            let seg = self.segments[i].as_str();
            proof {
                text::lemma_octets_concat(out@, seg@);
                assert(left[0] == text::octets(seg@));
                assert(left.drop_first() =~= self@.skip(i + 1));
            }
            out.append(seg);
            if i + 1 < self.segments.len() {
                proof {
                    text::lemma_octets_push_ascii(out@, PIPE);
                    assert(before + (left[0].push(PIPE) + joined(self@.skip(i + 1))) =~= (before
                        + left[0]).push(PIPE) + joined(self@.skip(i + 1)));
                }
                out.push('|');
            } else {
                assert(self@.skip(i + 1) =~= Seq::<Seq<u8>>::empty());
                assert((before + left[0]) + Seq::<u8>::empty() =~= before + left[0]);
            }
            i = i + 1;
        }
        proof {
            assert(self@.skip(i as int) =~= Seq::<Seq<u8>>::empty());
            assert(text::octets(out@) + Seq::<u8>::empty() =~= text::octets(out@));
        }
        out
    }

    /// The canonical spelling.
    pub fn to_string(&self) -> (r: String)
        ensures
            text::octets(r@) == spelled(self@),
    {
        self.format()
    }
}

impl ConcatUri {
    /// Opens every segment, in order, and puts the streams in a row.
    pub fn open<F: Fn(&str) -> Result<Source, IoError>>(
        &self,
        table: &MemTable,
        files: &F,
    ) -> (r: Result<Source, Error>)
        requires
            open::callable(files),
        ensures
            forall|disk: open::Disk| #[trigger]
                open::conforms(files, disk) ==> open::opens_as(
                    r,
                    open::row_of(self@, table@, disk),
                ),
        decreases joined(self@).len(), 3nat,
    {
        let ghost s = self@;
        let mut parts: Vec<Source> = Vec::new();
        let mut i: usize = 0;
        proof {
            assert(contents(parts@) =~= Seq::<Content>::empty());
            assert forall|disk: open::Disk| #[trigger] open::conforms(files, disk) implies {
                open::segments_of(s, 0, table@, disk) == open::preceded(
                    contents(parts@),
                    open::segments_of(s, 0, table@, disk),
                )
            } by {
                open::lemma_preceded_by_nothing(open::segments_of(s, 0, table@, disk));
            }
        }
        while i < self.segments.len()
            invariant
                i <= self.segments@.len(),
                s == self@,
                open::callable(files),
                forall|disk: open::Disk| #[trigger]
                    open::conforms(files, disk) && open::segments_of(s, 0, table@, disk) is Some
                        ==> {
                        &&& all_steady(parts@)
                        &&& open::segments_of(s, 0, table@, disk) == open::preceded(
                            contents(parts@),
                            open::segments_of(s, i as int, table@, disk),
                        )
                    },
            decreases self.segments@.len() - i,
        {
            let seg = self.segments[i].as_str();
            proof {
                assert(s[i as int] == text::octets(seg@));
                lemma_segment_fits(s, i as int);
            }
            let part = open_segment(seg, table, files)?;
            let ghost before = parts@;
            parts.push(part);
            proof {
                assert forall|disk: open::Disk| #[trigger]
                    open::conforms(files, disk) && open::segments_of(s, 0, table@, disk) is Some
                 implies {
                    &&& all_steady(parts@)
                    &&& open::segments_of(s, 0, table@, disk) == open::preceded(
                        contents(parts@),
                        open::segments_of(s, i + 1, table@, disk),
                    )
                } by {
                    assert(contents(parts@) =~= contents(before).push(stream::content(&part)));
                    open::lemma_preceded_step(
                        contents(before),
                        stream::content(&part),
                        open::segments_of(s, i + 1, table@, disk),
                    );
                }
            }
            i = i + 1;
        }
        proof {
            assert forall|disk: open::Disk| #[trigger]
                open::conforms(files, disk) && open::segments_of(s, 0, table@, disk) is Some
             implies open::segments_of(s, 0, table@, disk) == Some(
                Ok::<_, ErrorView>(contents(parts@)),
            ) by {
                assert(contents(parts@) + Seq::<Content>::empty() =~= contents(parts@));
            }
        }
        let row = ConcatSource::new(parts)?;
        let r = Source { stream: Box::new(row) };
        proof {
            stream::lemma_same_content(stream::content(&r), stream::content(&row));
        }
        Ok(r)
    }
}

/// Opens a segment. A segment that is itself a `concat:` URI is refused.
fn open_segment<F: Fn(&str) -> Result<Source, IoError>>(
    seg: &str,
    table: &MemTable,
    files: &F,
) -> (r: Result<Source, Error>)
    requires
        open::callable(files),
    ensures
        forall|disk: open::Disk| #[trigger]
            open::conforms(files, disk) ==> open::opens_as(
                r,
                open::segment_of(text::octets(seg@), table@, disk),
            ),
    decreases text::octets(seg@).len(), 2nat,
{
    let (scheme, _) = uri::split(seg);
    if uri::scheme_is(scheme, "concat") {
        let shown = text::show(seg);
        return Err(
            Error::InvalidData(
                text::join3(
                    "concat: segment ",
                    shown.as_str(),
                    " is itself a concat: URI; nesting concat is not supported because the outer '|' split would shred the inner segment list",
                ),
            ),
        );
    }
    open::open_bytes(seg, table, files)
}

/// Opens the segments of a `concat:` URI as one stream.
pub fn open_concat<F: Fn(&str) -> Result<Source, IoError>>(
    uri_str: &str,
    table: &MemTable,
    files: &F,
) -> (r: Result<Source, Error>)
    requires
        open::callable(files),
    ensures
        forall|disk: open::Disk| #[trigger]
            open::conforms(files, disk) ==> open::opens_as(
                r,
                match parsed(text::octets(uri_str@)) {
                    Ok(s) => open::row_of(s, table@, disk),
                    Err(e) => Some(Err(e)),
                },
            ),
    decreases text::octets(uri_str@).len(), 0nat,
{
    let c = parse(uri_str)?;
    proof {
        lemma_segments_are_shorter(text::octets(uri_str@));
    }
    c.open(table, files)
}

/// Takes a `concat:` URI apart.
pub fn parse(uri_str: &str) -> (r: Result<ConcatUri, Error>)
    ensures
        r matches Ok(c) ==> parsed(text::octets(uri_str@)) == Ok::<_, ErrorView>(c@),
        r matches Err(e) ==> parsed(text::octets(uri_str@)) == Err::<Seq<Seq<u8>>, _>(e@),
{
    let (scheme, rest) = uri::split(uri_str);
    if !uri::scheme_is(scheme, "concat") {
        proof {
            text::lemma_letters_of_octets(uri_str@);
        }
        let mut m = "concat driver invoked on non-concat URI: ".to_owned();
        m.append(uri_str);
        return Err(Error::InvalidData(m));
    }
    if rest.as_bytes().len() == 0 {
        return Err(Error::invalid("concat: URI requires at least one segment"));
    }
    let segments = cut_all(rest);
    if any_empty(&segments) {
        let mut m = "concat: URI has an empty segment: ".to_owned();
        let shown = text::show(rest);
        m.append(shown.as_str());
        return Err(Error::InvalidData(m));
    }
    assert(pieces(text::octets(rest@)).len() > 0);
    assert(spellings(segments@)[0] == text::octets(segments@[0]@));
    if text::starts_with_slashes(segments[0].as_str()) {
        let shown = text::show(segments[0].as_str());
        return Err(
            Error::InvalidData(
                text::join3(
                    "concat: first segment ",
                    shown.as_str(),
                    " starts with \"//\" after the scheme split; a first segment with leading '//' is ambiguous with the authority-style `concat://` spelling and cannot round-trip",
                ),
            ),
        );
    }
    Ok(ConcatUri { segments })
}

/// Joining undoes cutting, and no piece holds a separator.
pub proof fn lemma_join_undoes_cut(b: Seq<u8>)
    ensures
        pieces(b).len() > 0,
        joined(pieces(b)) == b,
        forall|i: int| 0 <= i < pieces(b).len() ==> !(#[trigger] pieces(b)[i]).contains(PIPE),
    decreases b.len(),
{
    text::lemma_find(b, PIPE);
    let at = text::find(b, PIPE) as int;
    if at >= b.len() {
        assert(!b.contains(PIPE));
    } else {
        let first = b.take(at);
        let rest = b.skip(at + 1);
        lemma_join_undoes_cut(rest);
        let s = seq![first] + pieces(rest);
        assert(s.drop_first() =~= pieces(rest));
        assert(first.push(PIPE) + rest =~= b);
        assert forall|i: int| 0 <= i < s.len() implies !(#[trigger] s[i]).contains(PIPE) by {
            if i > 0 {
                assert(s[i] == pieces(rest)[i - 1]);
            }
        }
    }
}

/// Cutting undoes joining, where no piece holds a separator.
pub proof fn lemma_cut_undoes_join(s: Seq<Seq<u8>>)
    requires
        s.len() > 0,
        forall|i: int| 0 <= i < s.len() ==> !(#[trigger] s[i]).contains(PIPE),
    ensures
        pieces(joined(s)) == s,
    decreases s.len(),
{
    let b = joined(s);
    let first = s[0];
    assert forall|j: int| 0 <= j < first.len() implies first[j] != PIPE by {
        assert(first.contains(first[j]));
    }
    if s.len() == 1 {
        text::lemma_find_is(b, PIPE, b.len() as int);
        assert(s =~= seq![b]);
    } else {
        let t = s.drop_first();
        assert forall|i: int| 0 <= i < t.len() implies !(#[trigger] t[i]).contains(PIPE) by {
            assert(t[i] == s[i + 1]);
        }
        lemma_cut_undoes_join(t);
        let at = first.len() as int;
        text::lemma_find_is(b, PIPE, at);
        assert(b.take(at) =~= first);
        assert(b.skip(at + 1) =~= joined(t));
        assert(seq![first] + t =~= s);
    }
}

/// No segment is longer than all of them joined.
pub proof fn lemma_segment_fits(s: Seq<Seq<u8>>, k: int)
    requires
        0 <= k < s.len(),
    ensures
        s[k].len() <= joined(s).len(),
    decreases s.len(),
{
    if s.len() > 1 && k > 0 {
        lemma_segment_fits(s.drop_first(), k - 1);
        assert(s.drop_first()[k - 1] == s[k]);
    }
}

/// The word `concat` and the start of every `concat:` URI.
proof fn lemma_concat_word()
    ensures
        text::octets("concat"@).len() == 6,
        uri::is_scheme(text::octets("concat"@)),
        text::octets("concat:"@) == text::octets("concat"@).push(COLON),
{
    reveal_strlit("concat");
    reveal_strlit("concat:");
    text::lemma_octets_of_ascii("concat"@);
    text::lemma_octets_of_ascii("concat:"@);
    assert(text::octets("concat:"@) =~= text::octets("concat"@).push(COLON));
    assert(uri::is_scheme(text::octets("concat"@)));
}

/// The segments of a `concat:` URI are shorter than the URI, even joined.
pub proof fn lemma_segments_are_shorter(u: Seq<u8>)
    ensures
        parsed(u) matches Ok(s) ==> joined(s).len() < u.len(),
{
    lemma_concat_word();
    uri::lemma_rest_is_shorter(u);
    lemma_join_undoes_cut(uri::parts(u).1);
}

/// The constructor refuses exactly the segments that would not come back from
/// their spelling.
pub proof fn lemma_constructor_is_exact(s: Seq<Seq<u8>>)
    ensures
        unspellable(s) is None <==> is_spellable(s),
        is_spellable(s) <==> parsed(spelled(s)) == Ok::<_, ErrorView>(s),
{
    lemma_fault_from(s, 0);
    lemma_format_undoes_parse(spelled(s));
    if is_spellable(s) {
        lemma_parse_undoes_format(s);
    }
}

proof fn lemma_fault_from(s: Seq<Seq<u8>>, i: int)
    requires
        0 <= i <= s.len(),
    ensures
        segment_fault(s, i) is None <==> forall|j: int|
            i <= j < s.len() ==> (#[trigger] s[j]).len() > 0 && !s[j].contains(PIPE),
    decreases s.len() - i,
{
    if i < s.len() {
        lemma_fault_from(s, i + 1);
        if segment_fault(s, i) is None {
            assert forall|j: int| i <= j < s.len() implies (#[trigger] s[j]).len() > 0
                && !s[j].contains(PIPE) by {}
        } else if s[i].len() > 0 && !s[i].contains(PIPE) {
            let j = choose|j: int|
                i + 1 <= j < s.len() && !((#[trigger] s[j]).len() > 0 && !s[j].contains(PIPE));
            assert(!(s[j].len() > 0 && !s[j].contains(PIPE)));
        } else {
            assert(!(s[i].len() > 0 && !s[i].contains(PIPE)));
        }
    }
}

/// Parsing undoes formatting.
pub proof fn lemma_parse_undoes_format(s: Seq<Seq<u8>>)
    requires
        is_spellable(s),
    ensures
        uri::parts(spelled(s)) == (text::octets("concat"@), joined(s)),
        parsed(spelled(s)) == Ok::<_, ErrorView>(s),
{
    let rest = joined(s);
    lemma_concat_word();
    lemma_cut_undoes_join(s);
    assert(s[0].len() > 0);
    assert(rest[0] == s[0][0]);
    if rest.len() >= 2 {
        if s[0].len() >= 2 {
            assert(rest[1] == s[0][1]);
        } else if s.len() > 1 {
            assert(rest[1] == PIPE);
        }
    }
    assert(spelled(s) =~= text::octets("concat"@).push(COLON) + rest);
    uri::lemma_split_undoes_join(text::octets("concat"@), rest);
    uri::lemma_same_word_is_an_equivalence(
        text::octets("concat"@),
        text::octets("concat"@),
        text::octets("concat"@),
    );
}

/// Formatting undoes parsing up to the spelling of the scheme: a URI that is
/// spelled `concat:` comes back byte for byte. What the parser accepts, the
/// constructor accepts.
pub proof fn lemma_format_undoes_parse(u: Seq<u8>)
    ensures
        parsed(u) matches Ok(s) ==> {
            &&& is_spellable(s)
            &&& spelled(s) == text::octets("concat:"@) + uri::parts(u).1
            &&& parsed(spelled(s)) == Ok::<_, ErrorView>(s)
        },
{
    if let Ok(s) = parsed(u) {
        lemma_join_undoes_cut(uri::parts(u).1);
        assert forall|i: int| 0 <= i < s.len() implies (#[trigger] s[i]).len() > 0
            && !s[i].contains(PIPE) by {}
        lemma_parse_undoes_format(s);
    }
}

} // verus!
