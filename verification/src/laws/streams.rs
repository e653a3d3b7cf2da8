//! Laws of streams: what reads and seeks do, and what windows and rows show.
use crate::concat;
use crate::error::{ErrorKind, ErrorView, IoError};
use crate::stream;
use crate::stream::{BytesSource, Content, SeekFrom};
use crate::sub;
use crate::text;
use vstd::prelude::*;

verus! {

/// A read hands over the bytes at the cursor, one by one, leaves the rest of
/// the buffer alone, and moves the cursor by as many. It hands over none only
/// where there is no room or no byte.
pub proof fn law_reads_hand_over_what_comes_next(
    bytes: Seq<u8>,
    pos: nat,
    before: Seq<u8>,
    n: usize,
    after: Seq<u8>,
    pos_after: nat,
)
    ensures
        stream::reads(bytes, pos, before, n, after, pos_after) <==> {
            &&& n <= before.len()
            &&& after.len() == before.len()
            &&& n == 0 <==> before.len() == 0 || pos >= bytes.len()
            &&& n > 0 ==> pos + n <= bytes.len()
            &&& forall|i: int| 0 <= i < n ==> #[trigger] after[i] == bytes[pos + i]
            &&& forall|i: int| n <= i < before.len() ==> #[trigger] after[i] == before[i]
            &&& pos_after == pos + n
        },
{
    if n > 0 && n <= before.len() && pos + n <= bytes.len() {
        let want = bytes.subrange(pos as int, pos + n) + before.skip(n as int);
        assert forall|i: int| 0 <= i < n implies #[trigger] want[i] == bytes[pos + i] by {}
        assert forall|i: int| n <= i < before.len() implies #[trigger] want[i] == before[i] by {}
        if after.len() == before.len() && (forall|i: int|
            0 <= i < n ==> #[trigger] after[i] == bytes[pos + i]) && (forall|i: int|
            n <= i < before.len() ==> #[trigger] after[i] == before[i]) {
            assert(after =~= want);
        }
    } else if n == 0 && after.len() == before.len() && (forall|i: int|
        n <= i < before.len() ==> #[trigger] after[i] == before[i]) {
        assert(after =~= before);
    }
}

/// A seek counts from the start, the cursor or the end, goes there if there is
/// such a position, past the end too, and else fails and stays.
pub proof fn law_seeks_go_where_they_say(
    len: nat,
    pos: nat,
    n: u64,
    d: i64,
    from: SeekFrom,
    r: Result<u64, IoError>,
    pos_after: nat,
)
    ensures
        SeekFrom::Start(n).target(len as int, pos as int) == n,
        SeekFrom::Current(d).target(len as int, pos as int) == pos + d,
        SeekFrom::End(d).target(len as int, pos as int) == len + d,
        stream::seeks(len, pos, from, r, pos_after) <==> {
            let to = from.target(len as int, pos as int);
            if 0 <= to <= u64::MAX {
                (r matches Ok(p) && p == to) && pos_after == to
            } else {
                (r matches Err(e) && e@.kind == ErrorKind::InvalidInput) && pos_after == pos
            }
        },
{
}

/// The content of a stream is its bytes and its failures, and nothing fails in
/// sound content.
pub proof fn law_content_is_bytes_and_failures<S: BytesSource + ?Sized>(
    s: &S,
    b: Seq<u8>,
    at: nat,
)
    ensures
        stream::content(s).bytes == s.bytes(),
        stream::content(s).read_fault(at) == s.read_fault(at),
        stream::content(s).seek_fault(at) == s.seek_fault(at),
        Content::sound(b).bytes == b,
        Content::sound(b).read_fault(at) is None,
        Content::sound(b).seek_fault(at) is None,
{
}

/// To reach a byte is to seek there and read: the seek fails first. To find the
/// length is to go where the cursor is and then to the end.
pub proof fn law_reaching_fails_as_its_steps_do(c: Content, at: nat)
    ensures
        c.reach_fault(at) == if c.seek_fault(at) is Some {
            c.seek_fault(at)
        } else {
            c.read_fault(at)
        },
        c.length_fault(at) == if c.seek_fault(at) is Some {
            c.seek_fault(at)
        } else {
            c.seek_fault(c.bytes.len())
        },
{
}

/// A window opens exactly where it ends inside a stream that can be asked for
/// its length and moved to the start of the window. It shows the bytes that
/// lie in it, each with the failure of reaching it.
pub proof fn law_windows_show_what_lies_in_them(c: Content, base: u64, len: u64)
    ensures
        match sub::windowed(c, base, len) {
            Ok(w) => {
                &&& base + len <= u64::MAX
                &&& c.seek_fault(0) is None
                &&& c.seek_fault(c.bytes.len()) is None
                &&& base + len <= c.bytes.len()
                &&& c.seek_fault(base as nat) is None
                &&& w.bytes.len() == len
                &&& forall|i: int| 0 <= i < len ==> #[trigger] w.bytes[i] == c.bytes[base + i]
                &&& forall|at: nat| #[trigger]
                    w.read_fault(at) == if at >= len {
                        None
                    } else if c.seek_fault(base as nat + at) is Some {
                        c.seek_fault(base as nat + at)
                    } else {
                        c.read_fault(base as nat + at)
                    }
                &&& forall|to: nat| (#[trigger] w.seek_fault(to)) is None
            },
            Err(e) => {
                &&& e is InvalidData
                &&& base + len > u64::MAX || c.seek_fault(0) is Some || c.seek_fault(
                    c.bytes.len(),
                ) is Some || base + len > c.bytes.len() || c.seek_fault(base as nat) is Some
            },
        },
{
    if let Ok(w) = sub::windowed(c, base, len) {
        assert forall|at: nat| #[trigger]
            w.read_fault(at) == if at >= len {
                None
            } else if c.seek_fault(base as nat + at) is Some {
                c.seek_fault(base as nat + at)
            } else {
                c.read_fault(base as nat + at)
            } by {
            assert(w.read_fault(at) == if at < len {
                c.reach_fault(base as nat + at)
            } else {
                None
            });
        }
    }
}

/// Why a window does not open is told by the first thing that goes wrong, in
/// this order.
pub proof fn law_windows_tell_what_went_wrong_first(c: Content, pos: nat, base: u64, len: u64)
    ensures
        sub::setup_fault(c, pos, base, len) == if base + len > u64::MAX {
            Some(ErrorView::InvalidData("SubSource: base + len overflows u64"@))
        } else if let Some(e) = c.seek_fault(pos) {
            Some(ErrorView::InvalidData("SubSource: cannot probe inner length: "@ + e.message))
        } else if let Some(e) = c.seek_fault(c.bytes.len()) {
            Some(ErrorView::InvalidData("SubSource: cannot probe inner length: "@ + e.message))
        } else if base + len > c.bytes.len() {
            Some(
                ErrorView::InvalidData(
                    "SubSource: window ["@ + text::letters(text::decimal(base as nat)) + ", "@
                        + text::letters(text::decimal((base + len) as nat))
                        + ") extends past inner length "@ + text::letters(
                        text::decimal(c.bytes.len()),
                    ),
                ),
            )
        } else if let Some(e) = c.seek_fault(base as nat) {
            Some(
                ErrorView::InvalidData(
                    "SubSource: cannot seek inner to "@ + text::letters(
                        text::decimal(base as nat),
                    ) + ": "@ + e.message,
                ),
            )
        } else {
            None
        },
{
}

/// A row grows at its end: what was there stays as it was, and behind it come
/// the bytes of the new part, each with the failure of reaching it.
pub proof fn law_rows_grow_at_their_end(c: Seq<Content>, x: Content, at: nat)
    ensures
        concat::row(Seq::empty()).bytes == Seq::<u8>::empty(),
        concat::row(c.push(x)).bytes == concat::row(c).bytes + x.bytes,
        at < concat::row(c).bytes.len() ==> concat::row(c.push(x)).read_fault(at)
            == concat::row(c).read_fault(at),
        concat::row(c).bytes.len() <= at < concat::row(c.push(x)).bytes.len() ==> {
            let p = (at - concat::row(c).bytes.len()) as nat;
            concat::row(c.push(x)).read_fault(at) == if x.seek_fault(p) is Some {
                x.seek_fault(p)
            } else {
                x.read_fault(p)
            }
        },
        at >= concat::row(c).bytes.len() ==> concat::row(c).read_fault(at) is None,
        concat::row(c).seek_fault(at) is None,
{
    let b = concat::bytes_of(c);
    let more = concat::bytes_of(c.push(x));
    assert(more.drop_last() =~= b);
    assert(concat::bytes_of(Seq::<Content>::empty()) =~= Seq::<Seq<u8>>::empty());
    let old_len = concat::concatenated(b).len();
    let new_len = concat::concatenated(more).len();
    assert(new_len == old_len + x.bytes.len());
    if at < old_len {
        concat::lemma_part_at(b, at as int);
        let k = concat::part_at(b, at as int);
        assert(more.take(k) =~= b.take(k));
        assert(more.take(k + 1) =~= b.take(k + 1));
        concat::lemma_part_is(more, at as int, k);
        assert(c.push(x)[k] == c[k]);
    } else if at < new_len {
        let k = c.len() as int;
        assert(more.take(k) =~= b);
        assert(more.take(k + 1) =~= more);
        concat::lemma_part_is(more, at as int, k);
        assert(c.push(x)[k] == x);
    }
}

/// True iff each of the first `k` streams can be asked for its length and all
/// of them together are not too long.
pub open spec fn fit_together(c: Seq<Content>, k: int) -> bool {
    forall|j: int|
        0 <= j < k ==> (#[trigger] c[j]).seek_fault(c[j].bytes.len()) is None && concat::row(
            c.take(j + 1),
        ).bytes.len() <= u64::MAX
}

/// Why streams cannot be put in a row is told by the first that cannot be asked
/// for its length or makes the row too long, and then by the first of all, if
/// it cannot go back to its start. Else they make a row.
pub proof fn law_rows_tell_what_went_wrong_first(c: Seq<Content>, k: int)
    requires
        0 <= k <= c.len(),
        fit_together(c, k),
    ensures
        k < c.len() && c[k].seek_fault(c[k].bytes.len()) is Some ==> concat::in_a_row(c) == Err::<
            Content,
            _,
        >(ErrorView::Io(c[k].seek_fault(c[k].bytes.len())->0)),
        k < c.len() && c[k].seek_fault(c[k].bytes.len()) is None && concat::row(
            c.take(k + 1),
        ).bytes.len() > u64::MAX ==> concat::in_a_row(c) == Err::<Content, _>(
            ErrorView::InvalidData("concat: total length overflows u64"@),
        ),
        k == c.len() && c.len() > 0 && c[0].seek_fault(0) is Some ==> concat::in_a_row(c) == Err::<
            Content,
            _,
        >(ErrorView::Io(c[0].seek_fault(0)->0)),
        k == c.len() && (c.len() == 0 || c[0].seek_fault(0) is None) ==> concat::in_a_row(c)
            == Ok::<_, ErrorView>(concat::row(c)),
{
    lemma_fault_after(c, k);
    if k < c.len() {
        assert(concat::bytes_of(c).take(k + 1) =~= concat::bytes_of(c.take(k + 1)));
    }
}

proof fn lemma_fault_after(c: Seq<Content>, k: int)
    requires
        0 <= k <= c.len(),
        fit_together(c, k),
    ensures
        concat::row_fault(c, 0) == concat::row_fault(c, k),
    decreases k,
{
    if k > 0 {
        lemma_fault_after(c, k - 1);
        assert(c[k - 1].seek_fault(c[k - 1].bytes.len()) is None);
        assert(concat::bytes_of(c).take(k) =~= concat::bytes_of(c.take(k)));
    }
}

} // verus!
