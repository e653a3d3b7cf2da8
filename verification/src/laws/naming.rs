//! Laws of what URIs name: ids in a table, windows, rows, files.
use crate::concat;
use crate::data;
use crate::error::{Error, ErrorKind, ErrorView, IoError, IoErrorView};
use crate::laws::grammar;
use crate::mem;
use crate::open;
use crate::open::Disk;
use crate::slice;
use crate::slice::SliceParts;
use crate::stream;
use crate::stream::{BytesSource, Content, Source};
use crate::sub;
use crate::text;
use crate::uri;
use vstd::prelude::*;

verus! {

/// An id opens what is under it in the table. Only no id at all and an id with
/// a `/` in it are refused, and one that is not there is not found.
pub proof fn law_ids_name_what_is_under_them(
    u: Seq<u8>,
    id: Seq<char>,
    table: Map<Seq<char>, Seq<u8>>,
)
    requires
        uri::same_word(uri::parts(u).0, text::octets("mem"@)),
        uri::parts(u).1 == text::octets(id),
    ensures
        mem::named(u, table) == if id.len() == 0 {
            Err(ErrorView::InvalidData("mem:// URI requires a non-empty id"@))
        } else if exists|i: int| 0 <= i < text::octets(id).len() && text::octets(id)[i] == 0x2f {
            Err(ErrorView::InvalidData("mem:// id must not contain '/': "@ + id))
        } else if table.contains_key(id) {
            Ok::<_, ErrorView>(table[id])
        } else {
            Err(
                ErrorView::Io(
                    IoErrorView {
                        kind: ErrorKind::NotFound,
                        message: "mem:// id '"@ + id + "' is not registered"@,
                        code: None,
                    },
                ),
            )
        },
{
    text::lemma_letters_of_octets(id);
    let none = Seq::<char>::empty();
    if id.len() == 0 {
        assert(id =~= none);
        assert(text::octets(none) =~= Seq::<u8>::empty());
    } else if text::octets(id).len() == 0 {
        assert(text::octets(none) =~= text::octets(id));
        text::lemma_same_octets(id, none);
    }
}

/// What is put under an id is what the URI `mem://` and the id opens, and the
/// URI `mem:` and the id as well.
pub proof fn law_what_is_put_is_opened(
    id: Seq<char>,
    bytes: Seq<u8>,
    table: Map<Seq<char>, Seq<u8>>,
    disk: Disk,
)
    requires
        id.len() > 0,
        forall|i: int| 0 <= i < text::octets(id).len() ==> text::octets(id)[i] != 0x2f,
    ensures
        mem::named(text::octets("mem://"@) + text::octets(id), table.insert(id, bytes)) == Ok::<
            _,
            ErrorView,
        >(bytes),
        mem::named(text::octets("mem:"@) + text::octets(id), table.insert(id, bytes)) == Ok::<
            _,
            ErrorView,
        >(bytes),
        open::stream_of(
            text::octets("mem://"@) + text::octets(id),
            table.insert(id, bytes),
            disk,
        ) == Some(Ok::<_, ErrorView>(Content::sound(bytes))),
{
    let word = text::octets("mem"@);
    let b = text::octets(id);
    let slashes = seq![0x2fu8, 0x2f];
    let long = text::octets("mem://"@) + b;
    let short = text::octets("mem:"@) + b;
    reveal_strlit("mem");
    reveal_strlit("mem:");
    reveal_strlit("mem://");
    text::lemma_octets_of_ascii("mem"@);
    text::lemma_octets_of_ascii("mem:"@);
    text::lemma_octets_of_ascii("mem://"@);
    assert(grammar::names_a_scheme(word));
    assert(long =~= word.push(0x3a) + (slashes + b));
    assert(short =~= word.push(0x3a) + b);
    grammar::law_schemes_come_apart(word, slashes + b);
    grammar::law_schemes_come_apart(word, b);
    assert((slashes + b).skip(2) =~= b);
    uri::lemma_same_word_is_an_equivalence(word, word, word);
    law_ids_name_what_is_under_them(long, id, table.insert(id, bytes));
    law_ids_name_what_is_under_them(short, id, table.insert(id, bytes));
    law_schemes_decide_who_opens(long, table.insert(id, bytes), disk);
}

/// A URI of another scheme names nothing in a table.
pub proof fn law_other_schemes_name_no_ids(u: Seq<u8>, table: Map<Seq<char>, Seq<u8>>)
    requires
        !uri::same_word(uri::parts(u).0, text::octets("mem"@)),
    ensures
        mem::named(u, table) == Err::<Seq<u8>, _>(
            ErrorView::InvalidData("mem driver invoked on non-mem URI: "@ + text::letters(u)),
        ),
{
}

/// A `slice:` URI says an offset, a length and an inner reference exactly where
/// it spells them: two decimals, `+` between them, `!` and the reference.
pub proof fn law_slices_are_read_as_spelled(u: Seq<u8>, s: SliceParts)
    ensures
        slice::parsed(u) == Ok::<_, ErrorView>(s) <==> {
            &&& uri::same_word(uri::parts(u).0, text::octets("slice"@))
            &&& s.inner.len() > 0
            &&& uri::parts(u).1 == text::decimal(s.offset as nat) + seq![0x2bu8] + text::decimal(
                s.length as nat,
            ) + seq![0x21u8] + s.inner
        },
        slice::parsed(u) matches Err(e) ==> e is InvalidData,
{
    let rest = uri::parts(u).1;
    let spelled = text::decimal(s.offset as nat) + seq![0x2bu8] + text::decimal(s.length as nat)
        + seq![0x21u8] + s.inner;
    assert(s.tail() =~= spelled);
    slice::lemma_format_undoes_parse(u);
    if slice::parsed(u) == Ok::<_, ErrorView>(s) {
        let head = text::octets("slice:"@);
        assert(s.spelled() == head + s.tail());
        assert((head + s.tail()).skip(head.len() as int) =~= s.tail());
        assert((head + rest).skip(head.len() as int) =~= rest);
    }
    if uri::same_word(uri::parts(u).0, text::octets("slice"@)) && s.inner.len() > 0 && rest
        == spelled {
        slice::lemma_header_of_tail(s);
    }
}

/// A slice is spelled as it is read, and its inner reference is refused only
/// where there is none or where it holds a `!`.
pub proof fn law_slices_are_spelled_part_by_part(s: SliceParts)
    ensures
        s.spelled() == text::octets("slice:"@) + text::decimal(s.offset as nat) + text::octets(
            "+"@,
        ) + text::decimal(s.length as nat) + text::octets("!"@) + s.inner,
        slice::refused_inner(s.inner) is None <==> s.inner.len() > 0 && forall|i: int|
            0 <= i < s.inner.len() ==> s.inner[i] != 0x21,
        slice::refused_inner(s.inner) matches Some(e) ==> e is InvalidData,
{
    reveal_strlit("+");
    reveal_strlit("!");
    text::lemma_octets_of_ascii("+"@);
    text::lemma_octets_of_ascii("!"@);
    assert(s.spelled() =~= text::octets("slice:"@) + text::decimal(s.offset as nat)
        + text::octets("+"@) + text::decimal(s.length as nat) + text::octets("!"@) + s.inner);
    if s.inner.len() > 0 && slice::refused_inner(s.inner) is None {
        assert forall|i: int| 0 <= i < s.inner.len() implies s.inner[i] != 0x21 by {
            assert(s.inner.contains(s.inner[i]));
        }
    }
}

/// Segments are joined by a `|` between any two of them.
pub proof fn law_segments_are_joined_by_bars(first: Seq<u8>, more: Seq<Seq<u8>>)
    ensures
        concat::joined(seq![first]) == first,
        more.len() > 0 ==> concat::joined(seq![first] + more) == first + seq![0x7cu8]
            + concat::joined(more),
        concat::spelled(more) == text::octets("concat:"@) + concat::joined(more),
{
    let s = seq![first] + more;
    assert(s.drop_first() =~= more);
    assert(first.push(0x7c) + concat::joined(more) =~= first + seq![0x7cu8] + concat::joined(more));
}

/// True iff segments can be told apart in a URI: there are some, none is empty
/// or holds a `|`, and the first does not start with `//`.
pub open spec fn can_be_told_apart(s: Seq<Seq<u8>>) -> bool {
    &&& s.len() > 0
    &&& forall|i: int| 0 <= i < s.len() ==> (#[trigger] s[i]).len() > 0
    &&& forall|i: int, j: int|
        0 <= i < s.len() && 0 <= j < s[i].len() ==> #[trigger] s[i][j] != 0x7c
    &&& !grammar::slashes_first(s[0])
}

proof fn lemma_told_apart(s: Seq<Seq<u8>>)
    ensures
        can_be_told_apart(s) <==> concat::is_spellable(s),
{
    if can_be_told_apart(s) {
        assert forall|i: int| 0 <= i < s.len() implies (#[trigger] s[i]).len() > 0
            && !s[i].contains(0x7c) by {
            if s[i].contains(0x7c) {
                let j = choose|j: int| 0 <= j < s[i].len() && s[i][j] == 0x7c;
                assert(s[i][j] != 0x7c);
            }
        }
    }
    if concat::is_spellable(s) {
        assert forall|i: int, j: int|
            0 <= i < s.len() && 0 <= j < s[i].len() implies #[trigger] s[i][j] != 0x7c by {
            assert(!s[i].contains(0x7c));
            assert(s[i].contains(s[i][j]));
        }
    }
}

/// A `concat:` URI says segments exactly where it spells them, and the
/// constructor takes exactly those that a URI can say.
pub proof fn law_rows_are_read_as_spelled(u: Seq<u8>, s: Seq<Seq<u8>>)
    ensures
        concat::parsed(u) == Ok::<_, ErrorView>(s) <==> {
            &&& uri::same_word(uri::parts(u).0, text::octets("concat"@))
            &&& can_be_told_apart(s)
            &&& uri::parts(u).1 == concat::joined(s)
        },
        concat::parsed(u) matches Err(e) ==> e is InvalidData,
        concat::unspellable(s) is None <==> can_be_told_apart(s),
{
    let rest = uri::parts(u).1;
    lemma_told_apart(s);
    concat::lemma_constructor_is_exact(s);
    if concat::parsed(u) == Ok::<_, ErrorView>(s) {
        concat::lemma_format_undoes_parse(u);
        concat::lemma_join_undoes_cut(rest);
    }
    if uri::same_word(uri::parts(u).0, text::octets("concat"@)) && concat::is_spellable(s) && rest
        == concat::joined(s) {
        concat::lemma_cut_undoes_join(s);
        concat::lemma_segment_fits(s, 0);
        assert(!concat::has_empty(s)) by {
            if concat::has_empty(s) {
                let i = choose|i: int| 0 <= i < s.len() && (#[trigger] s[i]).len() == 0;
                assert(s[i].len() > 0);
            }
        }
    }
}

/// The scheme, in whatever case, decides who opens a URI; what no one opens is
/// unsupported.
pub proof fn law_schemes_decide_who_opens(
    u: Seq<u8>,
    table: Map<Seq<char>, Seq<u8>>,
    disk: Disk,
)
    ensures
        ({
            let scheme = uri::parts(u).0;
            let o = open::stream_of(u, table, disk);
            &&& uri::same_word(scheme, text::octets("file"@)) ==> o == open::file_of(u, disk)
            &&& uri::same_word(scheme, text::octets("mem"@)) ==> match mem::named(u, table) {
                Ok(b) => o == Some(Ok::<_, ErrorView>(Content::sound(b))),
                Err(e) => o == Some(Err::<Content, _>(e)),
            }
            &&& uri::same_word(scheme, text::octets("data"@)) ==> match data::parsed(u) {
                Ok(d) => o == Some(Ok::<_, ErrorView>(Content::sound(d.data))),
                Err(e) => o == Some(Err::<Content, _>(e)),
            }
            &&& uri::same_word(scheme, text::octets("slice"@)) ==> match slice::parsed(u) {
                Ok(s) => o == open::window_of(s, table, disk),
                Err(e) => o == Some(Err::<Content, _>(e)),
            }
            &&& uri::same_word(scheme, text::octets("concat"@)) ==> match concat::parsed(u) {
                Ok(s) => o == open::row_of(s, table, disk),
                Err(e) => o == Some(Err::<Content, _>(e)),
            }
            &&& !uri::same_word(scheme, text::octets("file"@)) && !uri::same_word(
                scheme,
                text::octets("mem"@),
            ) && !uri::same_word(scheme, text::octets("data"@)) && !uri::same_word(
                scheme,
                text::octets("slice"@),
            ) && !uri::same_word(scheme, text::octets("concat"@)) ==> o matches Some(
                Err(ErrorView::Unsupported(_)),
            )
        }),
{
    open::lemma_words_differ(uri::parts(u).0);
}

/// A file URI opens what stands at its path, or fails as that does, or as the
/// path itself.
pub proof fn law_files_are_opened_at_their_paths(u: Seq<u8>, disk: Disk)
    ensures
        open::is_file(u) <==> uri::same_word(uri::parts(u).0, text::octets("file"@)),
        open::is_file(u) ==> match uri::file_path(u) {
            Err(e) => open::file_of(u, disk) == Some(Err::<Content, _>(e)),
            Ok(p) => match disk(p) {
                None => open::file_of(u, disk) is None,
                Some(Ok(c)) => open::file_of(u, disk) == Some(Ok::<_, ErrorView>(c)),
                Some(Err(e)) => open::file_of(u, disk) == Some(
                    Err::<Content, _>(ErrorView::Io(e)),
                ),
            },
        },
        !open::is_file(u) ==> open::file_of(u, disk) == Some(
            Err::<Content, _>(
                ErrorView::InvalidData(
                    "file driver invoked on non-file URI: "@ + text::letters(u),
                ),
            ),
        ),
{
}

/// A slice opens the window on what its inner reference opens, and fails as
/// that does.
pub proof fn law_slices_open_windows(
    s: SliceParts,
    table: Map<Seq<char>, Seq<u8>>,
    disk: Disk,
)
    ensures
        match open::stream_of(s.inner, table, disk) {
            None => open::window_of(s, table, disk) is None,
            Some(Err(e)) => open::window_of(s, table, disk) == Some(Err::<Content, _>(e)),
            Some(Ok(c)) => open::window_of(s, table, disk) == Some(
                sub::windowed(c, s.offset, s.length),
            ),
        },
{
}

/// A segment opens what it opens alone, unless it is a row itself: rows do not
/// nest.
pub proof fn law_segments_open_as_alone(
    segment: Seq<u8>,
    table: Map<Seq<char>, Seq<u8>>,
    disk: Disk,
)
    ensures
        uri::same_word(uri::parts(segment).0, text::octets("concat"@)) ==> open::segment_of(
            segment,
            table,
            disk,
        ) matches Some(Err(ErrorView::InvalidData(_))),
        !uri::same_word(uri::parts(segment).0, text::octets("concat"@)) ==> open::segment_of(
            segment,
            table,
            disk,
        ) == open::stream_of(segment, table, disk),
{
}

/// What files are known to be is what they turn out to be: a stream at its
/// start with the bytes and the failures that are known, or the known error.
pub proof fn law_known_files_are_as_known<F: Fn(&str) -> Result<Source, IoError>>(
    files: &F,
    disk: Disk,
)
    ensures
        open::conforms(files, disk) <==> forall|p: &str, r: Result<Source, IoError>| #[trigger]
            call_ensures(*files, (p,), r) ==> match disk(text::octets(p@)) {
                None => true,
                Some(Err(v)) => r matches Err(e) && e@ == v,
                Some(Ok(c)) => {
                    &&& r matches Ok(s)
                    &&& s.is_steady()
                    &&& s.pos() == 0
                    &&& stream::content(&s) == c
                },
            },
        open::callable(files) <==> forall|p: &str| #[trigger] call_requires(*files, (p,)),
{
}

/// What is opened is what was to be expected: a stream at its start with just
/// those bytes and failures, or the error.
pub proof fn law_what_opens_is_as_expected(r: Result<Source, Error>, o: open::Outcome)
    requires
        open::opens_as(r, o),
    ensures
        o matches Some(Err(v)) ==> r matches Err(e) && e@ == v,
        o matches Some(Ok(c)) ==> {
            &&& r matches Ok(s)
            &&& s.is_steady()
            &&& s.pos() == 0
            &&& s.bytes() == c.bytes
            &&& forall|at: nat| #[trigger] s.read_fault(at) == (c.read_faults)(at)
            &&& forall|to: nat| #[trigger] s.seek_fault(to) == (c.seek_faults)(to)
        },
{
    if let Some(Ok(c)) = o {
        if let Ok(s) = r {
            assert forall|at: nat| #[trigger] s.read_fault(at) == (c.read_faults)(at) by {
                assert((stream::content(&s).read_faults)(at) == s.read_fault(at));
            }
            assert forall|to: nat| #[trigger] s.seek_fault(to) == (c.seek_faults)(to) by {
                assert((stream::content(&s).seek_faults)(to) == s.seek_fault(to));
            }
        }
    }
}

} // verus!
