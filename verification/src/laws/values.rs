//! Laws of the values that callers hold: what is seen of them, and what their
//! errors say.
use crate::buffered;
use crate::concat;
use crate::concat::ConcatUri;
use crate::data;
use crate::data::DataUri;
use crate::error::{Error, ErrorKind, ErrorView, IoError};
use crate::laws::grammar;
use crate::laws::paths;
use crate::open;
use crate::open::{Disk, Driver};
use crate::scope;
use crate::scope::{Canonical, Policy};
use crate::slice;
use crate::slice::SliceUri;
use crate::stream;
use crate::stream::{BytesSource, Content, Source};
use crate::sub::SubSource;
use crate::text;
use crate::uri;
use vstd::prelude::*;

verus! {

/// Of a URI that was taken apart, all of its parts are seen, each as it is.
pub proof fn law_parts_are_seen_as_they_are(d: DataUri, s: SliceUri, c: ConcatUri)
    ensures
        d@.mediatype == text::octets(d.mediatype@),
        d@.base64 == d.base64,
        d@.data == d.data@,
        s@.offset == s.offset,
        s@.length == s.length,
        s@.inner == text::octets(s.inner@),
        c@.len() == c.segments@.len(),
        forall|i: int|
            0 <= i < c@.len() ==> #[trigger] c@[i] == text::octets(c.segments@[i]@),
{
}

/// Of an error all is seen, and its line names what went wrong.
pub proof fn law_errors_say_what_they_are(e: IoError, m: String)
    ensures
        e@.kind == e.kind && e@.message == e.message@ && e@.code == e.code,
        Error::Io(e)@ == ErrorView::Io(e@),
        Error::Unsupported(m)@ == ErrorView::Unsupported(m@),
        Error::InvalidData(m)@ == ErrorView::InvalidData(m@),
        ErrorView::Io(e@).line() == "I/O error: "@ + e.message@,
        ErrorView::Unsupported(m@).line() == "unsupported: "@ + m@,
        ErrorView::InvalidData(m@).line() == "invalid data: "@ + m@,
{
}

/// What several streams hold is what each of them holds.
pub proof fn law_contents_are_seen_one_by_one(parts: Seq<Source>, c: Seq<Content>, i: int)
    requires
        0 <= i < parts.len(),
        0 <= i < c.len(),
    ensures
        concat::contents(parts).len() == parts.len(),
        concat::contents(parts)[i] == stream::content(&parts[i]),
        concat::bytes_of(c).len() == c.len(),
        concat::bytes_of(c)[i] == c[i].bytes,
{
}

/// A window takes as much at a time as the stream that it is on.
pub proof fn law_windows_read_like_their_stream(s: SubSource)
    ensures
        s.fills() == s.inner_source().fills(),
        s.is_steady() <==> s.inner_source().is_steady() && s.start() + s.length()
            <= s.inner_source().bytes().len(),
        s.bytes() == s.inner_source().bytes().subrange(
            s.start() as int,
            s.start() + s.length(),
        ),
{
}

/// A URI says `file:` where those five characters come first, in whatever
/// case.
pub proof fn law_uris_that_say_file(u: Seq<u8>)
    ensures
        uri::says_file(u) <==> {
            &&& u.len() >= 5
            &&& forall|i: int|
                0 <= i < 4 ==> grammar::same_but_for_case(
                    #[trigger] u[i],
                    text::octets("file"@)[i],
                )
            &&& u[4] == 0x3a
        },
{
    let file = text::octets("file"@);
    reveal_strlit("file");
    text::lemma_octets_of_ascii("file"@);
    if u.len() >= 5 {
        let word = u.take(4);
        grammar::law_words_are_compared_but_for_case(word, file);
        if uri::same_word(word, file) {
            assert forall|i: int| 0 <= i < 4 implies grammar::same_but_for_case(
                #[trigger] u[i],
                file[i],
            ) by {
                assert(grammar::same_but_for_case(word[i], file[i]));
            }
        }
        if forall|i: int|
            0 <= i < 4 ==> grammar::same_but_for_case(#[trigger] u[i], file[i]) {
            assert forall|i: int| 0 <= i < word.len() implies grammar::same_but_for_case(
                #[trigger] word[i],
                file[i],
            ) by {
                assert(grammar::same_but_for_case(u[i], file[i]));
            }
        }
    }
}

/// What is wrong with a decimal is told: that it is empty, that it holds
/// something else than digits, that it starts with a zero, or that it is too
/// large, in this order.
pub proof fn law_bad_decimals_are_told(b: Seq<u8>)
    ensures
        b.len() == 0 ==> text::number(b) == Err::<u64, _>(
            "cannot parse integer from empty string"@,
        ),
        (exists|i: int| 0 <= i < b.len() && !(0x30 <= #[trigger] b[i] <= 0x39)) ==> text::number(b)
            == Err::<u64, _>("invalid digit found in string"@),
        b.len() > 1 && b[0] == 0x30 && (forall|i: int|
            0 <= i < b.len() ==> 0x30 <= #[trigger] b[i] <= 0x39) ==> text::number(b) == Err::<
            u64,
            _,
        >("leading zero in canonical decimal"@),
        b.len() > 0 && b[0] != 0x30 && (forall|i: int|
            0 <= i < b.len() ==> 0x30 <= #[trigger] b[i] <= 0x39) ==> text::number(b) is Ok
            || text::number(b) == Err::<u64, _>("number too large to fit in target type"@),
{
}

/// What is wrong behind `slice:` is told: no `!`, no `+` before it, a bad
/// offset, a bad length, nothing behind the `!`, in this order.
pub proof fn law_bad_slices_are_told(
    u: Seq<u8>,
    from: Seq<u8>,
    size: Seq<u8>,
    inner: Seq<u8>,
)
    requires
        uri::same_word(uri::parts(u).0, text::octets("slice"@)),
        forall|i: int| 0 <= i < from.len() ==> #[trigger] from[i] != 0x21 && from[i] != 0x2b,
        forall|i: int| 0 <= i < size.len() ==> #[trigger] size[i] != 0x21,
    ensures
        !uri::parts(u).1.contains(0x21) ==> slice::parsed(u) == Err::<slice::SliceParts, _>(
            ErrorView::InvalidData("slice: URI missing '!' separator before inner URI"@),
        ),
        uri::parts(u).1 == from + seq![0x21u8] + inner ==> slice::parsed(u) == Err::<
            slice::SliceParts,
            _,
        >(
            ErrorView::InvalidData(
                "slice: URI range missing '+' between offset and length"@,
            ),
        ),
        uri::parts(u).1 == from + seq![0x2bu8] + size + seq![0x21u8] + inner ==> {
            match (text::number(from), text::number(size)) {
                (Err(m), _) => slice::parsed(u) == Err::<slice::SliceParts, _>(
                    ErrorView::InvalidData(
                        "slice: offset "@ + text::debug_text(text::letters(from))
                            + " is not a non-negative decimal u64: "@ + m,
                    ),
                ),
                (Ok(_), Err(m)) => slice::parsed(u) == Err::<slice::SliceParts, _>(
                    ErrorView::InvalidData(
                        "slice: length "@ + text::debug_text(text::letters(size))
                            + " is not a non-negative decimal u64: "@ + m,
                    ),
                ),
                (Ok(_), Ok(_)) => inner.len() == 0 ==> slice::parsed(u) == Err::<
                    slice::SliceParts,
                    _,
                >(ErrorView::InvalidData("slice: URI inner reference is empty after '!'"@)),
            }
        },
{
    let rest = uri::parts(u).1;
    text::lemma_find(rest, 0x21);
    if !rest.contains(0x21) && text::find(rest, 0x21) < rest.len() {
        assert(rest.contains(rest[text::find(rest, 0x21) as int]));
    }
    if rest == from + seq![0x21u8] + inner {
        let n = from.len() as int;
        assert forall|j: int| 0 <= j < n implies rest[j] != 0x21 by {
            assert(rest[j] == from[j]);
        }
        text::lemma_find_is(rest, 0x21, n);
        assert(rest.take(n) =~= from);
        text::lemma_find_is(from, 0x2b, n);
    }
    if rest == from + seq![0x2bu8] + size + seq![0x21u8] + inner {
        let range = from + seq![0x2bu8] + size;
        let n = range.len() as int;
        let k = from.len() as int;
        assert forall|j: int| 0 <= j < n implies rest[j] != 0x21 by {
            assert(rest[j] == range[j]);
            if j < k {
                assert(rest[j] == from[j]);
            } else if j > k {
                assert(rest[j] == size[j - k - 1]);
            }
        }
        text::lemma_find_is(rest, 0x21, n);
        assert(rest.take(n) =~= range);
        assert(rest.skip(n + 1) =~= inner);
        assert forall|j: int| 0 <= j < k implies range[j] != 0x2b by {
            assert(range[j] == from[j]);
        }
        text::lemma_find_is(range, 0x2b, k);
        assert(range.take(k) =~= from);
        assert(range.skip(k + 1) =~= size);
    }
}

/// What is wrong behind `concat:` is told: nothing there, a segment that is
/// empty, a first segment with `//` in front, in this order.
pub proof fn law_bad_rows_are_told(u: Seq<u8>, s: Seq<Seq<u8>>)
    requires
        uri::same_word(uri::parts(u).0, text::octets("concat"@)),
        s.len() > 0,
        forall|i: int, j: int|
            0 <= i < s.len() && 0 <= j < s[i].len() ==> #[trigger] s[i][j] != 0x7c,
        uri::parts(u).1 == concat::joined(s),
    ensures
        uri::parts(u).1.len() == 0 ==> concat::parsed(u) == Err::<Seq<Seq<u8>>, _>(
            ErrorView::InvalidData("concat: URI requires at least one segment"@),
        ),
        uri::parts(u).1.len() > 0 && (exists|i: int| 0 <= i < s.len() && (#[trigger] s[i]).len()
            == 0) ==> concat::parsed(u) == Err::<Seq<Seq<u8>>, _>(
            ErrorView::InvalidData(
                "concat: URI has an empty segment: "@ + text::debug_text(
                    text::letters(uri::parts(u).1),
                ),
            ),
        ),
        uri::parts(u).1.len() > 0 && (forall|i: int|
            0 <= i < s.len() ==> (#[trigger] s[i]).len() > 0) && grammar::slashes_first(s[0])
            ==> concat::parsed(u) matches Err(ErrorView::InvalidData(_)),
        uri::parts(u).1.len() > 0 && (forall|i: int|
            0 <= i < s.len() ==> (#[trigger] s[i]).len() > 0) && !grammar::slashes_first(s[0])
            ==> concat::parsed(u) == Ok::<_, ErrorView>(s),
{
    assert forall|i: int| 0 <= i < s.len() implies !(#[trigger] s[i]).contains(0x7c) by {
        if s[i].contains(0x7c) {
            let j = choose|j: int| 0 <= j < s[i].len() && s[i][j] == 0x7c;
            assert(s[i][j] != 0x7c);
        }
    }
    concat::lemma_cut_undoes_join(s);
}

/// A URI that is not of the scheme asked for is told so, whole.
pub proof fn law_wrong_schemes_are_told(u: Seq<u8>)
    ensures
        !uri::same_word(uri::parts(u).0, text::octets("data"@)) ==> data::parsed(u) == Err::<
            data::DataParts,
            _,
        >(ErrorView::InvalidData("data driver invoked on non-data URI: "@ + text::letters(u))),
        !uri::same_word(uri::parts(u).0, text::octets("slice"@)) ==> slice::parsed(u) == Err::<
            slice::SliceParts,
            _,
        >(ErrorView::InvalidData("slice driver invoked on non-slice URI: "@ + text::letters(u))),
        !uri::same_word(uri::parts(u).0, text::octets("concat"@)) ==> concat::parsed(u) == Err::<
            Seq<Seq<u8>>,
            _,
        >(
            ErrorView::InvalidData(
                "concat driver invoked on non-concat URI: "@ + text::letters(u),
            ),
        ),
        uri::same_word(uri::parts(u).0, text::octets("data"@)) && !uri::parts(u).1.contains(0x2c)
            ==> data::parsed(u) == Err::<data::DataParts, _>(
            ErrorView::InvalidData("data: URI missing comma separator"@),
        ),
        open::no_driver(u) == ErrorView::Unsupported(
            "no bundled in-process driver for scheme "@ + text::debug_text(
                text::letters(uri::parts(u).0),
            ) + " (URI: "@ + text::letters(u)
                + "); only file/mem/data/slice/concat are dispatchable without a registry"@,
        ),
{
    let rest = uri::parts(u).1;
    text::lemma_find(rest, 0x2c);
    if !rest.contains(0x2c) && text::find(rest, 0x2c) < rest.len() {
        assert(rest.contains(rest[text::find(rest, 0x2c) as int]));
    }
}

/// Whatever a disk and a table hold, a URI of an unknown scheme is unsupported
/// and the error names it.
pub proof fn law_unknown_schemes_are_named(
    u: Seq<u8>,
    table: Map<Seq<char>, Seq<u8>>,
    disk: Disk,
)
    requires
        !uri::same_word(uri::parts(u).0, text::octets("file"@)),
        !uri::same_word(uri::parts(u).0, text::octets("mem"@)),
        !uri::same_word(uri::parts(u).0, text::octets("data"@)),
        !uri::same_word(uri::parts(u).0, text::octets("slice"@)),
        !uri::same_word(uri::parts(u).0, text::octets("concat"@)),
    ensures
        open::stream_of(u, table, disk) == Some(Err::<Content, _>(open::no_driver(u))),
        !open::is_bundled(uri::parts(u).0),
{
}

/// A file is opened by handing its path to the caller's function and its answer
/// back.
pub proof fn law_answers_about_files_are_handed_on<F: Fn(&str) -> Result<Source, IoError>>(
    files: &F,
    u: Seq<u8>,
    r: Result<Source, Error>,
)
    requires
        open::hands_on(files, u, r),
    ensures
        exists|path: &str, answer: Result<Source, IoError>|
            {
                &&& uri::file_path(u) == Ok::<_, ErrorView>(text::octets(path@))
                &&& #[trigger] call_ensures(*files, (path,), answer)
                &&& match answer {
                    Ok(s) => r == Ok::<_, Error>(s),
                    Err(e) => r == Err::<Source, _>(Error::Io(e)),
                }
            },
{
}

/// Under a policy a file is opened only by the handle of a canonical path that
/// the policy admits, found for the path that the URI asks for; and a failure
/// is that of the request, of the policy, or of the opening.
pub proof fn law_files_under_a_policy<
    P,
    C: Fn(&str) -> Result<Canonical<P>, IoError>,
    O: Fn(P) -> Result<Source, IoError>,
>(policy: Policy, u: Seq<u8>, canonicalize: &C, opener: &O, r: Result<Source, Error>)
    requires
        scope::opens_under(policy, u, canonicalize, opener, r),
    ensures
        scope::requested(u) matches Err(e) ==> r matches Err(f) && f@ == e,
        r matches Ok(s) ==> exists|asked: &str, c: Canonical<P>|
            {
                &&& scope::requested(u) == Ok::<_, ErrorView>(text::octets(asked@))
                &&& #[trigger] call_ensures(*canonicalize, (asked,), Ok(c))
                &&& !paths::extends_one(scope::path(c.components@), policy.denies)
                &&& policy.permissive || paths::extends_one(
                    scope::path(c.components@),
                    policy.roots,
                )
                &&& call_ensures(*opener, (c.handle,), Ok(s))
            },
        scope::requested(u) matches Ok(p) ==> (r matches Err(f) ==> exists|
            asked: &str,
            answer: Result<Canonical<P>, IoError>,
        |
            {
                &&& text::octets(asked@) == p
                &&& #[trigger] call_ensures(*canonicalize, (asked,), answer)
                &&& match answer {
                    Err(e) => f@ matches ErrorView::Io(told) && told.kind == e.kind,
                    Ok(c) => {
                        let q = scope::path(c.components@);
                        if paths::extends_one(q, policy.denies) || !(policy.permissive
                            || paths::extends_one(q, policy.roots)) {
                            f@ matches ErrorView::Io(told) && told.kind
                                == ErrorKind::PermissionDenied
                        } else {
                            f matches Error::Io(e) && call_ensures(
                                *opener,
                                (c.handle,),
                                Err(e),
                            )
                        }
                    },
                }
            }),
{
    if let Ok(p) = scope::requested(u) {
        let (asked, answer) = choose|asked: &str, answer: Result<Canonical<P>, IoError>|
            {
                &&& text::octets(asked@) == p
                &&& #[trigger] call_ensures(*canonicalize, (asked,), answer)
                &&& match scope::verdict(policy, asked@, scope::found(answer)) {
                    Err(e) => r matches Err(f) && f@ == e,
                    Ok(c) => {
                        &&& policy.admits(c.components)
                        &&& match r {
                            Ok(s) => call_ensures(*opener, (c.handle,), Ok(s)),
                            Err(Error::Io(e)) => call_ensures(*opener, (c.handle,), Err(e)),
                            Err(_) => false,
                        }
                    },
                }
            };
        assert(call_ensures(*canonicalize, (asked,), answer));
        if let Ok(c) = answer {
            paths::law_paths_that_are_admitted(policy, scope::path(c.components@));
            assert(call_ensures(*canonicalize, (asked,), Ok::<Canonical<P>, IoError>(c)));
        }
    }
}

/// A registry starts with each scheme opened by its own driver.
pub proof fn law_drivers_open_their_schemes()
    ensures
        open::defaults() == seq![
            ("file"@, Driver::File),
            ("mem"@, Driver::Mem),
            ("data"@, Driver::Data),
            ("concat"@, Driver::Concat),
            ("slice"@, Driver::Slice),
        ],
{
}

/// What a prefetching source starts from unless it is told otherwise: a ring of
/// a mebibyte, blocks of a quarter of that, half a minute, an eighth kept.
pub proof fn law_default_tunables()
    ensures
        buffered::DEFAULT_CAPACITY == 1_048_576,
        buffered::DEFAULT_BLOCK == 262_144,
        buffered::DEFAULT_PREFETCH_TIMEOUT == 30_000_000_000,
        buffered::DEFAULT_LOOKBACK_NUM == 1,
        buffered::DEFAULT_LOOKBACK_DEN == 8,
{
}

} // verus!
