//! What a URI opens: the five schemes, and how they nest.
//!
//! Files are reached through a function that the caller hands in. What such a
//! function answers is described by a [`Disk`], which may leave paths open; a
//! URI whose outcome does not depend on such a path has a fixed outcome.
use crate::concat;
use crate::data;
use crate::error::{Error, ErrorView, IoError, IoErrorView};
use crate::mem::MemTable;
use crate::mem;
use crate::slice::SliceParts;
use crate::slice;
use crate::stream;
use crate::stream::{BytesSource, Content, Source};
use crate::sub;
use crate::text;
use crate::uri;
use vstd::prelude::*;
use vstd::string::StringExecFns;

verus! {

/// What is known of files: what a path holds and where that fails, the failure
/// to open it, or nothing.
pub type Disk = spec_fn(Seq<u8>) -> Option<Result<Content, IoErrorView>>;

/// What opening gives: a stream or an error, or nothing that is known.
pub type Outcome = Option<Result<Content, ErrorView>>;

/// True iff `files` may be called on any path.
pub open spec fn callable<F: Fn(&str) -> Result<Source, IoError>>(files: &F) -> bool {
    forall|p: &str| #[trigger] call_requires(*files, (p,))
}

/// True iff what `files` answers agrees with what is known.
pub open spec fn conforms<F: Fn(&str) -> Result<Source, IoError>>(files: &F, disk: Disk) -> bool {
    forall|p: &str, r: Result<Source, IoError>| #[trigger]
        call_ensures(*files, (p,), r) ==> match disk(text::octets(p@)) {
            None => true,
            Some(Ok(c)) => {
                &&& r matches Ok(s)
                &&& s.is_steady()
                &&& stream::content(&s) == c
                &&& s.pos() == 0
            },
            Some(Err(v)) => {
                &&& r matches Err(e)
                &&& e@ == v
            },
        }
}

/// True iff a result is what was to be expected: a steady stream that holds
/// and fails as it should, at its start, or the error.
pub open spec fn opens_as(r: Result<Source, Error>, o: Outcome) -> bool {
    match o {
        None => true,
        Some(Ok(c)) => {
            &&& r matches Ok(s)
            &&& s.is_steady()
            &&& stream::content(&s) == c
            &&& s.pos() == 0
        },
        Some(Err(v)) => {
            &&& r matches Err(e)
            &&& e@ == v
        },
    }
}

/// True iff a URI is of the `file` scheme.
pub open spec fn is_file(u: Seq<u8>) -> bool {
    uri::same_word(uri::parts(u).0, text::octets("file"@))
}

/// What a URI of the `file` scheme opens.
pub open spec fn file_of(u: Seq<u8>, disk: Disk) -> Outcome {
    if !is_file(u) {
        Some(
            Err(
                ErrorView::InvalidData(
                    "file driver invoked on non-file URI: "@ + text::letters(u),
                ),
            ),
        )
    } else {
        match uri::file_path(u) {
            Err(e) => Some(Err(e)),
            Ok(path) => match disk(path) {
                None => None,
                Some(Ok(c)) => Some(Ok(c)),
                Some(Err(e)) => Some(Err(ErrorView::Io(e))),
            },
        }
    }
}

/// True iff a result is what `files` answered for the path of a URI.
pub open spec fn hands_on<F: Fn(&str) -> Result<Source, IoError>>(
    files: &F,
    u: Seq<u8>,
    r: Result<Source, Error>,
) -> bool {
    exists|path: &str, answer: Result<Source, IoError>|
        {
            &&& uri::file_path(u) == Ok::<_, ErrorView>(text::octets(path@))
            &&& #[trigger] call_ensures(*files, (path,), answer)
            &&& match answer {
                Ok(s) => r == Ok::<_, Error>(s),
                Err(e) => r == Err::<Source, _>(Error::Io(e)),
            }
        }
}

/// What a `slice:` URI opens: the window on what its inner reference opens.
pub open spec fn window_of(s: SliceParts, table: Map<Seq<char>, Seq<u8>>, disk: Disk) -> Outcome
    decreases s.inner.len(), 3nat, 0nat,
{
    match stream_of(s.inner, table, disk) {
        Some(Ok(c)) => Some(sub::windowed(c, s.offset, s.length)),
        o => o,
    }
}

/// What a segment of a `concat:` URI opens.
pub open spec fn segment_of(
    segment: Seq<u8>,
    table: Map<Seq<char>, Seq<u8>>,
    disk: Disk,
) -> Outcome
    decreases segment.len(), 2nat, 0nat,
{
    if uri::same_word(uri::parts(segment).0, text::octets("concat"@)) {
        Some(Err(concat::nested(segment)))
    } else {
        stream_of(segment, table, disk)
    }
}

/// What the segments of a `concat:` URI open, from the `k`th on. The first
/// that does not open decides.
pub open spec fn segments_of(
    s: Seq<Seq<u8>>,
    k: int,
    table: Map<Seq<char>, Seq<u8>>,
    disk: Disk,
) -> Option<Result<Seq<Content>, ErrorView>>
    decreases concat::joined(s).len(), 3nat, s.len() - k,
{
    if k < 0 || k >= s.len() {
        Some(Ok(Seq::empty()))
    } else {
        proof {
            concat::lemma_segment_fits(s, k);
        }
        match segment_of(s[k], table, disk) {
            None => None,
            Some(Err(e)) => Some(Err(e)),
            Some(Ok(c)) => preceded(seq![c], segments_of(s, k + 1, table, disk)),
        }
    }
}

/// Streams, followed by what the rest opens.
pub open spec fn preceded(
    front: Seq<Content>,
    rest: Option<Result<Seq<Content>, ErrorView>>,
) -> Option<Result<Seq<Content>, ErrorView>> {
    match rest {
        Some(Ok(r)) => Some(Ok(front + r)),
        o => o,
    }
}

/// What a `concat:` URI opens: what its segments open, in a row.
pub open spec fn row_of(s: Seq<Seq<u8>>, table: Map<Seq<char>, Seq<u8>>, disk: Disk) -> Outcome
    decreases concat::joined(s).len(), 4nat, 0nat,
{
    match segments_of(s, 0, table, disk) {
        None => None,
        Some(Err(e)) => Some(Err(e)),
        Some(Ok(c)) => Some(concat::in_a_row(c)),
    }
}

/// The error for a scheme without a driver.
pub open spec fn no_driver(u: Seq<u8>) -> ErrorView {
    ErrorView::Unsupported(
        "no bundled in-process driver for scheme "@ + text::shown(uri::parts(u).0) + " (URI: "@
            + text::letters(u)
            + "); only file/mem/data/slice/concat are dispatchable without a registry"@,
    )
}

/// What a URI opens.
pub open spec fn stream_of(u: Seq<u8>, table: Map<Seq<char>, Seq<u8>>, disk: Disk) -> Outcome
    decreases u.len(), 1nat, 0nat,
{
    let scheme = uri::parts(u).0;
    if is_file(u) {
        file_of(u, disk)
    } else if uri::same_word(scheme, text::octets("mem"@)) {
        match mem::named(u, table) {
            Ok(b) => Some(Ok(Content::sound(b))),
            Err(e) => Some(Err(e)),
        }
    } else if uri::same_word(scheme, text::octets("data"@)) {
        match data::parsed(u) {
            Ok(d) => Some(Ok(Content::sound(d.data))),
            Err(e) => Some(Err(e)),
        }
    } else if uri::same_word(scheme, text::octets("slice"@)) {
        proof {
            slice::lemma_inner_is_shorter(u);
        }
        match slice::parsed(u) {
            Ok(s) => window_of(s, table, disk),
            Err(e) => Some(Err(e)),
        }
    } else if uri::same_word(scheme, text::octets("concat"@)) {
        proof {
            concat::lemma_segments_are_shorter(u);
        }
        match concat::parsed(u) {
            Ok(s) => row_of(s, table, disk),
            Err(e) => Some(Err(e)),
        }
    } else {
        Some(Err(no_driver(u)))
    }
}

/// Nothing in front changes nothing.
pub proof fn lemma_preceded_by_nothing(rest: Option<Result<Seq<Content>, ErrorView>>)
    ensures
        preceded(Seq::empty(), rest) == rest,
{
    if let Some(Ok(r)) = rest {
        assert(Seq::<Content>::empty() + r =~= r);
    }
}

/// What is in front can be moved over one at a time.
pub proof fn lemma_preceded_step(
    front: Seq<Content>,
    c: Content,
    rest: Option<Result<Seq<Content>, ErrorView>>,
)
    ensures
        preceded(front, preceded(seq![c], rest)) == preceded(front.push(c), rest),
{
    if let Some(Ok(r)) = rest {
        assert(front + (seq![c] + r) =~= front.push(c) + r);
    }
}

/// Opens the file that a URI of the `file` scheme names.
pub fn open_file<F: Fn(&str) -> Result<Source, IoError>>(uri_str: &str, files: &F) -> (r: Result<
    Source,
    Error,
>)
    requires
        callable(files),
    ensures
        forall|disk: Disk| #[trigger]
            conforms(files, disk) ==> opens_as(r, file_of(text::octets(uri_str@), disk)),
        is_file(text::octets(uri_str@)) && uri::file_path(text::octets(uri_str@)) is Ok
            ==> hands_on(files, text::octets(uri_str@), r),
{
    let (scheme, rest) = uri::split(uri_str);
    if !uri::scheme_is(scheme, "file") {
        proof {
            text::lemma_letters_of_octets(uri_str@);
        }
        let mut m = "file driver invoked on non-file URI: ".to_owned();
        m.append(uri_str);
        return Err(Error::InvalidData(m));
    }
    let path = uri::path_of(uri_str, rest)?;
    match files(path.as_str()) {
        Ok(s) => Ok(s),
        Err(e) => Err(Error::Io(e)),
    }
}

/// Opens what a URI names, whichever of the five schemes it is of.
pub fn open_bytes<F: Fn(&str) -> Result<Source, IoError>>(
    uri_str: &str,
    table: &MemTable,
    files: &F,
) -> (r: Result<Source, Error>)
    requires
        callable(files),
    ensures
        forall|disk: Disk| #[trigger]
            conforms(files, disk) ==> opens_as(
                r,
                stream_of(text::octets(uri_str@), table@, disk),
            ),
        is_file(text::octets(uri_str@)) && uri::file_path(text::octets(uri_str@)) is Ok
            ==> hands_on(files, text::octets(uri_str@), r),
    decreases text::octets(uri_str@).len(), 1nat,
{
    let (scheme, _) = uri::split(uri_str);
    if uri::scheme_is(scheme, "file") {
        open_file(uri_str, files)
    } else if uri::scheme_is(scheme, "mem") {
        let s = mem::open_mem(uri_str, table)?;
        proof {
            stream::lemma_never_fails_is_sound(&s);
        }
        Ok(s)
    } else if uri::scheme_is(scheme, "data") {
        let s = data::open_data(uri_str)?;
        proof {
            stream::lemma_never_fails_is_sound(&s);
        }
        Ok(s)
    } else if uri::scheme_is(scheme, "slice") {
        slice::open_slice(uri_str, table, files)
    } else if uri::scheme_is(scheme, "concat") {
        concat::open_concat(uri_str, table, files)
    } else {
        proof {
            text::lemma_letters_of_octets(uri_str@);
        }
        let mut m = "no bundled in-process driver for scheme ".to_owned();
        let shown = text::show(scheme);
        m.append(shown.as_str());
        m.append(" (URI: ");
        m.append(uri_str);
        m.append("); only file/mem/data/slice/concat are dispatchable without a registry");
        Err(Error::Unsupported(m))
    }
}

/// The five words differ.
pub proof fn lemma_words_differ(word: Seq<u8>)
    ensures
        ({
            let file = uri::same_word(word, text::octets("file"@));
            let mem = uri::same_word(word, text::octets("mem"@));
            let data = uri::same_word(word, text::octets("data"@));
            let slice = uri::same_word(word, text::octets("slice"@));
            let concat = uri::same_word(word, text::octets("concat"@));
            &&& !(file && (mem || data || slice || concat))
            &&& !(mem && (data || slice || concat))
            &&& !(data && (slice || concat))
            &&& !(slice && concat)
        }),
{
    reveal_strlit("file");
    reveal_strlit("mem");
    reveal_strlit("data");
    reveal_strlit("slice");
    reveal_strlit("concat");
    text::lemma_octets_of_ascii("file"@);
    text::lemma_octets_of_ascii("mem"@);
    text::lemma_octets_of_ascii("data"@);
    text::lemma_octets_of_ascii("slice"@);
    text::lemma_octets_of_ascii("concat"@);
    let file = text::octets("file"@);
    let data = text::octets("data"@);
    assert(uri::lower(file[0]) != uri::lower(data[0]));
    if uri::same_word(word, file) && uri::same_word(word, data) {
        assert(uri::lower(word[0]) == uri::lower(file[0]));
        assert(uri::lower(word[0]) == uri::lower(data[0]));
    }
}

/// Whatever `files` answers, it agrees with a disk of which nothing is known.
/// So a URI that reaches no file has a fixed outcome.
pub proof fn lemma_unknown_disk_conforms<F: Fn(&str) -> Result<Source, IoError>>(files: &F)
    ensures
        conforms(files, |p: Seq<u8>| None),
{
}

/// True iff a scheme is one of the five.
pub open spec fn is_bundled(scheme: Seq<u8>) -> bool {
    ||| uri::same_word(scheme, text::octets("file"@))
    ||| uri::same_word(scheme, text::octets("mem"@))
    ||| uri::same_word(scheme, text::octets("data"@))
    ||| uri::same_word(scheme, text::octets("slice"@))
    ||| uri::same_word(scheme, text::octets("concat"@))
}

/// The openers of the five schemes.
#[derive(Clone, Copy, Debug, PartialEq, Eq, Structural)]
pub enum Driver {
    File,
    Mem,
    Data,
    Concat,
    Slice,
}

/// The schemes that a registry starts with, and what opens each.
pub open spec fn defaults() -> Seq<(Seq<char>, Driver)> {
    seq![
        ("file"@, Driver::File),
        ("mem"@, Driver::Mem),
        ("data"@, Driver::Data),
        ("concat"@, Driver::Concat),
        ("slice"@, Driver::Slice),
    ]
}

/// The schemes that a registry starts with, and what opens each.
pub fn default_drivers() -> (r: Vec<(&'static str, Driver)>)
    ensures
        r@.len() == defaults().len(),
        forall|i: int|
            0 <= i < r@.len() ==> (#[trigger] r@[i]).0@ == defaults()[i].0 && r@[i].1
                == defaults()[i].1,
{
    vec![
        ("file", Driver::File),
        ("mem", Driver::Mem),
        ("data", Driver::Data),
        ("concat", Driver::Concat),
        ("slice", Driver::Slice),
    ]
}

/// A registry starts with exactly the schemes that [`open_bytes`] serves.
pub proof fn lemma_defaults_are_bundled(scheme: Seq<u8>)
    ensures
        is_bundled(scheme) <==> exists|i: int|
            0 <= i < defaults().len() && uri::same_word(
                scheme,
                text::octets(#[trigger] defaults()[i].0),
            ),
{
    let d = defaults();
    assert(d[0].0 == "file"@);
    assert(d[1].0 == "mem"@);
    assert(d[2].0 == "data"@);
    assert(d[3].0 == "concat"@);
    assert(d[4].0 == "slice"@);
}

/// Every scheme but the five is unsupported, and the error names it.
pub proof fn lemma_other_schemes_are_unsupported(
    u: Seq<u8>,
    table: Map<Seq<char>, Seq<u8>>,
    disk: Disk,
)
    requires
        !is_bundled(uri::parts(u).0),
    ensures
        stream_of(u, table, disk) == Some(Err::<Content, _>(no_driver(u))),
{
}

/// An explicit scheme is told by its first colon.
proof fn lemma_says_file(scheme: Seq<u8>, tail: Seq<u8>)
    requires
        uri::is_scheme(scheme),
    ensures
        uri::says_file(scheme.push(text::COLON) + tail) == uri::same_word(
            scheme,
            text::octets("file"@),
        ),
{
    let u = scheme.push(text::COLON) + tail;
    let file = text::octets("file"@);
    reveal_strlit("file");
    text::lemma_octets_of_ascii("file"@);
    if scheme.len() == 4 {
        assert(u.take(4) =~= scheme);
        assert(u[4] == text::COLON);
    } else if uri::says_file(u) {
        assert(u[4] == text::COLON);
        if scheme.len() > 4 {
            assert(uri::is_scheme_byte(scheme[4]));
            assert(u[4] == scheme[4]);
        } else {
            let n = scheme.len() as int;
            assert(u[n] == text::COLON);
            assert(u.take(4)[n] == text::COLON);
            assert(uri::lower(u.take(4)[n]) == uri::lower(file[n]));
            assert(uri::lower(file[n]) != text::COLON) by {
                assert(n == 1 || n == 2 || n == 3);
            }
        }
    }
}

/// A path is percent-decoded exactly where `file:` is written out: a bare path
/// stands for itself.
pub proof fn lemma_bare_paths_are_not_decoded(u: Seq<u8>)
    ensures
        uri::says_file(u) ==> is_file(u) && uri::file_path(u) == uri::decoded_path(
            uri::parts(u).1,
        ),
        is_file(u) && !uri::says_file(u) ==> uri::file_path(u) == Ok::<_, ErrorView>(u),
{
    let file = text::octets("file"@);
    reveal_strlit("file");
    text::lemma_octets_of_ascii("file"@);
    text::lemma_find(u, text::COLON);
    if uri::says_file(u) {
        let word = u.take(4);
        assert forall|i: int| 0 <= i < 4 implies uri::is_letter(#[trigger] word[i]) by {
            assert(uri::lower(word[i]) == uri::lower(file[i]));
        }
        assert forall|j: int| 0 <= j < 4 implies u[j] != text::COLON by {
            assert(uri::is_letter(word[j]));
        }
        text::lemma_find_is(u, text::COLON, 4);
        assert(uri::is_scheme(word));
    } else if is_file(u) {
        let at = text::find(u, text::COLON) as int;
        if at < u.len() && uri::is_scheme(u.take(at)) && !uri::is_drive(
            u.take(at),
            u.skip(at + 1),
        ) {
            assert(at == 4);
            assert(u.take(4) == uri::parts(u).0);
        }
    }
}

/// URIs with the same rest, under the same scheme up to case, open the same.
proof fn lemma_same_parts_open_the_same(
    u: Seq<u8>,
    v: Seq<u8>,
    table: Map<Seq<char>, Seq<u8>>,
    disk: Disk,
)
    requires
        uri::same_word(uri::parts(u).0, uri::parts(v).0),
        uri::parts(u).1 == uri::parts(v).1,
        is_bundled(uri::parts(u).0),
        uri::says_file(u) == uri::says_file(v),
    ensures
        stream_of(u, table, disk) == stream_of(v, table, disk),
{
    let a = uri::parts(u).0;
    let b = uri::parts(v).0;
    lemma_words_differ(a);
    lemma_words_differ(b);
    uri::lemma_same_word_is_an_equivalence(a, b, text::octets("file"@));
    uri::lemma_same_word_is_an_equivalence(a, b, text::octets("mem"@));
    uri::lemma_same_word_is_an_equivalence(a, b, text::octets("data"@));
    uri::lemma_same_word_is_an_equivalence(a, b, text::octets("slice"@));
    uri::lemma_same_word_is_an_equivalence(a, b, text::octets("concat"@));
    uri::lemma_same_word_is_an_equivalence(b, a, text::octets("file"@));
    uri::lemma_same_word_is_an_equivalence(b, a, text::octets("mem"@));
    uri::lemma_same_word_is_an_equivalence(b, a, text::octets("data"@));
    uri::lemma_same_word_is_an_equivalence(b, a, text::octets("slice"@));
    uri::lemma_same_word_is_an_equivalence(b, a, text::octets("concat"@));
}

/// None of the five words is a single letter.
proof fn lemma_bundled_is_no_drive(word: Seq<u8>)
    requires
        is_bundled(word),
    ensures
        word.len() > 1,
{
    reveal_strlit("file");
    reveal_strlit("mem");
    reveal_strlit("data");
    reveal_strlit("slice");
    reveal_strlit("concat");
    text::lemma_octets_of_ascii("file"@);
    text::lemma_octets_of_ascii("mem"@);
    text::lemma_octets_of_ascii("data"@);
    text::lemma_octets_of_ascii("slice"@);
    text::lemma_octets_of_ascii("concat"@);
}

/// The case of a scheme does not matter, whatever follows it. Nor does a `//`
/// behind it, where what follows does not start with one of its own.
pub proof fn lemma_scheme_spelling_does_not_matter(
    a: Seq<u8>,
    b: Seq<u8>,
    rest: Seq<u8>,
    table: Map<Seq<char>, Seq<u8>>,
    disk: Disk,
)
    requires
        uri::is_scheme(a),
        uri::is_scheme(b),
        uri::same_word(a, b),
        is_bundled(a),
    ensures
        ({
            let slashes = seq![text::SLASH, text::SLASH];
            let plain = stream_of(a.push(text::COLON) + rest, table, disk);
            let dressed = stream_of(a.push(text::COLON) + slashes + rest, table, disk);
            &&& plain == stream_of(b.push(text::COLON) + rest, table, disk)
            &&& dressed == stream_of(b.push(text::COLON) + slashes + rest, table, disk)
            &&& !text::leads_with_slashes(rest) ==> plain == dressed
        }),
{
    let slashes = seq![text::SLASH, text::SLASH];
    let file = text::octets("file"@);
    let a_plain = a.push(text::COLON) + rest;
    let b_plain = b.push(text::COLON) + rest;
    let a_dressed = a.push(text::COLON) + slashes + rest;
    let b_dressed = b.push(text::COLON) + slashes + rest;
    lemma_bundled_is_no_drive(a);
    uri::lemma_split_undoes_join(a, rest);
    uri::lemma_split_undoes_join(b, rest);
    lemma_says_file(a, rest);
    lemma_says_file(b, rest);
    lemma_says_file(a, slashes + rest);
    lemma_says_file(b, slashes + rest);
    assert(a.push(text::COLON) + (slashes + rest) =~= a_dressed);
    assert(b.push(text::COLON) + (slashes + rest) =~= b_dressed);
    uri::lemma_same_word_is_an_equivalence(a, b, file);
    uri::lemma_same_word_is_an_equivalence(b, a, file);
    lemma_same_parts_open_the_same(a_plain, b_plain, table, disk);
    lemma_same_parts_open_the_same(a_dressed, b_dressed, table, disk);
    if !text::leads_with_slashes(rest) {
        lemma_same_parts_open_the_same(a_plain, a_dressed, table, disk);
    }
}

/// A typed value and its spelling open the same.
pub proof fn lemma_typed_slice_opens_as_its_spelling(
    s: SliceParts,
    table: Map<Seq<char>, Seq<u8>>,
    disk: Disk,
)
    requires
        s.inner.len() > 0,
    ensures
        stream_of(s.spelled(), table, disk) == window_of(s, table, disk),
{
    let word = text::octets("slice"@);
    slice::lemma_parse_undoes_format(s);
    uri::lemma_same_word_is_an_equivalence(word, word, word);
    lemma_words_differ(word);
}

/// Typed segments and their spelling open the same.
pub proof fn lemma_typed_concat_opens_as_its_spelling(
    s: Seq<Seq<u8>>,
    table: Map<Seq<char>, Seq<u8>>,
    disk: Disk,
)
    requires
        concat::is_spellable(s),
    ensures
        stream_of(concat::spelled(s), table, disk) == row_of(s, table, disk),
{
    let word = text::octets("concat"@);
    concat::lemma_parse_undoes_format(s);
    uri::lemma_same_word_is_an_equivalence(word, word, word);
    lemma_words_differ(word);
}

/// The spelling of a `data:` value opens its payload, whatever else there is.
pub proof fn lemma_data_opens_its_payload(
    d: data::DataParts,
    table: Map<Seq<char>, Seq<u8>>,
    disk: Disk,
)
    requires
        d.is_spellable(),
    ensures
        stream_of(d.spelled(), table, disk) == Some(
            Ok::<_, ErrorView>(Content::sound(d.data)),
        ),
{
    let word = text::octets("data"@);
    data::lemma_parse_undoes_format(d);
    uri::lemma_same_word_is_an_equivalence(word, word, word);
    lemma_words_differ(word);
}

/// A slice of a slice is a slice: the outer one shows the innermost stream at
/// the sum of the offsets, wherever that stream can be moved there.
pub proof fn lemma_nested_slices_compose(
    inner: SliceParts,
    offset: u64,
    length: u64,
    table: Map<Seq<char>, Seq<u8>>,
    disk: Disk,
)
    requires
        inner.inner.len() > 0,
        ({
            let outer = SliceParts { offset, length, inner: inner.spelled() };
            window_of(outer, table, disk) matches Some(Ok(_))
        }),
        stream_of(inner.inner, table, disk) matches Some(Ok(c)) ==> c.seek_fault(
            (inner.offset + offset) as nat,
        ) is None,
    ensures
        inner.offset + offset <= u64::MAX,
        ({
            let outer = SliceParts { offset, length, inner: inner.spelled() };
            let flat = SliceParts {
                offset: (inner.offset + offset) as u64,
                length,
                inner: inner.inner,
            };
            window_of(outer, table, disk) == window_of(flat, table, disk)
        }),
{
    lemma_typed_slice_opens_as_its_spelling(inner, table, disk);
    if let Some(Ok(c)) = stream_of(inner.inner, table, disk) {
        sub::lemma_windows_compose(c, inner.offset, inner.length, offset, length);
    }
}

/// A segment that does not open decides what the whole opens, whatever
/// follows it.
pub proof fn lemma_first_failing_segment_decides(
    s: Seq<Seq<u8>>,
    k: int,
    table: Map<Seq<char>, Seq<u8>>,
    disk: Disk,
    e: ErrorView,
)
    requires
        0 <= k < s.len(),
        forall|i: int| 0 <= i < k ==> (#[trigger] segment_of(s[i], table, disk)) matches Some(Ok(_)),
        segment_of(s[k], table, disk) == Some(Err::<Content, _>(e)),
    ensures
        row_of(s, table, disk) == Some(Err::<Content, _>(e)),
{
    lemma_failing_from(s, 0, k, table, disk, e);
}

proof fn lemma_failing_from(
    s: Seq<Seq<u8>>,
    i: int,
    k: int,
    table: Map<Seq<char>, Seq<u8>>,
    disk: Disk,
    e: ErrorView,
)
    requires
        0 <= i <= k < s.len(),
        forall|j: int| 0 <= j < k ==> (#[trigger] segment_of(s[j], table, disk)) matches Some(Ok(_)),
        segment_of(s[k], table, disk) == Some(Err::<Content, _>(e)),
    ensures
        segments_of(s, i, table, disk) == Some(Err::<Seq<Content>, _>(e)),
    decreases k - i,
{
    if i < k {
        assert(segment_of(s[i], table, disk) matches Some(Ok(_)));
        lemma_failing_from(s, i + 1, k, table, disk, e);
    }
}

/// Where every segment opens, the whole is what the segments are, in order.
pub proof fn lemma_row_holds_its_segments(
    s: Seq<Seq<u8>>,
    held: Seq<Content>,
    table: Map<Seq<char>, Seq<u8>>,
    disk: Disk,
)
    requires
        held.len() == s.len(),
        forall|i: int|
            0 <= i < s.len() ==> #[trigger] segment_of(s[i], table, disk) == Some(
                Ok::<_, ErrorView>(held[i]),
            ),
    ensures
        row_of(s, table, disk) == Some(concat::in_a_row(held)),
{
    lemma_segments_from(s, 0, held, table, disk);
    assert(held.skip(0) =~= held);
}

proof fn lemma_segments_from(
    s: Seq<Seq<u8>>,
    k: int,
    held: Seq<Content>,
    table: Map<Seq<char>, Seq<u8>>,
    disk: Disk,
)
    requires
        0 <= k <= s.len(),
        held.len() == s.len(),
        forall|i: int|
            0 <= i < s.len() ==> #[trigger] segment_of(s[i], table, disk) == Some(
                Ok::<_, ErrorView>(held[i]),
            ),
    ensures
        segments_of(s, k, table, disk) == Some(Ok::<_, ErrorView>(held.skip(k))),
    decreases s.len() - k,
{
    if k < s.len() {
        assert(segment_of(s[k], table, disk) == Some(Ok::<_, ErrorView>(held[k])));
        lemma_segments_from(s, k + 1, held, table, disk);
        assert(seq![held[k]] + held.skip(k + 1) =~= held.skip(k));
    } else {
        assert(held.skip(k) =~= Seq::<Content>::empty());
    }
}

/// Two windows that meet, put in a row, are the window over both, failures
/// included; one that covers a stream that never fails is the stream.
pub proof fn lemma_meeting_windows_join(c: Content, base: u64, len: u64, more: u64)
    requires
        base + len + more <= c.bytes.len() <= u64::MAX,
        sub::windowed(c, base, len) is Ok,
        sub::windowed(c, (base + len) as u64, more) is Ok,
    ensures
        concat::in_a_row(
            seq![
                sub::windowed(c, base, len)->Ok_0,
                sub::windowed(c, (base + len) as u64, more)->Ok_0,
            ],
        ) == sub::windowed(c, base, (len + more) as u64),
        c == Content::sound(c.bytes) ==> sub::windowed(c, 0, c.bytes.len() as u64) == Ok::<
            _,
            ErrorView,
        >(c),
{
    let mid = (base + len) as u64;
    let first = sub::view_of(c, base, len);
    let second = sub::view_of(c, mid, more);
    let both = sub::view_of(c, base, (len + more) as u64);
    let row = seq![first, second];
    let b = concat::bytes_of(row);
    let a0 = first.bytes;
    let b0 = second.bytes;
    assert(b =~= seq![a0, b0]);
    assert(b.take(0) =~= Seq::<Seq<u8>>::empty());
    assert(b.take(1) =~= seq![a0]);
    assert(b.take(2) =~= b);
    assert(b.drop_last() =~= seq![a0]);
    assert(seq![a0].drop_last() =~= Seq::<Seq<u8>>::empty());
    assert(concat::concatenated(Seq::<Seq<u8>>::empty()) =~= Seq::<u8>::empty());
    assert(concat::concatenated(seq![a0]) =~= a0);
    assert(concat::concatenated(b) =~= both.bytes);
    assert(concat::row_fault(row, 2) is None);
    assert(concat::row_fault(row, 1) is None);
    assert(concat::row_fault(row, 0) is None);
    assert forall|at: nat| (#[trigger] concat::row(row).read_fault(at)) == both.read_fault(at) by {
        if at < len {
            concat::lemma_part_is(b, at as int, 0);
            assert(first.reach_fault(at) == c.reach_fault(base as nat + at));
        } else if at < len + more {
            concat::lemma_part_is(b, at as int, 1);
            let p = (at - len) as nat;
            assert(second.reach_fault(p) == c.reach_fault(mid as nat + p));
        }
    }
    stream::lemma_same_content(concat::row(row), both);
    if c == Content::sound(c.bytes) {
        sub::lemma_window_on_sound_content(c.bytes, 0, c.bytes.len() as u64);
        assert(c.bytes.subrange(0, c.bytes.len() as int) =~= c.bytes);
    }
}

} // verus!
