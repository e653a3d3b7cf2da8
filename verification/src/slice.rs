//! `slice:` URIs: a window on what another URI names.
//!
//! `slice:<offset>+<length>!<inner>`, with canonical decimals.
use crate::error::{Error, ErrorView, IoError};
use crate::mem::MemTable;
use crate::open;
use crate::stream::{BytesSource, Source};
use crate::stream;
use crate::sub::SubSource;
use crate::text;
use crate::text::{BANG, COLON, PLUS};
use crate::uri;
use vstd::prelude::*;
use vstd::string::StringExecFns;

verus! {

/// A `slice:` URI, taken apart.
#[derive(Clone, Debug, PartialEq, Eq)]
pub struct SliceUri {
    /// Where the window starts in the inner stream.
    pub offset: u64,
    /// How many bytes the window covers.
    pub length: u64,
    /// What the window is on.
    pub inner: String,
}

/// The content of a [`SliceUri`].
#[verifier::ext_equal]
pub ghost struct SliceParts {
    pub offset: u64,
    pub length: u64,
    pub inner: Seq<u8>,
}

impl View for SliceUri {
    type V = SliceParts;

    open spec fn view(&self) -> SliceParts {
        SliceParts {
            offset: self.offset,
            length: self.length,
            inner: text::octets(self.inner@),
        }
    }
}

impl SliceParts {
    /// The spelling after the scheme.
    pub open spec fn tail(self) -> Seq<u8> {
        text::decimal(self.offset as nat).push(PLUS) + text::decimal(self.length as nat).push(BANG)
            + self.inner
    }

    /// The spelling as a URI.
    pub open spec fn spelled(self) -> Seq<u8> {
        text::octets("slice:"@) + self.tail()
    }
}

/// Why the constructor refuses an inner reference.
pub open spec fn refused_inner(inner: Seq<u8>) -> Option<ErrorView> {
    if inner.len() == 0 {
        Some(ErrorView::InvalidData("slice: URI inner reference cannot be empty"@))
    } else if inner.contains(BANG) {
        Some(
            ErrorView::InvalidData(
                "slice: URI inner reference "@ + text::shown(inner)
                    + " contains a '!'; a literal '!' inside the inner URI cannot round-trip because the grammar splits on the first '!' after the length token"@,
            ),
        )
    } else {
        None
    }
}

/// The error for a bound that is no canonical decimal.
pub open spec fn bad_bound(lead: Seq<char>, b: Seq<u8>, reason: Seq<char>) -> ErrorView {
    ErrorView::InvalidData(
        lead + text::shown(b) + " is not a non-negative decimal u64: "@ + reason,
    )
}

/// What stands after the scheme of a `slice:` URI.
pub open spec fn header(rest: Seq<u8>) -> Result<SliceParts, ErrorView> {
    let bang = text::find(rest, BANG) as int;
    if bang == rest.len() {
        Err(ErrorView::InvalidData("slice: URI missing '!' separator before inner URI"@))
    } else {
        let range = rest.take(bang);
        let inner = rest.skip(bang + 1);
        let plus = text::find(range, PLUS) as int;
        if plus == range.len() {
            Err(ErrorView::InvalidData("slice: URI range missing '+' between offset and length"@))
        } else {
            let from = range.take(plus);
            let size = range.skip(plus + 1);
            match (text::number(from), text::number(size)) {
                (Err(m), _) => Err(bad_bound("slice: offset "@, from, m)),
                (Ok(_), Err(m)) => Err(bad_bound("slice: length "@, size, m)),
                (Ok(offset), Ok(length)) => if inner.len() == 0 {
                    Err(ErrorView::InvalidData("slice: URI inner reference is empty after '!'"@))
                } else {
                    Ok(SliceParts { offset, length, inner })
                },
            }
        }
    }
}

/// What a `slice:` URI says.
pub open spec fn parsed(u: Seq<u8>) -> Result<SliceParts, ErrorView> {
    let (scheme, rest) = uri::parts(u);
    if !uri::same_word(scheme, text::octets("slice"@)) {
        Err(
            ErrorView::InvalidData(
                "slice driver invoked on non-slice URI: "@ + text::letters(u),
            ),
        )
    } else {
        header(rest)
    }
}

impl SliceUri {
    /// A URI with the given parts. An inner reference that is empty or holds a
    /// `!` is refused.
    pub fn new(offset: u64, length: u64, inner: &str) -> (r: Result<Self, Error>)
        ensures
            match r {
                Ok(s) => {
                    &&& refused_inner(text::octets(inner@)) is None
                    &&& s@ == (SliceParts { offset, length, inner: text::octets(inner@) })
                },
                Err(e) => refused_inner(text::octets(inner@)) == Some(e@),
            },
    {
        if inner.as_bytes().len() == 0 {
            return Err(Error::invalid("slice: URI inner reference cannot be empty"));
        }
        if text::contains_byte(inner, BANG) {
            let shown = text::show(inner);
            return Err(
                Error::InvalidData(
                    text::join3(
                        "slice: URI inner reference ",
                        shown.as_str(),
                        " contains a '!'; a literal '!' inside the inner URI cannot round-trip because the grammar splits on the first '!' after the length token",
                    ),
                ),
            );
        }
        Ok(SliceUri { offset, length, inner: inner.to_owned() })
    }

    /// The canonical spelling.
    pub fn format(&self) -> (r: String)
        ensures
            text::octets(r@) == self@.spelled(),
    {
        let mut s = "slice:".to_owned();
        let ghost head = text::octets("slice:"@);
        text::push_decimal(&mut s, self.offset as u128);
        proof {
            text::lemma_octets_push_ascii(s@, PLUS);
        }
        s.push('+');
        text::push_decimal(&mut s, self.length as u128);
        proof {
            text::lemma_octets_push_ascii(s@, BANG);
        }
        s.push('!');
        proof {
            text::lemma_octets_concat(s@, self.inner@);
        }
        s.append(self.inner.as_str());
        proof {
            let a = text::decimal(self.offset as nat);
            let b = text::decimal(self.length as nat);
            assert((((head + a).push(PLUS) + b).push(BANG) + self@.inner) =~= self@.spelled());
        }
        s
    }

    /// The canonical spelling.
    pub fn to_string(&self) -> (r: String)
        ensures
            text::octets(r@) == self@.spelled(),
    {
        self.format()
    }
}

fn bad_bound_error(lead: &str, bound: &str, reason: &str) -> (r: Error)
    ensures
        r@ == bad_bound(lead@, text::octets(bound@), reason@),
{
    let mut m = lead.to_owned();
    let shown = text::show(bound);
    m.append(shown.as_str());
    m.append(" is not a non-negative decimal u64: ");
    m.append(reason);
    Error::InvalidData(m)
}

/// Takes apart what stands after the scheme of a `slice:` URI.
pub fn parse_header(rest: &str) -> (r: Result<SliceUri, Error>)
    ensures
        r matches Ok(s) ==> header(text::octets(rest@)) == Ok::<_, ErrorView>(s@),
        r matches Err(e) ==> header(text::octets(rest@)) == Err::<SliceParts, _>(e@),
{
    let bang = match text::find_byte(rest, BANG) {
        Some(at) => at,
        None => {
            return Err(Error::invalid("slice: URI missing '!' separator before inner URI"));
        },
    };
    proof {
        text::lemma_find(text::octets(rest@), BANG);
    }
    let (range, inner) = text::cut(rest, bang);
    let plus = match text::find_byte(range, PLUS) {
        Some(at) => at,
        None => {
            return Err(Error::invalid("slice: URI range missing '+' between offset and length"));
        },
    };
    proof {
        text::lemma_find(text::octets(range@), PLUS);
    }
    let (from, size) = text::cut(range, plus);
    let offset: u64 = match text::read_number(from) {
        Ok(n) => n,
        Err(m) => {
            return Err(bad_bound_error("slice: offset ", from, m.as_str()));
        },
    };
    let length: u64 = match text::read_number(size) {
        Ok(n) => n,
        Err(m) => {
            return Err(bad_bound_error("slice: length ", size, m.as_str()));
        },
    };
    if inner.as_bytes().len() == 0 {
        return Err(Error::invalid("slice: URI inner reference is empty after '!'"));
    }
    Ok(SliceUri { offset, length, inner: inner.to_owned() })
}

/// Takes a `slice:` URI apart.
pub fn parse(uri_str: &str) -> (r: Result<SliceUri, Error>)
    ensures
        r matches Ok(s) ==> parsed(text::octets(uri_str@)) == Ok::<_, ErrorView>(s@),
        r matches Err(e) ==> parsed(text::octets(uri_str@)) == Err::<SliceParts, _>(e@),
{
    let (scheme, rest) = uri::split(uri_str);
    if !uri::scheme_is(scheme, "slice") {
        proof {
            text::lemma_letters_of_octets(uri_str@);
        }
        let mut m = "slice driver invoked on non-slice URI: ".to_owned();
        m.append(uri_str);
        return Err(Error::InvalidData(m));
    }
    parse_header(rest)
}

impl SliceUri {
    /// Opens the inner reference and the window on it.
    pub fn open<F: Fn(&str) -> Result<Source, IoError>>(
        &self,
        table: &MemTable,
        files: &F,
    ) -> (r: Result<Source, Error>)
        requires
            open::callable(files),
        ensures
            forall|disk: open::Disk| #[trigger]
                open::conforms(files, disk) ==> open::opens_as(
                    r,
                    open::window_of(self@, table@, disk),
                ),
        decreases self@.inner.len(), 3nat,
    {
        let inner = open::open_bytes(self.inner.as_str(), table, files)?;
        let window = SubSource::new(inner, self.offset, self.length)?;
        let r = Source { stream: Box::new(window) };
        proof {
            stream::lemma_same_content(stream::content(&r), stream::content(&window));
        }
        Ok(r)
    }
}

/// Opens the window that a `slice:` URI describes.
pub fn open_slice<F: Fn(&str) -> Result<Source, IoError>>(
    uri_str: &str,
    table: &MemTable,
    files: &F,
) -> (r: Result<Source, Error>)
    requires
        open::callable(files),
    ensures
        forall|disk: open::Disk| #[trigger]
            open::conforms(files, disk) ==> open::opens_as(
                r,
                match parsed(text::octets(uri_str@)) {
                    Ok(s) => open::window_of(s, table@, disk),
                    Err(e) => Some(Err(e)),
                },
            ),
    decreases text::octets(uri_str@).len(), 0nat,
{
    let s = parse(uri_str)?;
    proof {
        lemma_inner_is_shorter(text::octets(uri_str@));
    }
    s.open(table, files)
}

/// The word `slice` and the start of every `slice:` URI.
proof fn lemma_slice_word()
    ensures
        text::octets("slice"@).len() == 5,
        uri::is_scheme(text::octets("slice"@)),
        text::octets("slice:"@) == text::octets("slice"@).push(COLON),
{
    reveal_strlit("slice");
    reveal_strlit("slice:");
    text::lemma_octets_of_ascii("slice"@);
    text::lemma_octets_of_ascii("slice:"@);
    assert(text::octets("slice:"@) =~= text::octets("slice"@).push(COLON));
    assert(uri::is_scheme(text::octets("slice"@)));
}

/// What a `slice:` URI is a window on is shorter than the URI.
pub proof fn lemma_inner_is_shorter(u: Seq<u8>)
    ensures
        parsed(u) matches Ok(s) ==> s.inner.len() < u.len(),
{
    lemma_slice_word();
    uri::lemma_rest_is_shorter(u);
    text::lemma_find(uri::parts(u).1, BANG);
}

/// A `+` and a `!` between two decimals and the rest are found where they
/// stand.
pub proof fn lemma_header_of_tail(s: SliceParts)
    requires
        s.inner.len() > 0,
    ensures
        header(s.tail()) == Ok::<_, ErrorView>(s),
{
    let a = text::decimal(s.offset as nat);
    let b = text::decimal(s.length as nat);
    let rest = s.tail();
    text::lemma_decimal_spells_its_number(s.offset as nat);
    text::lemma_decimal_spells_its_number(s.length as nat);
    let range = a.push(PLUS) + b;
    let bang = range.len() as int;
    let plus = a.len() as int;
    assert(rest =~= range.push(BANG) + s.inner);
    assert forall|j: int| 0 <= j < plus implies range[j] != PLUS && range[j] != BANG by {
        assert(range[j] == a[j]);
    }
    assert forall|j: int| 0 <= j < bang implies rest[j] != BANG by {
        assert(rest[j] == range[j]);
        if j > plus {
            assert(range[j] == b[j - plus - 1]);
        }
    }
    text::lemma_find_is(rest, BANG, bang);
    text::lemma_find_is(range, PLUS, plus);
    assert(rest.take(bang) =~= range);
    assert(rest.skip(bang + 1) =~= s.inner);
    assert(range.take(plus) =~= a);
    assert(range.skip(plus + 1) =~= b);
}

/// Parsing undoes formatting: a value with an inner reference comes back from
/// its spelling.
pub proof fn lemma_parse_undoes_format(s: SliceParts)
    requires
        s.inner.len() > 0,
    ensures
        uri::parts(s.spelled()) == (text::octets("slice"@), s.tail()),
        parsed(s.spelled()) == Ok::<_, ErrorView>(s),
{
    let word = text::octets("slice"@);
    lemma_slice_word();
    lemma_header_of_tail(s);
    assert(!text::leads_with_slashes(s.tail())) by {
        let a = text::decimal(s.offset as nat);
        text::lemma_decimal_spells_its_number(s.offset as nat);
        assert(0x30 <= a[0] <= 0x39);
        assert(s.tail()[0] == a[0]);
    }
    uri::lemma_split_undoes_join(word, s.tail());
    uri::lemma_same_word_is_an_equivalence(word, word, word);
}

/// Formatting undoes parsing up to the spelling of the scheme: a URI that is
/// spelled `slice:` comes back byte for byte.
pub proof fn lemma_format_undoes_parse(u: Seq<u8>)
    ensures
        parsed(u) matches Ok(s) ==> {
            &&& s.inner.len() > 0
            &&& s.spelled() == text::octets("slice:"@) + uri::parts(u).1
            &&& parsed(s.spelled()) == Ok::<_, ErrorView>(s)
        },
{
    if let Ok(s) = parsed(u) {
        let rest = uri::parts(u).1;
        text::lemma_find(rest, BANG);
        let bang = text::find(rest, BANG) as int;
        let range = rest.take(bang);
        text::lemma_find(range, PLUS);
        let plus = text::find(range, PLUS) as int;
        text::lemma_canonical_decimal_is_its_spelling(range.take(plus));
        text::lemma_canonical_decimal_is_its_spelling(range.skip(plus + 1));
        assert(s.tail() =~= rest);
        lemma_parse_undoes_format(s);
    }
}

/// The constructor refuses an inner reference only where it is empty or holds
/// a `!`, so that every value that it makes comes back from its spelling.
pub proof fn lemma_constructed_round_trips(offset: u64, length: u64, inner: Seq<u8>)
    requires
        refused_inner(inner) is None,
    ensures
        ({
            let s = SliceParts { offset, length, inner };
            parsed(s.spelled()) == Ok::<_, ErrorView>(s)
        }),
{
    lemma_parse_undoes_format(SliceParts { offset, length, inner });
}

} // verus!
