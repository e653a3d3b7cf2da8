//! The URI grammar: `scheme:rest`, bare paths, and percent-encoding.
use crate::error::{Error, ErrorView};
use crate::text;
use crate::text::{COLON, DOT, MINUS, PERCENT, PLUS};
use vstd::prelude::*;
use vstd::string::StringExecFns;

verus! {

/// True iff `b` is an ASCII letter.
pub open spec fn is_letter(b: u8) -> bool {
    0x41 <= b <= 0x5a || 0x61 <= b <= 0x7a
}

/// True iff `b` is a decimal digit.
pub open spec fn is_digit(b: u8) -> bool {
    0x30 <= b <= 0x39
}

/// True iff `b` may stand in a scheme.
pub open spec fn is_scheme_byte(b: u8) -> bool {
    is_letter(b) || is_digit(b) || b == PLUS || b == MINUS || b == DOT
}

/// True iff `b` is spelled like a scheme: a letter, and then letters, digits,
/// `+`, `-` or `.`.
pub open spec fn is_scheme(b: Seq<u8>) -> bool {
    &&& b.len() >= 1
    &&& is_letter(b[0])
    &&& forall|i: int| 0 <= i < b.len() ==> is_scheme_byte(#[trigger] b[i])
}

/// `b` without one leading pair of slashes, where it has one.
pub open spec fn without_slashes(b: Seq<u8>) -> Seq<u8> {
    if text::leads_with_slashes(b) {
        b.skip(2)
    } else {
        b
    }
}

/// True iff `word:rest` looks like a path on a drive: a single letter before
/// the colon, and no `//` behind it.
pub open spec fn is_drive(word: Seq<u8>, rest: Seq<u8>) -> bool {
    word.len() == 1 && !text::leads_with_slashes(rest)
}

/// The scheme of a URI and what follows it. What does not start with a scheme,
/// or looks like a path on a drive, is a bare path, which belongs to the `file`
/// scheme as a whole.
pub open spec fn parts(u: Seq<u8>) -> (Seq<u8>, Seq<u8>) {
    let colon = text::find(u, COLON) as int;
    if colon < u.len() && is_scheme(u.take(colon)) && !is_drive(
        u.take(colon),
        u.skip(colon + 1),
    ) {
        (u.take(colon), without_slashes(u.skip(colon + 1)))
    } else {
        (text::octets("file"@), u)
    }
}

/// The lower-case form of an ASCII letter; every other byte as it is.
pub open spec fn lower(b: u8) -> u8 {
    if 0x41 <= b <= 0x5a {
        (b + 0x20) as u8
    } else {
        b
    }
}

/// True iff two spellings differ at most in the case of ASCII letters.
pub open spec fn same_word(a: Seq<u8>, b: Seq<u8>) -> bool {
    &&& a.len() == b.len()
    &&& forall|i: int| 0 <= i < a.len() ==> lower(#[trigger] a[i]) == lower(b[i])
}

/// True iff `a` ends with `word`, up to the case of ASCII letters.
pub open spec fn ends_in(a: Seq<u8>, word: Seq<u8>) -> bool {
    a.len() >= word.len() && same_word(a.skip(a.len() - word.len()), word)
}

/// True iff the URI is spelled with an explicit `file:`.
pub open spec fn says_file(u: Seq<u8>) -> bool {
    u.len() >= 5 && same_word(u.take(4), text::octets("file"@)) && u[4] == COLON
}

/// The value of a hexadecimal digit.
pub open spec fn hex_value(b: u8) -> Option<u8> {
    if 0x30 <= b <= 0x39 {
        Some((b - 0x30) as u8)
    } else if 0x61 <= b <= 0x66 {
        Some((b - 0x61 + 10) as u8)
    } else if 0x41 <= b <= 0x46 {
        Some((b - 0x41 + 10) as u8)
    } else {
        None
    }
}

/// `b`, followed by what was decoded of the rest.
pub open spec fn followed_by(b: u8, rest: Result<Seq<u8>, ErrorView>) -> Result<
    Seq<u8>,
    ErrorView,
> {
    match rest {
        Ok(r) => Ok(seq![b] + r),
        Err(e) => Err(e),
    }
}

/// The error for a byte that is no hexadecimal digit.
pub open spec fn not_hex(b: u8) -> ErrorView {
    ErrorView::InvalidData("percent-encoding: non-hex digit "@ + text::debug_char(b as char))
}

/// What `s` stands for from offset `at` on, with every `%` and the two
/// hexadecimal digits after it read as one byte.
pub open spec fn percent_decoded(s: Seq<u8>, at: int) -> Result<Seq<u8>, ErrorView>
    decreases s.len() - at,
{
    if at >= s.len() {
        Ok(Seq::empty())
    } else if s[at] != PERCENT {
        followed_by(s[at], percent_decoded(s, at + 1))
    } else if at + 2 >= s.len() {
        Err(
            ErrorView::InvalidData(
                "percent-encoding truncated at offset "@ + text::letters(text::decimal(at as nat)),
            ),
        )
    } else {
        match (hex_value(s[at + 1]), hex_value(s[at + 2])) {
            (None, _) => Err(not_hex(s[at + 1])),
            (Some(_), None) => Err(not_hex(s[at + 2])),
            (Some(hi), Some(lo)) => followed_by(
                (hi * 16 + lo) as u8,
                percent_decoded(s, at + 3),
            ),
        }
    }
}

/// The path that the percent-encoded `s` stands for, as the bytes of a string.
pub open spec fn decoded_path(s: Seq<u8>) -> Result<Seq<u8>, ErrorView> {
    match percent_decoded(s, 0) {
        Ok(b) => if vstd::utf8::valid_utf8(b) {
            Ok(b)
        } else {
            Err(
                ErrorView::InvalidData(
                    "percent-decoded path is not valid UTF-8: "@ + text::utf8_complaint(b),
                ),
            )
        },
        Err(e) => Err(e),
    }
}

/// The path that a URI of the `file` scheme names: percent-decoded where the
/// scheme is written out, the URI itself where it is a bare path.
pub open spec fn file_path(u: Seq<u8>) -> Result<Seq<u8>, ErrorView> {
    if says_file(u) {
        decoded_path(parts(u).1)
    } else {
        Ok(parts(u).1)
    }
}

fn letter(b: u8) -> (r: bool)
    ensures
        r == is_letter(b),
{
    (0x41 <= b && b <= 0x5a) || (0x61 <= b && b <= 0x7a)
}

fn scheme_byte(b: u8) -> (r: bool)
    ensures
        r == is_scheme_byte(b),
{
    letter(b) || (0x30 <= b && b <= 0x39) || b == PLUS || b == MINUS || b == DOT
}

fn valid_scheme(s: &str) -> (r: bool)
    ensures
        r == is_scheme(text::octets(s@)),
{
    let b = s.as_bytes();
    if b.len() < 1 || !letter(b[0]) {
        return false;
    }
    let mut i: usize = 0;
    while i < b.len()
        invariant
            i <= b.len(),
            b@ == text::octets(s@),
            forall|j: int| 0 <= j < i ==> is_scheme_byte(#[trigger] b@[j]),
        decreases b.len() - i,
    {
        if !scheme_byte(b[i]) {
            return false;
        }
        i = i + 1;
    }
    true
}

/// Splits a URI into its scheme and what follows the `:` and an optional
/// `//`. A string without a scheme, or with a single letter for one and no
/// `//` behind it, is a bare path: it goes to `file`, whole.
pub fn split<'a>(uri: &'a str) -> (r: (&'a str, &'a str))
    ensures
        (text::octets(r.0@), text::octets(r.1@)) == parts(text::octets(uri@)),
{
    match text::find_byte(uri, COLON) {
        Some(at) => {
            proof {
                text::lemma_find(text::octets(uri@), COLON);
            }
            let (scheme, rest) = text::cut(uri, at);
            let drive = at == 1 && !text::starts_with_slashes(rest);
            if valid_scheme(scheme) && !drive {
                (scheme, text::strip_slashes(rest))
            } else {
                ("file", uri)
            }
        },
        None => ("file", uri),
    }
}

fn lower_case(b: u8) -> (r: u8)
    ensures
        r == lower(b),
{
    if 0x41 <= b && b <= 0x5a {
        b + 0x20
    } else {
        b
    }
}

/// True iff the two words are equal up to the case of ASCII letters.
pub fn scheme_is(scheme: &str, want: &str) -> (r: bool)
    ensures
        r == same_word(text::octets(scheme@), text::octets(want@)),
{
    let a = scheme.as_bytes();
    let b = want.as_bytes();
    if a.len() != b.len() {
        return false;
    }
    let mut i: usize = 0;
    while i < a.len()
        invariant
            i <= a.len(),
            a.len() == b.len(),
            a@ == text::octets(scheme@),
            b@ == text::octets(want@),
            forall|j: int| 0 <= j < i ==> lower(#[trigger] a@[j]) == lower(b@[j]),
        decreases a.len() - i,
    {
        if lower_case(a[i]) != lower_case(b[i]) {
            return false;
        }
        i = i + 1;
    }
    true
}

/// True iff `s` ends with `word`, up to the case of ASCII letters.
pub(crate) fn ends_with_word(s: &str, word: &str) -> (r: bool)
    ensures
        r == ends_in(text::octets(s@), text::octets(word@)),
{
    let a = s.as_bytes();
    let b = word.as_bytes();
    if a.len() < b.len() {
        return false;
    }
    let from: usize = a.len() - b.len();
    let ghost tail = a@.skip(from as int);
    let mut i: usize = 0;
    while i < b.len()
        invariant
            i <= b.len(),
            from + b.len() == a.len(),
            tail == a@.skip(from as int),
            a@ == text::octets(s@),
            b@ == text::octets(word@),
            forall|j: int| 0 <= j < i ==> lower(#[trigger] tail[j]) == lower(b@[j]),
        decreases b.len() - i,
    {
        assert(tail[i as int] == a@[from + i]);
        if lower_case(a[from + i]) != lower_case(b[i]) {
            return false;
        }
        i = i + 1;
    }
    true
}

/// True iff the URI is spelled with an explicit `file:`, in any case.
pub fn has_file_scheme(uri: &str) -> (r: bool)
    ensures
        r == says_file(text::octets(uri@)),
{
    let b = uri.as_bytes();
    if b.len() < 5 || b[4] != COLON {
        return false;
    }
    scheme_is(text::prefix(uri, 4), "file")
}

fn hex_nibble(b: u8) -> (r: Option<u8>)
    ensures
        r == hex_value(b),
        r matches Some(v) ==> v < 16,
{
    if 0x30 <= b && b <= 0x39 {
        Some(b - 0x30)
    } else if 0x61 <= b && b <= 0x66 {
        Some(b - 0x61 + 10)
    } else if 0x41 <= b && b <= 0x46 {
        Some(b - 0x41 + 10)
    } else {
        None
    }
}

fn not_hex_error(b: u8) -> (r: Error)
    ensures
        r@ == not_hex(b),
{
    let mut m = "percent-encoding: non-hex digit ".to_owned();
    let shown = text::quoted_char(b as char);
    m.append(shown.as_str());
    Error::InvalidData(m)
}

/// Reads every `%` and the two hexadecimal digits after it as one byte, and
/// every other byte as itself.
pub fn percent_decode_bytes(s: &str) -> (r: Result<Vec<u8>, Error>)
    ensures
        r matches Ok(v) ==> percent_decoded(text::octets(s@), 0) == Ok::<_, ErrorView>(v@),
        r matches Err(e) ==> percent_decoded(text::octets(s@), 0) == Err::<Seq<u8>, _>(e@),
{
    let b = s.as_bytes();
    let mut out: Vec<u8> = Vec::new();
    let mut i: usize = 0;
    while i < b.len()
        invariant
            i <= b.len(),
            b@ == text::octets(s@),
            match percent_decoded(b@, i as int) {
                Ok(rest) => percent_decoded(b@, 0) == Ok::<_, ErrorView>(out@ + rest),
                Err(e) => percent_decoded(b@, 0) == Err::<Seq<u8>, _>(e),
            },
        decreases b.len() - i,
    {
        let c = b[i];
        if c == PERCENT {
            if b.len() - i < 3 {
                let mut m = "percent-encoding truncated at offset ".to_owned();
                let shown = text::decimal_string(i as u128);
                m.append(shown.as_str());
                return Err(Error::InvalidData(m));
            }
            match (hex_nibble(b[i + 1]), hex_nibble(b[i + 2])) {
                (None, _) => {
                    return Err(not_hex_error(b[i + 1]));
                },
                (Some(_), None) => {
                    return Err(not_hex_error(b[i + 2]));
                },
                (Some(hi), Some(lo)) => {
                    let ghost before = out@;
                    out.push(hi * 16 + lo);
                    proof {
                        if let Ok(rest) = percent_decoded(b@, i + 3) {
                            assert(before + (seq![(hi * 16 + lo) as u8] + rest) =~= out@ + rest);
                        }
                    }
                    i = i + 3;
                },
            }
        } else {
            let ghost before = out@;
            out.push(c);
            proof {
                if let Ok(rest) = percent_decoded(b@, i + 1) {
                    assert(before + (seq![c] + rest) =~= out@ + rest);
                }
            }
            i = i + 1;
        }
    }
    proof {
        assert(out@ + Seq::<u8>::empty() =~= out@);
    }
    Ok(out)
}

/// Percent-decodes a path, which has to come out as UTF-8.
pub fn percent_decode_path(s: &str) -> (r: Result<String, Error>)
    ensures
        r matches Ok(p) ==> decoded_path(text::octets(s@)) == Ok::<_, ErrorView>(
            text::octets(p@),
        ),
        r matches Err(e) ==> decoded_path(text::octets(s@)) == Err::<Seq<u8>, _>(e@),
{
    let b = percent_decode_bytes(s)?;
    match text::string_from_utf8(b) {
        Ok(p) => Ok(p),
        Err(m) => {
            let mut t = "percent-decoded path is not valid UTF-8: ".to_owned();
            t.append(m.as_str());
            Err(Error::InvalidData(t))
        },
    }
}

/// The path that a URI of the `file` scheme names.
pub(crate) fn path_of(uri: &str, rest: &str) -> (r: Result<String, Error>)
    requires
        text::octets(rest@) == parts(text::octets(uri@)).1,
    ensures
        r matches Ok(p) ==> file_path(text::octets(uri@)) == Ok::<_, ErrorView>(
            text::octets(p@),
        ),
        r matches Err(e) ==> file_path(text::octets(uri@)) == Err::<Seq<u8>, _>(e@),
{
    if has_file_scheme(uri) {
        percent_decode_path(rest)
    } else {
        Ok(rest.to_owned())
    }
}

/// A scheme, a colon and a rest split back into that scheme and that rest,
/// with or without a `//` between them, where the rest has none of its own. A
/// scheme of a single letter needs the `//`.
pub proof fn lemma_split_undoes_join(scheme: Seq<u8>, rest: Seq<u8>)
    requires
        is_scheme(scheme),
    ensures
        !is_drive(scheme, rest) ==> parts(scheme.push(COLON) + rest) == (
            scheme,
            without_slashes(rest),
        ),
        parts(scheme.push(COLON) + seq![text::SLASH, text::SLASH] + rest) == (scheme, rest),
{
    let plain = scheme.push(COLON) + rest;
    let dressed = scheme.push(COLON) + seq![text::SLASH, text::SLASH] + rest;
    let n = scheme.len() as int;
    assert forall|j: int| 0 <= j < n implies scheme[j] != COLON by {
        assert(is_scheme_byte(scheme[j]));
    }
    text::lemma_find_is(plain, COLON, n);
    text::lemma_find_is(dressed, COLON, n);
    assert(plain.take(n) =~= scheme);
    assert(dressed.take(n) =~= scheme);
    assert(plain.skip(n + 1) =~= rest);
    assert(dressed.skip(n + 1) =~= seq![text::SLASH, text::SLASH] + rest);
    assert(dressed.skip(n + 1).skip(2) =~= rest);
}

/// A string without a colon is a bare path.
pub proof fn lemma_no_colon_is_bare(u: Seq<u8>)
    requires
        !u.contains(COLON),
    ensures
        parts(u) == (text::octets("file"@), u),
{
    text::lemma_find(u, COLON);
    let at = text::find(u, COLON) as int;
    if at < u.len() {
        assert(u.contains(u[at]));
    }
}

/// A drive letter starts a bare path, unless `//` follows its colon.
pub proof fn lemma_drive_is_bare(drive: u8, rest: Seq<u8>)
    requires
        is_letter(drive),
        !text::leads_with_slashes(rest),
    ensures
        parts(seq![drive, COLON] + rest) == (text::octets("file"@), seq![drive, COLON] + rest),
{
    let u = seq![drive, COLON] + rest;
    text::lemma_find_is(u, COLON, 1);
    assert(u.take(1).len() == 1);
    assert(u.skip(2) =~= rest);
}

/// A single letter is a scheme where `//` follows its colon.
pub proof fn lemma_letter_with_slashes_is_a_scheme(letter: u8, rest: Seq<u8>)
    requires
        is_letter(letter),
    ensures
        parts(seq![letter, COLON, text::SLASH, text::SLASH] + rest) == (seq![letter], rest),
{
    let scheme = seq![letter];
    assert(is_scheme(scheme));
    lemma_split_undoes_join(scheme, rest);
    assert(seq![letter, COLON, text::SLASH, text::SLASH] + rest =~= scheme.push(COLON) + seq![
        text::SLASH,
        text::SLASH,
    ] + rest);
}

/// Text without a `%` decodes to itself.
pub proof fn lemma_plain_text_decodes_to_itself(s: Seq<u8>)
    requires
        !s.contains(PERCENT),
    ensures
        percent_decoded(s, 0) == Ok::<_, ErrorView>(s),
{
    lemma_plain_from(s, 0);
    assert(s.skip(0) =~= s);
}

proof fn lemma_plain_from(s: Seq<u8>, at: int)
    requires
        0 <= at <= s.len(),
        !s.contains(PERCENT),
    ensures
        percent_decoded(s, at) == Ok::<_, ErrorView>(s.skip(at)),
    decreases s.len() - at,
{
    if at < s.len() {
        assert(s.contains(s[at]));
        lemma_plain_from(s, at + 1);
        assert(seq![s[at]] + s.skip(at + 1) =~= s.skip(at));
    } else {
        assert(s.skip(at) =~= Seq::<u8>::empty());
    }
}

/// Words that agree up to case agree with the same words.
pub proof fn lemma_same_word_is_an_equivalence(a: Seq<u8>, b: Seq<u8>, c: Seq<u8>)
    ensures
        same_word(a, a),
        same_word(a, b) ==> same_word(b, a),
        same_word(a, b) && same_word(b, c) ==> same_word(a, c),
{
    if same_word(a, b) {
        assert forall|i: int| 0 <= i < b.len() implies lower(#[trigger] b[i]) == lower(a[i]) by {
            assert(lower(a[i]) == lower(b[i]));
        }
        if same_word(b, c) {
            assert forall|i: int| 0 <= i < a.len() implies lower(#[trigger] a[i]) == lower(
                c[i],
            ) by {
                assert(lower(b[i]) == lower(c[i]));
            }
        }
    }
}

/// What follows a scheme of another length than `file` is shorter than the
/// URI.
pub proof fn lemma_rest_is_shorter(u: Seq<u8>)
    ensures
        parts(u).1.len() <= u.len(),
        parts(u).0.len() != 4 ==> parts(u).1.len() < u.len(),
{
    text::lemma_find(u, COLON);
    reveal_strlit("file");
    text::lemma_octets_of_ascii("file"@);
}

} // verus!
