//! `data:` URIs, which carry their bytes in themselves.
//!
//! `data:<mediatype>,<percent-encoded>` or `data:<mediatype>;base64,<base64>`.
use crate::error::{Error, ErrorView};
use crate::stream;
use crate::stream::{BytesSource, Cursor, Source};
use crate::text;
use crate::text::{COMMA, DOT, EQUALS, MINUS, PERCENT, SEMICOLON, TILDE, UNDERSCORE};
use crate::uri;
use vstd::prelude::*;
use vstd::string::StringExecFns;

verus! {

/// A `data:` URI, taken apart.
#[derive(Clone, Debug, PartialEq, Eq)]
pub struct DataUri {
    /// What stands before the payload, without the `;base64` marker.
    pub mediatype: String,
    /// True iff the payload is spelled in base64.
    pub base64: bool,
    /// The decoded payload.
    pub data: Vec<u8>,
}

/// The content of a [`DataUri`].
#[verifier::ext_equal]
pub ghost struct DataParts {
    pub mediatype: Seq<u8>,
    pub base64: bool,
    pub data: Seq<u8>,
}

impl View for DataUri {
    type V = DataParts;

    open spec fn view(&self) -> DataParts {
        DataParts {
            mediatype: text::octets(self.mediatype@),
            base64: self.base64,
            data: self.data@,
        }
    }
}

/// The marker of a payload in base64.
pub open spec fn marker() -> Seq<u8> {
    text::octets(";base64"@)
}

/// True iff a byte stands for itself in a percent-encoded payload.
pub open spec fn is_unreserved(b: u8) -> bool {
    uri::is_letter(b) || uri::is_digit(b) || b == MINUS || b == DOT || b == UNDERSCORE || b == TILDE
}

/// The upper-case hexadecimal digit of a value below sixteen.
pub open spec fn hex_digit(v: int) -> u8 {
    if v < 10 {
        (0x30 + v) as u8
    } else {
        (0x41 + (v - 10)) as u8
    }
}

/// How a byte is spelled in a percent-encoded payload.
pub open spec fn percent_piece(b: u8) -> Seq<u8> {
    if is_unreserved(b) {
        seq![b]
    } else {
        seq![PERCENT, hex_digit(b as int / 16), hex_digit(b as int % 16)]
    }
}

/// How a payload is percent-encoded.
pub open spec fn percent_encoded(d: Seq<u8>) -> Seq<u8>
    decreases d.len(),
{
    if d.len() == 0 {
        Seq::empty()
    } else {
        percent_encoded(d.drop_last()) + percent_piece(d.last())
    }
}

/// The character of the base64 alphabet for a value below 64.
pub open spec fn b64_char(v: int) -> u8 {
    if v < 26 {
        (0x41 + v) as u8
    } else if v < 52 {
        (0x61 + (v - 26)) as u8
    } else if v < 62 {
        (0x30 + (v - 52)) as u8
    } else if v == 62 {
        0x2b
    } else {
        0x2f
    }
}

/// The value of a character of the base64 alphabet.
pub open spec fn b64_val(b: u8) -> Option<u8> {
    if 0x41 <= b <= 0x5a {
        Some((b - 0x41) as u8)
    } else if 0x61 <= b <= 0x7a {
        Some((b - 0x61 + 26) as u8)
    } else if 0x30 <= b <= 0x39 {
        Some((b - 0x30 + 52) as u8)
    } else if b == 0x2b {
        Some(62)
    } else if b == 0x2f {
        Some(63)
    } else {
        None
    }
}

/// The four characters that spell three bytes.
#[verifier::opaque]
pub open spec fn b64_group(a: u8, b: u8, c: u8) -> Seq<u8> {
    let t = a * 65536 + b * 256 + c;
    seq![b64_char(t / 262144), b64_char(t / 4096 % 64), b64_char(t / 64 % 64), b64_char(t % 64)]
}

/// How a payload is spelled in base64.
pub open spec fn base64_encoded(d: Seq<u8>) -> Seq<u8>
    decreases d.len(),
{
    if d.len() == 0 {
        Seq::empty()
    } else if d.len() == 1 {
        b64_group(d[0], 0, 0).take(2).push(EQUALS).push(EQUALS)
    } else if d.len() == 2 {
        b64_group(d[0], d[1], 0).take(3).push(EQUALS)
    } else {
        b64_group(d[0], d[1], d[2]) + base64_encoded(d.skip(3))
    }
}

/// True iff a byte is skipped in a base64 payload.
pub open spec fn is_blank(b: u8) -> bool {
    b == 0x20 || b == 0x09 || b == 0x0a || b == 0x0d
}

/// A base64 payload without its blanks.
pub open spec fn without_blanks(s: Seq<u8>) -> Seq<u8> {
    s.filter(|b: u8| !is_blank(b))
}

/// What is wrong with the characters of a group from `j` on, where `pads`
/// padding characters went before.
pub open spec fn group_fault(g: Seq<u8>, j: int, pads: int) -> Option<ErrorView>
    decreases 4 - j,
{
    if j >= 4 {
        None
    } else if g[j] == EQUALS {
        group_fault(g, j + 1, pads + 1)
    } else if pads > 0 {
        Some(ErrorView::InvalidData("data:// base64 padding character before end of payload"@))
    } else if b64_val(g[j]) is None {
        Some(
            ErrorView::InvalidData(
                "data:// base64: invalid character "@ + text::debug_char(g[j] as char),
            ),
        )
    } else {
        group_fault(g, j + 1, 0)
    }
}

/// How many of the first `j` characters of a group are padding.
pub open spec fn group_pads(g: Seq<u8>, j: int) -> int
    decreases j,
{
    if j <= 0 {
        0
    } else {
        group_pads(g, j - 1) + if g[j - 1] == EQUALS {
            1int
        } else {
            0
        }
    }
}

/// The value of a character in a group, where padding counts as zero.
pub open spec fn group_val(b: u8) -> int {
    match b64_val(b) {
        Some(v) => v as int,
        None => 0,
    }
}

/// The number that the values of a group make up.
pub open spec fn group_number(g: Seq<u8>) -> int {
    group_val(g[0]) * 262144 + group_val(g[1]) * 4096 + group_val(g[2]) * 64 + group_val(g[3])
}

/// The upper bytes of a number of three bytes, all but `pads` of them.
#[verifier::opaque]
pub open spec fn upper_bytes(t: int, pads: int) -> Seq<u8> {
    seq![(t / 65536) as u8, (t / 256 % 256) as u8, (t % 256) as u8].take(3 - pads)
}

/// The bytes that a group with `pads` padding characters spells.
pub open spec fn group_bytes(g: Seq<u8>, pads: int) -> Seq<u8> {
    upper_bytes(group_number(g), pads)
}

/// What the groups of a base64 payload spell. Padding is for the last one.
pub open spec fn base64_groups(s: Seq<u8>) -> Result<Seq<u8>, ErrorView>
    decreases s.len(),
{
    if s.len() < 4 {
        Ok(Seq::empty())
    } else {
        let g = s.take(4);
        let pads = group_pads(g, 4);
        if let Some(e) = group_fault(g, 0, 0) {
            Err(e)
        } else if pads > 2 {
            Err(
                ErrorView::InvalidData(
                    "data:// base64: more than two padding characters in a group"@,
                ),
            )
        } else if pads > 0 && s.len() > 4 {
            Err(ErrorView::InvalidData("data:// base64: padding before final group"@))
        } else {
            match base64_groups(s.skip(4)) {
                Ok(rest) => Ok(group_bytes(g, pads) + rest),
                Err(e) => Err(e),
            }
        }
    }
}

/// What a base64 payload spells.
pub open spec fn base64_decoded(s: Seq<u8>) -> Result<Seq<u8>, ErrorView> {
    let clean = without_blanks(s);
    if clean.len() % 4 != 0 {
        Err(
            ErrorView::InvalidData(
                "data:// base64 payload length "@ + text::letters(text::decimal(clean.len()))
                    + " is not a multiple of 4"@,
            ),
        )
    } else {
        base64_groups(clean)
    }
}

impl DataParts {
    /// True iff the value has a spelling as a URI.
    pub open spec fn is_spellable(self) -> bool {
        &&& !self.mediatype.contains(COMMA)
        &&& self.base64 || !uri::ends_in(self.mediatype, marker())
        &&& !text::leads_with_slashes(self.mediatype)
    }

    /// The spelling as a URI.
    pub open spec fn spelled(self) -> Seq<u8> {
        if self.base64 {
            text::octets("data:"@) + self.mediatype + text::octets(";base64,"@) + base64_encoded(
                self.data,
            )
        } else {
            text::octets("data:"@) + self.mediatype + seq![COMMA] + percent_encoded(self.data)
        }
    }
}

/// Why a value has no spelling as a URI.
pub open spec fn unspellable(mediatype: Seq<u8>, base64: bool) -> Option<ErrorView> {
    let name = "data: mediatype "@ + text::shown(mediatype);
    if mediatype.contains(COMMA) {
        Some(
            ErrorView::InvalidData(
                name
                    + " contains a ','; the grammar splits header from payload at the first comma, so the value cannot round-trip"@,
            ),
        )
    } else if !base64 && uri::ends_in(mediatype, marker()) {
        Some(
            ErrorView::InvalidData(
                name
                    + " ends with the \";base64\" marker while the payload is percent-encoded; the formatted URI would re-parse as base64 and the value cannot round-trip"@,
            ),
        )
    } else if text::leads_with_slashes(mediatype) {
        Some(
            ErrorView::InvalidData(
                name
                    + " starts with \"//\"; it cannot round-trip because the formatted URI's leading '//' reads as an authority-style spelling and is stripped on re-parse"@,
            ),
        )
    } else {
        None
    }
}

/// What a `data:` URI says.
pub open spec fn parsed(u: Seq<u8>) -> Result<DataParts, ErrorView> {
    let (scheme, rest) = uri::parts(u);
    let comma = text::find(rest, COMMA) as int;
    if !uri::same_word(scheme, text::octets("data"@)) {
        Err(
            ErrorView::InvalidData(
                "data driver invoked on non-data URI: "@ + text::letters(u),
            ),
        )
    } else if comma == rest.len() {
        Err(ErrorView::InvalidData("data: URI missing comma separator"@))
    } else {
        let header = rest.take(comma);
        let payload = rest.skip(comma + 1);
        let base64 = uri::ends_in(header, marker());
        let mediatype = if base64 {
            header.take(header.len() - marker().len())
        } else {
            header
        };
        if text::leads_with_slashes(mediatype) {
            Err(
                ErrorView::InvalidData(
                    "data: mediatype "@ + text::shown(mediatype)
                        + " starts with \"//\" after the scheme split; it is ambiguous with an authority-style spelling and cannot round-trip"@,
                ),
            )
        } else {
            match if base64 {
                base64_decoded(payload)
            } else {
                uri::percent_decoded(payload, 0)
            } {
                Ok(data) => Ok(DataParts { mediatype, base64, data }),
                Err(e) => Err(e),
            }
        }
    }
}

fn b64_char_of(v: u32) -> (r: u8)
    requires
        v < 64,
    ensures
        r == b64_char(v as int),
        r < 128,
{
    if v < 26 {
        0x41 + v as u8
    } else if v < 52 {
        0x61 + (v - 26) as u8
    } else if v < 62 {
        0x30 + (v - 52) as u8
    } else if v == 62 {
        0x2b
    } else {
        0x2f
    }
}

fn push_ascii(out: &mut String, b: u8)
    requires
        b < 128,
    ensures
        text::octets(final(out)@) == text::octets(old(out)@).push(b),
{
    proof {
        text::lemma_octets_push_ascii(out@, b);
    }
    out.push(b as char);
}

/// True iff a text has the form of `n` bytes in base64: four characters for
/// every three bytes or part of them, all of the alphabet but for the padding
/// at the end.
pub open spec fn is_base64_of(e: Seq<u8>, n: int) -> bool {
    &&& e.len() == 4 * ((n + 2) / 3)
    &&& forall|i: int| 0 <= i < e.len() - pads_for(n) ==> b64_val(#[trigger] e[i]) is Some
    &&& forall|i: int| e.len() - pads_for(n) <= i < e.len() ==> #[trigger] e[i] == EQUALS
}

/// Appends the spelling of `payload` in base64: characters of the alphabet,
/// four for every three bytes or part of them, with padding for what is
/// missing in the last group. Decoding gives the payload back.
pub fn encode_base64_into(payload: &[u8], out: &mut String)
    ensures
        text::octets(final(out)@) == text::octets(old(out)@) + base64_encoded(payload@),
        ({
            let e = text::octets(final(out)@).skip(text::octets(old(out)@).len() as int);
            &&& base64_decoded(e) == Ok::<_, ErrorView>(payload@)
            &&& is_base64_of(e, payload@.len() as int)
        }),
{
    proof {
        lemma_base64_round_trip(payload@);
        lemma_base64_form(payload@);
    }
    let mut i: usize = 0;
    let ghost goal = text::octets(old(out)@) + base64_encoded(payload@);
    reveal(b64_group);
    assert(payload@.skip(0) =~= payload@);
    while payload.len() - i >= 3
        invariant
            i <= payload.len(),
            goal == text::octets(out@) + base64_encoded(payload@.skip(i as int)),
        decreases payload.len() - i,
    {
        let ghost before = text::octets(out@);
        reveal(b64_group);
        let t: u32 = payload[i] as u32 * 65536 + payload[i + 1] as u32 * 256 + payload[i + 2] as u32;
        push_ascii(out, b64_char_of(t / 262144));
        push_ascii(out, b64_char_of(t / 4096 % 64));
        push_ascii(out, b64_char_of(t / 64 % 64));
        push_ascii(out, b64_char_of(t % 64));
        proof {
            let left = payload@.skip(i as int);
            let rest = payload@.skip(i + 3);
            assert(left.skip(3) =~= rest);
            let g = b64_group(left[0], left[1], left[2]);
            assert(before + (g + base64_encoded(rest)) =~= text::octets(out@) + base64_encoded(
                rest,
            ));
        }
        i = i + 3;
    }
    let ghost before = text::octets(out@);
    let ghost left = payload@.skip(i as int);
    if payload.len() - i == 1 {
        let t: u32 = payload[i] as u32 * 65536;
        push_ascii(out, b64_char_of(t / 262144));
        push_ascii(out, b64_char_of(t / 4096 % 64));
        push_ascii(out, EQUALS);
        push_ascii(out, EQUALS);
    } else if payload.len() - i == 2 {
        let t: u32 = payload[i] as u32 * 65536 + payload[i + 1] as u32 * 256;
        push_ascii(out, b64_char_of(t / 262144));
        push_ascii(out, b64_char_of(t / 4096 % 64));
        push_ascii(out, b64_char_of(t / 64 % 64));
        push_ascii(out, EQUALS);
    }
    assert(before + base64_encoded(left) =~= text::octets(out@));
    proof {
        let e = base64_encoded(payload@);
        assert(goal.skip(text::octets(old(out)@).len() as int) =~= e);
    }
}

fn hex_digit_of(v: u8) -> (r: u8)
    requires
        v < 16,
    ensures
        r == hex_digit(v as int),
        r < 128,
{
    if v < 10 {
        0x30 + v
    } else {
        0x41 + (v - 10)
    }
}

fn unreserved(b: u8) -> (r: bool)
    ensures
        r == is_unreserved(b),
{
    (0x41 <= b && b <= 0x5a) || (0x61 <= b && b <= 0x7a) || (0x30 <= b && b <= 0x39) || b == MINUS
        || b == DOT || b == UNDERSCORE || b == TILDE
}

/// Appends the percent-encoding of `payload`.
fn percent_encode_into(payload: &[u8], out: &mut String)
    ensures
        text::octets(final(out)@) == text::octets(old(out)@) + percent_encoded(payload@),
{
    let mut i: usize = 0;
    let ghost start = text::octets(out@);
    assert(payload@.take(0) =~= Seq::<u8>::empty());
    assert(start + Seq::<u8>::empty() =~= start);
    while i < payload.len()
        invariant
            i <= payload.len(),
            text::octets(out@) == start + percent_encoded(payload@.take(i as int)),
        decreases payload.len() - i,
    {
        let b = payload[i];
        let ghost before = text::octets(out@);
        if unreserved(b) {
            push_ascii(out, b);
        } else {
            push_ascii(out, PERCENT);
            push_ascii(out, hex_digit_of(b / 16));
            push_ascii(out, hex_digit_of(b % 16));
        }
        proof {
            let next = payload@.take(i + 1);
            assert(next.drop_last() =~= payload@.take(i as int));
            assert(text::octets(out@) =~= start + (percent_encoded(payload@.take(i as int))
                + percent_piece(b)));
        }
        i = i + 1;
    }
    assert(payload@.take(i as int) =~= payload@);
}

fn b64_value(b: u8) -> (r: Option<u8>)
    ensures
        r == b64_val(b),
        r matches Some(v) ==> v < 64,
{
    if 0x41 <= b && b <= 0x5a {
        Some(b - 0x41)
    } else if 0x61 <= b && b <= 0x7a {
        Some(b - 0x61 + 26)
    } else if 0x30 <= b && b <= 0x39 {
        Some(b - 0x30 + 52)
    } else if b == 0x2b {
        Some(62)
    } else if b == 0x2f {
        Some(63)
    } else {
        None
    }
}

/// `s` without its blanks.
fn drop_blanks(s: &str) -> (r: Vec<u8>)
    ensures
        r@ == without_blanks(text::octets(s@)),
{
    let b = s.as_bytes();
    let mut clean: Vec<u8> = Vec::new();
    let mut i: usize = 0;
    let ghost keep = |b: u8| !is_blank(b);
    assert(b@.take(0) =~= Seq::<u8>::empty());
    reveal(Seq::filter);
    while i < b.len()
        invariant
            i <= b.len(),
            b@ == text::octets(s@),
            keep == (|b: u8| !is_blank(b)),
            clean@ == b@.take(i as int).filter(keep),
        decreases b.len() - i,
    {
        let c = b[i];
        proof {
            reveal(Seq::filter);
            assert(b@.take(i + 1).drop_last() =~= b@.take(i as int));
        }
        if !(c == 0x20 || c == 0x09 || c == 0x0a || c == 0x0d) {
            clean.push(c);
        }
        i = i + 1;
    }
    assert(b@.take(i as int) =~= b@);
    clean
}

/// The value of a group's characters, or what is wrong with it, and how many
/// of them are padding.
fn read_group(s: &Vec<u8>, at: usize) -> (r: Result<(u32, usize), Error>)
    requires
        at + 4 <= s@.len(),
    ensures
        ({
            let g = s@.subrange(at as int, at + 4);
            match r {
                Ok((t, pads)) => {
                    &&& group_fault(g, 0, 0) is None
                    &&& pads == group_pads(g, 4)
                    &&& t == group_number(g)
                    &&& t < 16777216
                },
                Err(e) => group_fault(g, 0, 0) == Some(e@),
            }
        }),
{
    let ghost g = s@.subrange(at as int, at + 4);
    let mut pads: usize = 0;
    let mut t: u32 = 0;
    let mut j: usize = 0;
    assert(at + 4 <= s.len());
    assert(group_pads(g, 0) == 0);
    while j < 4
        invariant
            j <= 4,
            at + 4 <= s.len(),
            g == s@.subrange(at as int, at + 4),
            pads <= j,
            pads == group_pads(g, j as int),
            group_fault(g, 0, 0) == group_fault(g, j as int, pads as int),
            j == 0 ==> t == 0,
            j == 1 ==> t == group_val(g[0]) && t < 64,
            j == 2 ==> t == group_val(g[0]) * 64 + group_val(g[1]) && t < 4096,
            j == 3 ==> t == group_val(g[0]) * 4096 + group_val(g[1]) * 64 + group_val(g[2]) && t
                < 262144,
            j == 4 ==> t == group_val(g[0]) * 262144 + group_val(g[1]) * 4096 + group_val(g[2]) * 64
                + group_val(g[3]) && t < 16777216,
        decreases 4 - j,
    {
        let b = s[at + j];
        assert(b == g[j as int]);
        if b == EQUALS {
            pads = pads + 1;
            t = t * 64;
        } else {
            if pads > 0 {
                return Err(
                    Error::invalid("data:// base64 padding character before end of payload"),
                );
            }
            match b64_value(b) {
                Some(v) => {
                    t = t * 64 + v as u32;
                },
                None => {
                    let mut m = "data:// base64: invalid character ".to_owned();
                    let shown = text::quoted_char(b as char);
                    m.append(shown.as_str());
                    return Err(Error::InvalidData(m));
                },
            }
        }
        j = j + 1;
    }
    Ok((t, pads))
}

/// Appends the bytes that a group spells.
fn push_group(out: &mut Vec<u8>, t: u32, pads: usize)
    requires
        t < 16777216,
        pads <= 2,
    ensures
        final(out)@ == old(out)@ + upper_bytes(t as int, pads as int),
{
    out.push((t / 65536) as u8);
    if pads < 2 {
        out.push((t / 256 % 256) as u8);
    }
    if pads < 1 {
        out.push((t % 256) as u8);
    }
    proof {
        reveal(upper_bytes);
        assert(out@ =~= old(out)@ + upper_bytes(t as int, pads as int));
    }
}

/// Reads a base64 payload.
pub fn decode_base64(s: &str) -> (r: Result<Vec<u8>, Error>)
    ensures
        r matches Ok(v) ==> base64_decoded(text::octets(s@)) == Ok::<_, ErrorView>(v@),
        r matches Err(e) ==> base64_decoded(text::octets(s@)) == Err::<Seq<u8>, _>(e@),
{
    let clean = drop_blanks(s);
    if clean.len() % 4 != 0 {
        let mut m = "data:// base64 payload length ".to_owned();
        let len = text::decimal_string(clean.len() as u128);
        m.append(len.as_str());
        m.append(" is not a multiple of 4");
        return Err(Error::InvalidData(m));
    }
    let mut out: Vec<u8> = Vec::new();
    let mut i: usize = 0;
    let ghost goal = base64_groups(clean@);
    assert(clean@.skip(0) =~= clean@);
    while i < clean.len()
        invariant
            i <= clean.len(),
            i % 4 == 0,
            clean.len() % 4 == 0,
            match base64_groups(clean@.skip(i as int)) {
                Ok(rest) => goal == Ok::<_, ErrorView>(out@ + rest),
                Err(e) => goal == Err::<Seq<u8>, _>(e),
            },
            clean@ == without_blanks(text::octets(s@)),
            goal == base64_groups(clean@),
        decreases clean.len() - i,
    {
        let ghost left = clean@.skip(i as int);
        let ghost g = left.take(4);
        proof {
            assert(clean.len() - i >= 4);
            assert(g =~= clean@.subrange(i as int, i + 4));
            assert(left.skip(4) =~= clean@.skip(i + 4));
        }
        let (t, pads) = read_group(&clean, i)?;
        if pads > 2 {
            return Err(
                Error::invalid("data:// base64: more than two padding characters in a group"),
            );
        }
        if pads > 0 && i + 4 < clean.len() {
            return Err(Error::invalid("data:// base64: padding before final group"));
        }
        let ghost before = out@;
        push_group(&mut out, t, pads);
        proof {
            if let Ok(rest) = base64_groups(clean@.skip(i + 4)) {
                assert(before + (group_bytes(g, pads as int) + rest) =~= out@ + rest);
            }
        }
        i = i + 4;
    }
    assert(out@ + Seq::<u8>::empty() =~= out@);
    Ok(out)
}

/// The length of the marker.
pub proof fn lemma_marker()
    ensures
        marker().len() == 7,
        marker()[0] == SEMICOLON,
        forall|i: int| 0 <= i < 7 ==> marker()[i] < 128,
        forall|i: int| 0 <= i < 7 ==> marker()[i] != COMMA,
        text::octets(";base64,"@) == marker().push(COMMA),
{
    reveal_strlit(";base64");
    reveal_strlit(";base64,");
    text::lemma_octets_of_ascii(";base64"@);
    text::lemma_octets_of_ascii(";base64,"@);
    assert(text::octets(";base64,"@) =~= marker().push(COMMA));
}

/// `header` without the marker that it ends with, if it does.
fn strip_base64_suffix<'a>(header: &'a str) -> (r: Option<&'a str>)
    ensures
        match r {
            Some(m) => uri::ends_in(text::octets(header@), marker()) && text::octets(m@)
                == text::octets(header@).take(text::octets(header@).len() - marker().len()),
            None => !uri::ends_in(text::octets(header@), marker()),
        },
{
    if uri::ends_with_word(header, ";base64") {
        proof {
            lemma_marker();
            let h = text::octets(header@);
            let tail = h.skip(h.len() - 7);
            assert(uri::lower(tail[0]) == uri::lower(marker()[0]));
            assert(tail[0] == h[h.len() - 7]);
        }
        let bytes = header.as_bytes();
        Some(text::prefix(header, bytes.len() - 7))
    } else {
        None
    }
}

impl DataUri {
    /// A URI with the given parts. Parts that would not come back from its
    /// spelling are refused.
    pub fn new(mediatype: &str, base64: bool, data: Vec<u8>) -> (r: Result<Self, Error>)
        ensures
            match r {
                Ok(d) => {
                    &&& unspellable(text::octets(mediatype@), base64) is None
                    &&& d@ == (DataParts {
                        mediatype: text::octets(mediatype@),
                        base64,
                        data: data@,
                    })
                    &&& d@.is_spellable()
                },
                Err(e) => unspellable(text::octets(mediatype@), base64) == Some(e@),
            },
    {
        let shown = text::show(mediatype);
        if text::contains_byte(mediatype, COMMA) {
            return Err(
                Error::InvalidData(
                    text::join3(
                        "data: mediatype ",
                        shown.as_str(),
                        " contains a ','; the grammar splits header from payload at the first comma, so the value cannot round-trip",
                    ),
                ),
            );
        }
        if !base64 && uri::ends_with_word(mediatype, ";base64") {
            return Err(
                Error::InvalidData(
                    text::join3(
                        "data: mediatype ",
                        shown.as_str(),
                        " ends with the \";base64\" marker while the payload is percent-encoded; the formatted URI would re-parse as base64 and the value cannot round-trip",
                    ),
                ),
            );
        }
        if text::starts_with_slashes(mediatype) {
            return Err(
                Error::InvalidData(
                    text::join3(
                        "data: mediatype ",
                        shown.as_str(),
                        " starts with \"//\"; it cannot round-trip because the formatted URI's leading '//' reads as an authority-style spelling and is stripped on re-parse",
                    ),
                ),
            );
        }
        Ok(DataUri { mediatype: mediatype.to_owned(), base64, data })
    }

    /// The canonical spelling.
    pub fn format(&self) -> (r: String)
        ensures
            text::octets(r@) == self@.spelled(),
    {
        let mut s = "data:".to_owned();
        s.append(self.mediatype.as_str());
        proof {
            text::lemma_octets_concat("data:"@, self.mediatype@);
        }
        if self.base64 {
            proof {
                text::lemma_octets_concat(s@, ";base64,"@);
            }
            s.append(";base64,");
            encode_base64_into(self.data.as_slice(), &mut s);
        } else {
            push_ascii(&mut s, COMMA);
            proof {
                let head = text::octets("data:"@) + self@.mediatype;
                assert(head.push(COMMA) =~= head + seq![COMMA]);
            }
            percent_encode_into(self.data.as_slice(), &mut s);
        }
        s
    }

    /// The canonical spelling.
    pub fn to_string(&self) -> (r: String)
        ensures
            text::octets(r@) == self@.spelled(),
    {
        self.format()
    }

    /// A stream over the payload.
    pub fn open(&self) -> (r: Result<Source, Error>)
        ensures
            r matches Ok(s) && s.is_steady() && s.fills() && stream::never_fails(&s) && s.bytes() == self.data@
                && s.pos() == 0,
    {
        let c = Cursor::new(vstd::slice::slice_to_vec(self.data.as_slice()));
        Ok(Source { stream: Box::new(c) })
    }
}

/// Takes a `data:` URI apart.
pub fn parse(uri_str: &str) -> (r: Result<DataUri, Error>)
    ensures
        r matches Ok(d) ==> parsed(text::octets(uri_str@)) == Ok::<_, ErrorView>(d@),
        r matches Err(e) ==> parsed(text::octets(uri_str@)) == Err::<DataParts, _>(e@),
{
    let (scheme, rest) = uri::split(uri_str);
    if !uri::scheme_is(scheme, "data") {
        proof {
            text::lemma_letters_of_octets(uri_str@);
        }
        let mut m = "data driver invoked on non-data URI: ".to_owned();
        m.append(uri_str);
        return Err(Error::InvalidData(m));
    }
    let at = match text::find_byte(rest, COMMA) {
        Some(at) => at,
        None => {
            return Err(Error::invalid("data: URI missing comma separator"));
        },
    };
    proof {
        text::lemma_find(text::octets(rest@), COMMA);
    }
    let (header, payload) = text::cut(rest, at);
    let (mediatype, base64) = match strip_base64_suffix(header) {
        Some(m) => (m, true),
        None => (header, false),
    };
    if text::starts_with_slashes(mediatype) {
        let shown = text::show(mediatype);
        return Err(
            Error::InvalidData(
                text::join3(
                    "data: mediatype ",
                    shown.as_str(),
                    " starts with \"//\" after the scheme split; it is ambiguous with an authority-style spelling and cannot round-trip",
                ),
            ),
        );
    }
    let data = if base64 {
        decode_base64(payload)?
    } else {
        uri::percent_decode_bytes(payload)?
    };
    Ok(DataUri { mediatype: mediatype.to_owned(), base64, data })
}

/// Opens a stream over the bytes that a `data:` URI carries.
pub fn open_data(uri_str: &str) -> (r: Result<Source, Error>)
    ensures
        match r {
            Ok(s) => parsed(text::octets(uri_str@)) matches Ok(d) && s.is_steady()
                && s.fills() && stream::never_fails(&s) && s.bytes() == d.data && s.pos() == 0,
            Err(e) => parsed(text::octets(uri_str@)) == Err::<DataParts, _>(e@),
        },
{
    let d = parse(uri_str)?;
    let c = Cursor::new(d.data);
    Ok(Source { stream: Box::new(c) })
}

/// Blanks are all that is taken out of a base64 payload.
pub proof fn lemma_nothing_blank(s: Seq<u8>)
    requires
        forall|i: int| 0 <= i < s.len() ==> !is_blank(#[trigger] s[i]),
    ensures
        without_blanks(s) == s,
    decreases s.len(),
{
    reveal(Seq::filter);
    if s.len() > 0 {
        assert(!is_blank(s[s.len() - 1]));
        assert forall|i: int| 0 <= i < s.drop_last().len() implies !is_blank(
            #[trigger] s.drop_last()[i],
        ) by {
            assert(!is_blank(s[i]));
        }
        lemma_nothing_blank(s.drop_last());
        assert(s.drop_last().push(s.last()) =~= s);
    }
}

/// A character of the alphabet is neither blank nor padding, and stands for
/// the value that it was made from.
proof fn lemma_b64_char(v: int)
    requires
        0 <= v < 64,
    ensures
        b64_val(b64_char(v)) == Some(v as u8),
        group_val(b64_char(v)) == v,
        b64_char(v) != EQUALS,
        !is_blank(b64_char(v)),
{
}

/// Four sextets spell three octets.
pub proof fn lemma_sextets(a: int, b: int, c: int)
    requires
        0 <= a < 256,
        0 <= b < 256,
        0 <= c < 256,
    ensures
        ({
            let t = a * 65536 + b * 256 + c;
            &&& 0 <= t / 262144 < 64
            &&& (t / 262144) * 262144 + (t / 4096 % 64) * 4096 + (t / 64 % 64) * 64 + t % 64 == t
            &&& t / 65536 == a
            &&& t / 256 % 256 == b
            &&& t % 256 == c
            &&& c == 0 ==> t % 64 == 0
            &&& b == 0 && c == 0 ==> t / 64 % 64 == 0
        }),
{
    let t = a * 65536 + b * 256 + c;
    vstd::arithmetic::div_mod::lemma_div_denominator(t, 64, 64);
    vstd::arithmetic::div_mod::lemma_div_denominator(t, 4096, 64);
    assert(t == (t / 64) * 64 + t % 64);
    assert(t / 64 == (t / 4096) * 64 + t / 64 % 64);
    assert(t / 4096 == (t / 262144) * 64 + t / 4096 % 64);
    vstd::arithmetic::div_mod::lemma_div_denominator(t, 256, 256);
    assert(t / 256 == a * 256 + b);
}

/// A group of characters of the alphabet, followed by padding, is sound.
pub proof fn lemma_sound_group(g: Seq<u8>, pads: int)
    requires
        0 <= pads <= 2,
        g.len() == 4,
        forall|i: int|
            0 <= i < 4 - pads ==> b64_val(#[trigger] g[i]) is Some && g[i] != EQUALS,
        forall|i: int| 4 - pads <= i < 4 ==> #[trigger] g[i] == EQUALS,
    ensures
        group_fault(g, 0, 0) is None,
        group_pads(g, 4) == pads,
{
    assert(g[0] != EQUALS && g[1] != EQUALS);
    assert(group_pads(g, 0) == 0);
    assert(group_pads(g, 1) == 0);
    assert(group_pads(g, 2) == 0);
    if pads < 2 {
        assert(g[2] != EQUALS);
        assert(group_pads(g, 3) == 0);
    } else {
        assert(g[2] == EQUALS);
        assert(group_pads(g, 3) == 1);
    }
    if pads < 1 {
        assert(g[3] != EQUALS);
    } else {
        assert(g[3] == EQUALS);
    }
    let at2 = if pads < 2 {
        0int
    } else {
        1
    };
    assert(group_fault(g, 4, pads) is None);
    assert(group_fault(g, 3, at2) is None);
    assert(group_fault(g, 2, 0) is None);
    assert(group_fault(g, 1, 0) is None);
}

/// The group of three bytes, with the last characters replaced by padding,
/// spells those of the bytes that are left.
proof fn lemma_group_round_trip(a: u8, b: u8, c: u8, pads: int, g: Seq<u8>)
    requires
        0 <= pads <= 2,
        pads >= 1 ==> c == 0,
        pads >= 2 ==> b == 0,
        g.len() == 4,
        forall|i: int| 0 <= i < 4 - pads ==> #[trigger] g[i] == b64_group(a, b, c)[i],
        forall|i: int| 4 - pads <= i < 4 ==> #[trigger] g[i] == EQUALS,
    ensures
        group_fault(g, 0, 0) is None,
        group_pads(g, 4) == pads,
        group_bytes(g, pads) == seq![a, b, c].take(3 - pads),
        forall|i: int| 0 <= i < 4 ==> !is_blank(#[trigger] g[i]),
{
    reveal(b64_group);
    let t = a * 65536 + b * 256 + c;
    let v0 = t / 262144;
    let v1 = t / 4096 % 64;
    let v2 = t / 64 % 64;
    let v3 = t % 64;
    lemma_sextets(a as int, b as int, c as int);
    lemma_b64_char(v0);
    lemma_b64_char(v1);
    lemma_b64_char(v2);
    lemma_b64_char(v3);
    assert(g[0] == b64_char(v0));
    assert(g[1] == b64_char(v1));
    assert(pads < 2 ==> g[2] == b64_char(v2));
    assert(pads < 1 ==> g[3] == b64_char(v3));
    assert(pads >= 2 ==> g[2] == EQUALS);
    assert(pads >= 1 ==> g[3] == EQUALS);
    assert forall|i: int| 0 <= i < 4 - pads implies b64_val(#[trigger] g[i]) is Some && g[i]
        != EQUALS by {
        assert(i == 0 || i == 1 || i == 2 || i == 3);
    }
    lemma_sound_group(g, pads);
    assert(group_val(g[2]) == v2);
    assert(group_val(g[3]) == v3);
    assert(group_number(g) == t);
    reveal(upper_bytes);
    assert(group_bytes(g, pads) =~= seq![a, b, c].take(3 - pads));
    assert forall|i: int| 0 <= i < 4 implies !is_blank(#[trigger] g[i]) by {
        assert(i == 0 || i == 1 || i == 2 || i == 3);
    }
}

/// Base64 decoding undoes base64 encoding.
pub proof fn lemma_base64_round_trip(d: Seq<u8>)
    ensures
        base64_decoded(base64_encoded(d)) == Ok::<_, ErrorView>(d),
{
    lemma_base64_shape(d);
    lemma_nothing_blank(base64_encoded(d));
}

proof fn lemma_base64_shape(d: Seq<u8>)
    ensures
        base64_encoded(d).len() % 4 == 0,
        base64_encoded(d).len() == 0 <==> d.len() == 0,
        forall|i: int|
            0 <= i < base64_encoded(d).len() ==> !is_blank(#[trigger] base64_encoded(d)[i]),
        base64_groups(base64_encoded(d)) == Ok::<_, ErrorView>(d),
    decreases d.len(),
{
    if d.len() == 0 {
        assert(d =~= Seq::<u8>::empty());
    } else if d.len() <= 2 {
        lemma_base64_shape_of_end(d);
    } else {
        let rest = d.skip(3);
        lemma_base64_shape(rest);
        lemma_base64_shape_of_front(d[0], d[1], d[2], rest);
        assert(seq![d[0], d[1], d[2]] + rest =~= d);
        assert(base64_encoded(d) == b64_group(d[0], d[1], d[2]) + base64_encoded(rest));
    }
}

proof fn lemma_base64_shape_of_end(d: Seq<u8>)
    requires
        1 <= d.len() <= 2,
    ensures
        base64_encoded(d).len() == 4,
        forall|i: int| 0 <= i < 4 ==> !is_blank(#[trigger] base64_encoded(d)[i]),
        base64_groups(base64_encoded(d)) == Ok::<_, ErrorView>(d),
{
    reveal(b64_group);
    let s = base64_encoded(d);
    let b = if d.len() == 2 {
        d[1]
    } else {
        0
    };
    let pads = 3 - d.len();
    lemma_group_round_trip(d[0], b, 0, pads, s);
    assert(s.take(4) =~= s);
    assert(s.skip(4) =~= Seq::<u8>::empty());
    assert(base64_groups(s.skip(4)) == Ok::<_, ErrorView>(Seq::<u8>::empty()));
    assert(group_bytes(s, pads) + Seq::<u8>::empty() =~= d);
}

proof fn lemma_base64_shape_of_front(a: u8, b: u8, c: u8, rest: Seq<u8>)
    requires
        forall|i: int|
            0 <= i < base64_encoded(rest).len() ==> !is_blank(#[trigger] base64_encoded(rest)[i]),
        base64_groups(base64_encoded(rest)) == Ok::<_, ErrorView>(rest),
    ensures
        b64_group(a, b, c).len() == 4,
        forall|i: int|
            0 <= i < 4 + base64_encoded(rest).len() ==> !is_blank(
                #[trigger] (b64_group(a, b, c) + base64_encoded(rest))[i],
            ),
        base64_groups(b64_group(a, b, c) + base64_encoded(rest)) == Ok::<_, ErrorView>(
            seq![a, b, c] + rest,
        ),
{
    let g = b64_group(a, b, c);
    assert(g.len() == 4) by {
        reveal(b64_group);
    }
    let tail = base64_encoded(rest);
    let s = g + tail;
    lemma_group_round_trip(a, b, c, 0, g);
    assert(s.take(4) =~= g);
    assert(s.skip(4) =~= tail);
    assert(seq![a, b, c].take(3) =~= seq![a, b, c]);
    assert forall|i: int| 0 <= i < 4 + tail.len() implies !is_blank(#[trigger] s[i]) by {
        if i < 4 {
            assert(s[i] == g[i]);
        } else {
            assert(s[i] == tail[i - 4]);
        }
    }
}

/// Percent-decoding undoes percent-encoding.
pub proof fn lemma_percent_round_trip(d: Seq<u8>)
    ensures
        uri::percent_decoded(percent_encoded(d), 0) == Ok::<_, ErrorView>(d),
{
    let s = percent_encoded(d);
    lemma_percent_from(d, 0, s);
    assert(d.take(0) =~= Seq::<u8>::empty());
    assert(d.skip(0) =~= d);
}

/// The percent-encoding of the first `k + 1` bytes starts with that of the
/// first `k`.
proof fn lemma_percent_prefix(d: Seq<u8>, k: int)
    requires
        0 <= k <= d.len(),
    ensures
        percent_encoded(d.take(k)).len() <= percent_encoded(d).len(),
        percent_encoded(d).take(percent_encoded(d.take(k)).len() as int) == percent_encoded(
            d.take(k),
        ),
    decreases d.len(),
{
    if k == d.len() {
        assert(d.take(k) =~= d);
        assert(percent_encoded(d).take(percent_encoded(d).len() as int) =~= percent_encoded(d));
    } else {
        lemma_percent_prefix(d.drop_last(), k);
        assert(d.drop_last().take(k) =~= d.take(k));
        let short = percent_encoded(d.take(k));
        assert(percent_encoded(d).take(short.len() as int) =~= percent_encoded(
            d.drop_last(),
        ).take(short.len() as int));
    }
}

proof fn lemma_percent_from(d: Seq<u8>, k: int, s: Seq<u8>)
    requires
        0 <= k <= d.len(),
        s == percent_encoded(d),
    ensures
        percent_encoded(d.take(k)).len() <= s.len(),
        uri::percent_decoded(s, percent_encoded(d.take(k)).len() as int) == Ok::<_, ErrorView>(
            d.skip(k),
        ),
    decreases d.len() - k,
{
    let at = percent_encoded(d.take(k)).len() as int;
    lemma_percent_prefix(d, k);
    if k == d.len() {
        assert(d.take(k) =~= d);
        assert(d.skip(k) =~= Seq::<u8>::empty());
    } else {
        let b = d[k];
        lemma_percent_prefix(d, k + 1);
        lemma_percent_from(d, k + 1, s);
        let next = d.take(k + 1);
        assert(next.drop_last() =~= d.take(k));
        let head = percent_encoded(next);
        assert(head == percent_encoded(d.take(k)) + percent_piece(b));
        assert forall|i: int| 0 <= i < percent_piece(b).len() implies s[at + i]
            == #[trigger] percent_piece(b)[i] by {
            assert(s[at + i] == s.take(head.len() as int)[at + i]);
        }
        assert(seq![b] + d.skip(k + 1) =~= d.skip(k));
        if is_unreserved(b) {
            assert(s[at] == percent_piece(b)[0]);
        } else {
            assert(s[at] == percent_piece(b)[0]);
            assert(s[at + 1] == percent_piece(b)[1]);
            assert(s[at + 2] == percent_piece(b)[2]);
            let hi = b as int / 16;
            let lo = b as int % 16;
            assert(uri::hex_value(hex_digit(hi)) == Some(hi as u8));
            assert(uri::hex_value(hex_digit(lo)) == Some(lo as u8));
            assert(hi * 16 + lo == b);
        }
    }
}

/// The word `data` and the start of every `data:` URI.
proof fn lemma_data_word()
    ensures
        text::octets("data"@).len() == 4,
        uri::is_scheme(text::octets("data"@)),
        text::octets("data:"@) == text::octets("data"@).push(text::COLON),
{
    reveal_strlit("data");
    reveal_strlit("data:");
    text::lemma_octets_of_ascii("data"@);
    text::lemma_octets_of_ascii("data:"@);
    assert(text::octets("data:"@) =~= text::octets("data"@).push(text::COLON));
    assert(uri::is_scheme(text::octets("data"@)));
}

/// Parsing undoes formatting: a value that has a spelling comes back from it.
pub proof fn lemma_parse_undoes_format(d: DataParts)
    requires
        d.is_spellable(),
    ensures
        uri::parts(d.spelled()).0 == text::octets("data"@),
        parsed(d.spelled()) == Ok::<_, ErrorView>(d),
{
    let u = d.spelled();
    lemma_data_word();
    lemma_marker();
    let (header, payload) = if d.base64 {
        (d.mediatype + marker(), base64_encoded(d.data))
    } else {
        (d.mediatype, percent_encoded(d.data))
    };
    let rest = header + seq![COMMA] + payload;
    assert(u =~= text::octets("data"@).push(text::COLON) + rest);
    assert(!text::leads_with_slashes(rest)) by {
        if d.mediatype.len() >= 1 {
            assert(rest[0] == d.mediatype[0]);
        } else {
            assert(rest[0] == marker()[0] || rest[0] == COMMA);
        }
        if d.mediatype.len() >= 2 {
            assert(rest[1] == d.mediatype[1]);
        } else if d.mediatype.len() == 1 {
            assert(rest[1] == marker()[0] || rest[1] == COMMA);
        }
    }
    uri::lemma_split_undoes_join(text::octets("data"@), rest);
    uri::lemma_same_word_is_an_equivalence(
        text::octets("data"@),
        text::octets("data"@),
        text::octets("data"@),
    );
    assert forall|j: int| 0 <= j < header.len() implies rest[j] != COMMA by {
        if j < d.mediatype.len() {
            assert(d.mediatype.contains(d.mediatype[j]));
        } else {
            assert(rest[j] == marker()[j - d.mediatype.len()]);
        }
    }
    text::lemma_find_is(rest, COMMA, header.len() as int);
    assert(rest.take(header.len() as int) =~= header);
    assert(rest.skip(header.len() as int + 1) =~= payload);
    if d.base64 {
        assert(header.skip(header.len() - 7) =~= marker());
        uri::lemma_same_word_is_an_equivalence(marker(), marker(), marker());
        assert(header.take(header.len() - 7) =~= d.mediatype);
        lemma_base64_round_trip(d.data);
    } else {
        lemma_percent_round_trip(d.data);
    }
}

/// What the parser accepts, the constructor accepts, so that every parsed URI
/// has a canonical spelling that says the same.
pub proof fn lemma_parsed_is_spellable(u: Seq<u8>)
    ensures
        parsed(u) matches Ok(d) ==> {
            &&& d.is_spellable()
            &&& unspellable(d.mediatype, d.base64) is None
            &&& parsed(d.spelled()) == Ok::<_, ErrorView>(d)
        },
{
    if let Ok(d) = parsed(u) {
        let rest = uri::parts(u).1;
        text::lemma_find(rest, COMMA);
        let comma = text::find(rest, COMMA) as int;
        let header = rest.take(comma);
        assert(!d.mediatype.contains(COMMA)) by {
            if d.mediatype.contains(COMMA) {
                let j = choose|j: int| 0 <= j < d.mediatype.len() && d.mediatype[j] == COMMA;
                assert(rest[j] == COMMA);
            }
        }
        lemma_parse_undoes_format(d);
    }
}

/// The constructor refuses exactly the values that would not come back from
/// their spelling.
pub proof fn lemma_constructor_is_exact(d: DataParts)
    ensures
        unspellable(d.mediatype, d.base64) is None <==> d.is_spellable(),
        d.is_spellable() <==> parsed(d.spelled()) == Ok::<_, ErrorView>(d),
{
    lemma_parsed_is_spellable(d.spelled());
    if d.is_spellable() {
        lemma_parse_undoes_format(d);
    }
}

/// How many padding characters the spelling of `n` bytes in base64 ends with.
pub open spec fn pads_for(n: int) -> int {
    (3 - n % 3) % 3
}

/// The spelling of `n` bytes in base64 has four characters for every three
/// bytes or part of them: characters of the alphabet, and then just the
/// padding that makes up for what is missing in the last group.
pub proof fn lemma_base64_form(d: Seq<u8>)
    ensures
        is_base64_of(base64_encoded(d), d.len() as int),
    decreases d.len(),
{
    let e = base64_encoded(d);
    let n = d.len() as int;
    if n == 0 {
    } else if n <= 2 {
        let b = if n == 2 {
            d[1]
        } else {
            0
        };
        lemma_group_is_spelled_by_the_alphabet(d[0], b, 0);
        let g = b64_group(d[0], b, 0);
        assert forall|i: int| 0 <= i < 4 - pads_for(n) implies b64_val(#[trigger] e[i]) is Some by {
            assert(e[i] == g[i]);
        }
    } else {
        let rest = d.skip(3);
        let tail = base64_encoded(rest);
        let g = b64_group(d[0], d[1], d[2]);
        lemma_group_is_spelled_by_the_alphabet(d[0], d[1], d[2]);
        lemma_base64_form(rest);
        assert(e == g + tail);
        assert forall|i: int| 0 <= i < e.len() - pads_for(n) implies b64_val(
            #[trigger] e[i],
        ) is Some by {
            if i < 4 {
                assert(e[i] == g[i]);
            } else {
                assert(e[i] == tail[i - 4]);
            }
        }
        assert forall|i: int| e.len() - pads_for(n) <= i < e.len() implies #[trigger] e[i]
            == EQUALS by {
            assert(e[i] == tail[i - 4]);
        }
    }
}

/// A group consists of four characters of the alphabet.
proof fn lemma_group_is_spelled_by_the_alphabet(a: u8, b: u8, c: u8)
    ensures
        b64_group(a, b, c).len() == 4,
        forall|i: int| 0 <= i < 4 ==> b64_val(#[trigger] b64_group(a, b, c)[i]) is Some,
{
    reveal(b64_group);
    let t = a * 65536 + b * 256 + c;
    lemma_sextets(a as int, b as int, c as int);
    lemma_b64_char(t / 262144);
    lemma_b64_char(t / 4096 % 64);
    lemma_b64_char(t / 64 % 64);
    lemma_b64_char(t % 64);
    let g = b64_group(a, b, c);
    assert forall|i: int| 0 <= i < 4 implies b64_val(#[trigger] g[i]) is Some by {
        assert(i == 0 || i == 1 || i == 2 || i == 3);
    }
}

} // verus!
