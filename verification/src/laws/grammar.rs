//! Laws of the spellings: numbers, schemes, percent-encoding and paths.
use crate::data;
use crate::error::ErrorView;
use crate::open;
use crate::scope;
use crate::text;
use crate::uri;
use vstd::prelude::*;

verus! {

/// True iff a byte is one of `A` to `Z` or `a` to `z`.
pub open spec fn letter(b: u8) -> bool {
    0x41 <= b <= 0x5a || 0x61 <= b <= 0x7a
}

/// True iff a word may name a scheme: a letter, and then letters, digits,
/// `+`, `-` and `.`.
pub open spec fn names_a_scheme(word: Seq<u8>) -> bool {
    &&& word.len() > 0
    &&& letter(word[0])
    &&& forall|i: int|
        0 <= i < word.len() ==> letter(#[trigger] word[i]) || 0x30 <= word[i] <= 0x39 || word[i]
            == 0x2b || word[i] == 0x2d || word[i] == 0x2e
}

/// True iff `//` comes first.
pub open spec fn slashes_first(b: Seq<u8>) -> bool {
    b.len() >= 2 && b[0] == 0x2f && b[1] == 0x2f
}

/// Two bytes that are the same letter, or the same byte.
pub open spec fn same_but_for_case(a: u8, b: u8) -> bool {
    a == b || (0x41 <= a <= 0x5a && b == a + 0x20) || (0x41 <= b <= 0x5a && a == b + 0x20)
}

/// A decimal is read digit by digit: another digit makes ten times the number
/// and the digit of it, as long as that fits.
pub proof fn law_decimals_grow_by_digits(b: Seq<u8>, d: u8)
    requires
        0x30 <= d <= 0x39,
    ensures
        text::number(seq![d]) == Ok::<u64, Seq<char>>((d - 0x30) as u64),
        b.len() > 0 && b[0] != 0x30 ==> match text::number(b) {
            Ok(n) => if n * 10 + (d - 0x30) <= u64::MAX {
                text::number(b.push(d)) == Ok::<u64, Seq<char>>((n * 10 + (d - 0x30)) as u64)
            } else {
                text::number(b.push(d)) is Err
            },
            Err(_) => text::number(b.push(d)) is Err,
        },
{
    let one = seq![d];
    assert(one.drop_last() =~= Seq::<u8>::empty());
    assert(text::decimal_value(one.drop_last()) == 0);
    assert(text::decimal_value(one) == d - 0x30);
    let more = b.push(d);
    assert(more.drop_last() =~= b);
    assert(more.last() == d);
    if b.len() > 0 {
        assert(more[0] == b[0]);
    }
    if text::all_digits(b) {
        assert forall|i: int| 0 <= i < more.len() implies 0x30 <= #[trigger] more[i] <= 0x39 by {
            if i < b.len() {
                assert(more[i] == b[i]);
            }
        }
    } else {
        let i = choose|i: int| 0 <= i < b.len() && !(0x30 <= #[trigger] b[i] <= 0x39);
        assert(more[i] == b[i]);
    }
}

/// Only digits are a decimal, at least one of them, and no `0` in front of
/// others.
pub proof fn law_decimals_are_canonical(b: Seq<u8>)
    requires
        text::number(b) is Ok,
    ensures
        b.len() > 0,
        forall|i: int| 0 <= i < b.len() ==> 0x30 <= #[trigger] b[i] <= 0x39,
        b.len() == 1 || b[0] != 0x30,
{
}

/// Numbers are spelled digit by digit, and every number that fits is read back
/// from its spelling.
pub proof fn law_numbers_are_spelled_by_digits(n: nat)
    ensures
        n < 10 ==> text::decimal(n) == seq![(0x30 + n) as u8],
        n >= 10 ==> text::decimal(n) == text::decimal(n / 10).push((0x30 + n % 10) as u8),
        n <= u64::MAX ==> text::number(text::decimal(n)) == Ok::<u64, Seq<char>>(n as u64),
{
    text::lemma_decimal_spells_its_number(n);
}

/// A word that names a scheme, a colon and a rest come apart again, less one
/// `//` in front of the rest. A single letter needs that `//`; without it the
/// whole is a path.
pub proof fn law_schemes_come_apart(word: Seq<u8>, rest: Seq<u8>)
    requires
        names_a_scheme(word),
    ensures
        uri::parts(word.push(0x3a) + rest) == if slashes_first(rest) {
            (word, rest.skip(2))
        } else if word.len() > 1 {
            (word, rest)
        } else {
            (text::octets("file"@), word.push(0x3a) + rest)
        },
{
    let u = word.push(0x3a) + rest;
    assert forall|i: int| 0 <= i < word.len() implies uri::is_scheme_byte(#[trigger] word[i]) by {}
    uri::lemma_split_undoes_join(word, rest);
    if word.len() == 1 && !slashes_first(rest) {
        assert(word =~= seq![word[0]]);
        assert(u =~= seq![word[0], 0x3au8] + rest);
        uri::lemma_drive_is_bare(word[0], rest);
    }
}

/// What is not a word that names a scheme, a colon and a rest is a path.
pub proof fn law_the_rest_are_paths(u: Seq<u8>)
    requires
        forall|word: Seq<u8>, rest: Seq<u8>|
            names_a_scheme(word) ==> u != #[trigger] (word.push(0x3a) + rest),
    ensures
        uri::parts(u) == (text::octets("file"@), u),
{
    text::lemma_find(u, 0x3a);
    let at = text::find(u, 0x3a) as int;
    if at < u.len() && uri::is_scheme(u.take(at)) {
        let word = u.take(at);
        assert forall|i: int| 0 <= i < word.len() implies letter(#[trigger] word[i]) || 0x30
            <= word[i] <= 0x39 || word[i] == 0x2b || word[i] == 0x2d || word[i] == 0x2e by {
            assert(uri::is_scheme_byte(word[i]));
        }
        assert(names_a_scheme(word));
        assert(u =~= word.push(0x3a) + u.skip(at + 1));
    }
}

/// Words are the same where they differ in nothing but the case of letters.
pub proof fn law_words_are_compared_but_for_case(a: Seq<u8>, b: Seq<u8>)
    ensures
        uri::same_word(a, b) <==> a.len() == b.len() && forall|i: int|
            0 <= i < a.len() ==> same_but_for_case(#[trigger] a[i], b[i]),
{
    if uri::same_word(a, b) {
        assert forall|i: int| 0 <= i < a.len() implies same_but_for_case(#[trigger] a[i], b[i]) by {
            assert(uri::lower(a[i]) == uri::lower(b[i]));
        }
    }
    if a.len() == b.len() && forall|i: int|
        0 <= i < a.len() ==> same_but_for_case(#[trigger] a[i], b[i]) {
        assert forall|i: int| 0 <= i < a.len() implies uri::lower(#[trigger] a[i]) == uri::lower(
            b[i],
        ) by {
            assert(same_but_for_case(a[i], b[i]));
        }
    }
}

/// A word ends in another where it is something with that word, in whatever
/// case, behind it.
pub proof fn law_endings_are_compared_but_for_case(front: Seq<u8>, end: Seq<u8>, word: Seq<u8>)
    requires
        end.len() == word.len(),
    ensures
        uri::ends_in(front + end, word) <==> uri::same_word(end, word),
        front.len() < word.len() ==> !uri::ends_in(front, word),
{
    assert((front + end).skip(front.len() as int) =~= end);
}

/// The digits that spell sixteen values, in either case, spell what they do,
/// and no other byte is one.
pub proof fn law_hexadecimal_digits(b: u8)
    ensures
        forall|v: int|
            #![trigger text::octets("0123456789abcdef"@)[v]]
            0 <= v < 16 ==> uri::hex_value(text::octets("0123456789abcdef"@)[v]) == Some(v as u8),
        forall|v: int|
            #![trigger text::octets("0123456789ABCDEF"@)[v]]
            0 <= v < 16 ==> uri::hex_value(text::octets("0123456789ABCDEF"@)[v]) == Some(v as u8)
                && data::hex_digit(v) == text::octets("0123456789ABCDEF"@)[v],
        uri::hex_value(b) is Some ==> text::octets("0123456789abcdef"@).contains(b)
            || text::octets("0123456789ABCDEF"@).contains(b),
{
    reveal_strlit("0123456789abcdef");
    reveal_strlit("0123456789ABCDEF");
    text::lemma_octets_of_ascii("0123456789abcdef"@);
    text::lemma_octets_of_ascii("0123456789ABCDEF"@);
    let small = text::octets("0123456789abcdef"@);
    let large = text::octets("0123456789ABCDEF"@);
    if 0x30 <= b <= 0x39 {
        assert(small[b - 0x30] == b);
    } else if 0x61 <= b <= 0x66 {
        assert(small[b - 0x61 + 10] == b);
    } else if 0x41 <= b <= 0x46 {
        assert(large[b - 0x41 + 10] == b);
    }
}

/// Decoding from an offset on gives what decoding the rest alone gives.
proof fn lemma_decoding_shifts(p: Seq<u8>, s: Seq<u8>, i: int)
    requires
        0 <= i <= s.len(),
    ensures
        match uri::percent_decoded(s, i) {
            Ok(r) => uri::percent_decoded(p + s, p.len() + i) == Ok::<_, ErrorView>(r),
            Err(_) => uri::percent_decoded(p + s, p.len() + i) is Err,
        },
    decreases s.len() - i,
{
    let t = p + s;
    let at = p.len() + i;
    if i < s.len() {
        assert(t[at] == s[i]);
        if s[i] != 0x25 {
            lemma_decoding_shifts(p, s, i + 1);
        } else if i + 2 < s.len() {
            assert(t[at + 1] == s[i + 1]);
            assert(t[at + 2] == s[i + 2]);
            lemma_decoding_shifts(p, s, i + 3);
        }
    }
}

/// Text that decodes is decoded as it stands in front of other text.
proof fn lemma_decoding_of_a_front(p: Seq<u8>, s: Seq<u8>, i: int)
    requires
        0 <= i <= p.len(),
        uri::percent_decoded(p, i) is Ok,
    ensures
        match uri::percent_decoded(p + s, p.len() as int) {
            Ok(r) => uri::percent_decoded(p + s, i) == Ok::<_, ErrorView>(
                uri::percent_decoded(p, i)->Ok_0 + r,
            ),
            Err(e) => uri::percent_decoded(p + s, i) == Err::<Seq<u8>, _>(e),
        },
    decreases p.len() - i,
{
    let t = p + s;
    let tail = uri::percent_decoded(t, p.len() as int);
    if i == p.len() {
        if let Ok(r) = tail {
            assert(Seq::<u8>::empty() + r =~= r);
        }
    } else {
        assert(t[i] == p[i]);
        if p[i] != 0x25 {
            lemma_decoding_of_a_front(p, s, i + 1);
            if let Ok(r) = tail {
                let front = uri::percent_decoded(p, i + 1)->Ok_0;
                assert(seq![p[i]] + (front + r) =~= (seq![p[i]] + front) + r);
            }
        } else {
            assert(i + 2 < p.len());
            assert(t[i + 1] == p[i + 1]);
            assert(t[i + 2] == p[i + 2]);
            lemma_decoding_of_a_front(p, s, i + 3);
            if let Ok(r) = tail {
                let front = uri::percent_decoded(p, i + 3)->Ok_0;
                let hi = uri::hex_value(p[i + 1])->0;
                let lo = uri::hex_value(p[i + 2])->0;
                let b = (hi * 16 + lo) as u8;
                assert(seq![b] + (front + r) =~= (seq![b] + front) + r);
            }
        }
    }
}

/// What text decodes to is what its pieces decode to, one behind the other,
/// where the first is whole.
pub proof fn law_percent_decoding_goes_piece_by_piece(p: Seq<u8>, s: Seq<u8>)
    ensures
        uri::percent_decoded(Seq::empty(), 0) == Ok::<_, ErrorView>(Seq::<u8>::empty()),
        uri::percent_decoded(p, 0) matches Ok(a) ==> match uri::percent_decoded(s, 0) {
            Ok(b) => uri::percent_decoded(p + s, 0) == Ok::<_, ErrorView>(a + b),
            Err(_) => uri::percent_decoded(p + s, 0) is Err,
        },
{
    if uri::percent_decoded(p, 0) is Ok {
        lemma_decoding_of_a_front(p, s, 0);
        lemma_decoding_shifts(p, s, 0);
    }
}

/// True iff a byte is the hexadecimal digit of a value, in either case.
pub open spec fn digit_of(x: u8, v: int) -> bool {
    &&& 0 <= v < 16
    &&& x == text::octets("0123456789abcdef"@)[v] || x == text::octets("0123456789ABCDEF"@)[v]
}

/// Every byte but `%` stands for itself, and a `%` with two hexadecimal digits
/// for the byte of that value.
pub proof fn law_percent_pieces(b: u8, x: u8, y: u8, hi: int, lo: int)
    requires
        digit_of(x, hi),
        digit_of(y, lo),
    ensures
        b != 0x25 ==> uri::percent_decoded(seq![b], 0) == Ok::<_, ErrorView>(seq![b]),
        uri::percent_decoded(seq![0x25u8, x, y], 0) == Ok::<_, ErrorView>(
            seq![(hi * 16 + lo) as u8],
        ),
{
    law_hexadecimal_digits(b);
    let none = Seq::<u8>::empty();
    let one = seq![b];
    assert(uri::percent_decoded(one, 1) == Ok::<_, ErrorView>(none));
    assert(one + none =~= one);
    let s = seq![0x25u8, x, y];
    assert(uri::hex_value(x) == Some(hi as u8));
    assert(uri::hex_value(y) == Some(lo as u8));
    assert(uri::percent_decoded(s, 3) == Ok::<_, ErrorView>(none));
    assert(seq![(hi * 16 + lo) as u8] + none =~= seq![(hi * 16 + lo) as u8]);
}

/// A `%` without two bytes behind it is told with its offset, one with
/// something else than a hexadecimal digit behind it with what that is.
pub proof fn law_percent_faults(p: Seq<u8>, s: Seq<u8>)
    requires
        uri::percent_decoded(p, 0) is Ok,
        s.len() > 0,
        s[0] == 0x25,
    ensures
        s.len() < 3 ==> uri::percent_decoded(p + s, 0) == Err::<Seq<u8>, _>(
            ErrorView::InvalidData(
                "percent-encoding truncated at offset "@ + text::letters(text::decimal(p.len())),
            ),
        ),
        s.len() >= 3 && uri::hex_value(s[1]) is None ==> uri::percent_decoded(p + s, 0) == Err::<
            Seq<u8>,
            _,
        >(
            ErrorView::InvalidData(
                "percent-encoding: non-hex digit "@ + text::debug_char(s[1] as char),
            ),
        ),
        s.len() >= 3 && uri::hex_value(s[1]) is Some && uri::hex_value(s[2]) is None
            ==> uri::percent_decoded(p + s, 0) == Err::<Seq<u8>, _>(
            ErrorView::InvalidData(
                "percent-encoding: non-hex digit "@ + text::debug_char(s[2] as char),
            ),
        ),
{
    let t = p + s;
    lemma_decoding_of_a_front(p, s, 0);
    assert(t[p.len() as int] == s[0]);
    if s.len() >= 3 {
        assert(t[p.len() as int + 1] == s[1]);
        assert(t[p.len() as int + 2] == s[2]);
    }
}

/// A path is all of what its spelling decodes to, where that is UTF-8, and is
/// refused where it is not.
pub proof fn law_paths_are_decoded_whole(s: Seq<u8>)
    ensures
        match uri::percent_decoded(s, 0) {
            Ok(b) => if vstd::utf8::valid_utf8(b) {
                uri::decoded_path(s) == Ok::<_, ErrorView>(b)
            } else {
                uri::decoded_path(s) == Err::<Seq<u8>, _>(
                    ErrorView::InvalidData(
                        "percent-decoded path is not valid UTF-8: "@ + text::utf8_complaint(b),
                    ),
                )
            },
            Err(e) => uri::decoded_path(s) == Err::<Seq<u8>, _>(e),
        },
{
}

/// Every string is the path that its percent-encoding spells; one without a
/// `%` is the path that it spells itself.
pub proof fn law_paths_survive_their_spelling(p: Seq<char>)
    ensures
        uri::decoded_path(data::percent_encoded(text::octets(p))) == Ok::<_, ErrorView>(
            text::octets(p),
        ),
        !text::octets(p).contains(0x25) ==> uri::decoded_path(text::octets(p)) == Ok::<
            _,
            ErrorView,
        >(text::octets(p)),
{
    text::lemma_letters_of_octets(p);
    data::lemma_percent_round_trip(text::octets(p));
    if !text::octets(p).contains(0x25) {
        uri::lemma_plain_text_decodes_to_itself(text::octets(p));
    }
}

/// The word `file`, byte by byte.
proof fn lemma_file_word()
    ensures
        text::octets("file"@) == seq![0x66u8, 0x69, 0x6c, 0x65],
{
    reveal_strlit("file");
    text::lemma_octets_of_ascii("file"@);
    assert(text::octets("file"@) =~= seq![0x66u8, 0x69, 0x6c, 0x65]);
}

/// Behind `file:`, in whatever case, stands a percent-encoded path, less one
/// `//` in front.
pub proof fn law_file_uris_name_decoded_paths(word: Seq<u8>, rest: Seq<u8>)
    requires
        word.len() == 4,
        forall|i: int|
            0 <= i < 4 ==> same_but_for_case(#[trigger] word[i], text::octets("file"@)[i]),
    ensures
        open::is_file(word.push(0x3a) + rest),
        uri::file_path(word.push(0x3a) + rest) == uri::decoded_path(
            if slashes_first(rest) {
                rest.skip(2)
            } else {
                rest
            },
        ),
{
    let u = word.push(0x3a) + rest;
    let file = text::octets("file"@);
    lemma_file_word();
    assert forall|i: int| 0 <= i < word.len() implies letter(#[trigger] word[i]) by {
        assert(same_but_for_case(word[i], file[i]));
        assert(i == 0 || i == 1 || i == 2 || i == 3);
    }
    law_words_are_compared_but_for_case(word, file);
    law_schemes_come_apart(word, rest);
    assert(u.take(4) =~= word);
    assert(u[4] == 0x3a);
}

/// A path that stands for itself is not decoded.
pub proof fn law_bare_paths_stand_for_themselves(u: Seq<u8>)
    requires
        uri::parts(u) == (text::octets("file"@), u),
    ensures
        open::is_file(u),
        uri::file_path(u) == Ok::<_, ErrorView>(u),
{
    let file = text::octets("file"@);
    uri::lemma_same_word_is_an_equivalence(file, file, file);
    open::lemma_bare_paths_are_not_decoded(u);
    if uri::says_file(u) {
        lemma_file_word();
        law_words_are_compared_but_for_case(u.take(4), file);
        assert forall|i: int| 0 <= i < 4 implies same_but_for_case(
            #[trigger] u.take(4)[i],
            file[i],
        ) by {}
        let word = u.take(4);
        assert forall|i: int| 0 <= i < word.len() implies letter(#[trigger] word[i]) by {
            assert(i == 0 || i == 1 || i == 2 || i == 3);
        }
        assert(u =~= word.push(0x3a) + u.skip(5));
        law_schemes_come_apart(word, u.skip(5));
    }
}

/// A scope asks for the path that a file URI names, unless there is a NUL in
/// it, and for nothing where the URI is of another scheme.
pub proof fn law_scopes_ask_for_the_named_path(u: Seq<u8>)
    ensures
        !uri::same_word(uri::parts(u).0, text::octets("file"@)) ==> scope::requested(u) == Err::<
            Seq<u8>,
            _,
        >(
            ErrorView::InvalidData(
                "FileScope cannot resolve non-file URI: "@ + text::letters(u),
            ),
        ),
        uri::same_word(uri::parts(u).0, text::octets("file"@)) ==> match uri::file_path(u) {
            Ok(p) => scope::requested(u) == if exists|i: int| 0 <= i < p.len() && p[i] == 0 {
                Err(ErrorView::InvalidData("file path contains NUL byte"@))
            } else {
                Ok::<_, ErrorView>(p)
            },
            Err(e) => scope::requested(u) == Err::<Seq<u8>, _>(e),
        },
{
}

} // verus!
