//! Strings seen as the bytes that spell them.
//!
//! Every grammar in this crate is a grammar on bytes: the separators are
//! ASCII, and whatever stands between them is carried through untouched. The
//! contracts therefore speak of the UTF-8 spelling of a string, [`octets`],
//! and of the string that a valid spelling stands for, [`letters`].
use vstd::prelude::*;
use vstd::string::StringExecFns;

verus! {

/// `/`
pub const SLASH: u8 = 0x2f;

/// `:`
pub const COLON: u8 = 0x3a;

/// `,`
pub const COMMA: u8 = 0x2c;

/// `;`
pub const SEMICOLON: u8 = 0x3b;

/// `!`
pub const BANG: u8 = 0x21;

/// `|`
pub const PIPE: u8 = 0x7c;

/// `+`
pub const PLUS: u8 = 0x2b;

/// `-`
pub const MINUS: u8 = 0x2d;

/// `.`
pub const DOT: u8 = 0x2e;

/// `%`
pub const PERCENT: u8 = 0x25;

/// `=`
pub const EQUALS: u8 = 0x3d;

/// `_`
pub const UNDERSCORE: u8 = 0x5f;

/// `~`
pub const TILDE: u8 = 0x7e;

/// `0`
pub const ZERO: u8 = 0x30;

/// The UTF-8 spelling of a string.
pub open spec fn octets(s: Seq<char>) -> Seq<u8> {
    vstd::utf8::encode_utf8(s)
}

/// The string that a UTF-8 spelling stands for.
pub open spec fn letters(b: Seq<u8>) -> Seq<char> {
    vstd::utf8::decode_utf8(b)
}

/// The position of the first `needle` in `b`, or `b.len()` when there is none.
pub open spec fn find(b: Seq<u8>, needle: u8) -> nat
    decreases b.len(),
{
    if b.len() == 0 || b[0] == needle {
        0
    } else {
        1 + find(b.drop_first(), needle)
    }
}

/// True iff `b` starts with two slashes.
pub open spec fn leads_with_slashes(b: Seq<u8>) -> bool {
    b.len() >= 2 && b[0] == SLASH && b[1] == SLASH
}

/// The decimal digit of a number below ten.
pub open spec fn digit(n: nat) -> u8 {
    (48 + n) as u8
}

/// The decimal spelling of a number, without leading zeros.
pub open spec fn decimal(n: nat) -> Seq<u8>
    decreases n,
{
    if n < 10 {
        seq![digit(n)]
    } else {
        decimal(n / 10).push(digit(n % 10))
    }
}

/// What `Debug` prints for a string: quotes round it, special characters
/// escaped.
pub uninterp spec fn debug_text(s: Seq<char>) -> Seq<char>;

/// What `Debug` prints for a character.
pub uninterp spec fn debug_char(c: char) -> Seq<char>;

/// What `Display` prints for the error that a byte string which is not UTF-8
/// is refused with.
pub uninterp spec fn utf8_complaint(b: Seq<u8>) -> Seq<char>;

/// `<str as Debug>::fmt` of std, run through `format!`. The contract only
/// names the text, which is a function of the string.
#[verifier::external_body]
pub(crate) fn quoted(s: &str) -> (r: String)
    ensures
        r@ == debug_text(s@),
{
    format!("{:?}", s)
}

/// `<char as Debug>::fmt` of std, run through `format!`. The contract only
/// names the text, which is a function of the character.
#[verifier::external_body]
pub(crate) fn quoted_char(c: char) -> (r: String)
    ensures
        r@ == debug_char(c),
{
    format!("{:?}", c)
}

/// `String::from_utf8` of std: it accepts exactly the valid UTF-8 spellings
/// and hands back the string so spelled. For a refused spelling the contract
/// names the text of the error.
#[verifier::external_body]
pub(crate) fn string_from_utf8(b: Vec<u8>) -> (r: Result<String, String>)
    ensures
        match r {
            Ok(s) => vstd::utf8::valid_utf8(b@) && octets(s@) == b@,
            Err(m) => !vstd::utf8::valid_utf8(b@) && m@ == utf8_complaint(b@),
        },
{
    match String::from_utf8(b) {
        Ok(s) => Ok(s),
        Err(e) => Err(format!("{}", e.utf8_error())),
    }
}

/// `String::push` of std appends one character.
pub assume_specification[ String::push ](s: &mut String, ch: char)
    ensures
        final(s)@ == old(s)@.push(ch),
;

/// Spellings of strings join as the strings do.
pub proof fn lemma_octets_concat(a: Seq<char>, b: Seq<char>)
    ensures
        octets(a + b) == octets(a) + octets(b),
    decreases a.len(),
{
    if a.len() == 0 {
        assert(a + b =~= b);
        assert(octets(a) + octets(b) =~= octets(b));
    } else {
        assert((a + b).drop_first() =~= a.drop_first() + b);
        lemma_octets_concat(a.drop_first(), b);
        assert(octets(a + b) =~= octets(a) + octets(b));
    }
}

/// A string is determined by its spelling, and its spelling is valid.
pub proof fn lemma_letters_of_octets(s: Seq<char>)
    ensures
        letters(octets(s)) == s,
        vstd::utf8::valid_utf8(octets(s)),
{
    vstd::utf8::encode_utf8_decode_utf8(s);
    vstd::utf8::encode_utf8_valid_utf8(s);
}

/// Strings with the same spelling are the same.
pub proof fn lemma_same_octets(a: Seq<char>, b: Seq<char>)
    requires
        octets(a) == octets(b),
    ensures
        a == b,
{
    lemma_letters_of_octets(a);
    lemma_letters_of_octets(b);
}

/// Each ASCII character is spelled by one byte.
pub proof fn lemma_octets_push_ascii(s: Seq<char>, b: u8)
    requires
        b < 128,
    ensures
        octets(s.push(b as char)) == octets(s).push(b),
{
    let one = seq![b as char];
    assert(s.push(b as char) =~= s + one);
    lemma_octets_concat(s, one);
    lemma_octets_one_ascii(b);
    assert(octets(s) + seq![b] =~= octets(s).push(b));
}

/// The spelling of a single ASCII character.
pub proof fn lemma_octets_one_ascii(b: u8)
    requires
        b < 128,
    ensures
        octets(seq![b as char]) == seq![b],
{
    let one = seq![b as char];
    assert(vstd::utf8::is_ascii_chars(one));
    vstd::utf8::is_ascii_chars_encode_utf8(one);
    assert(vstd::utf8::encode_utf8(one)[0] == one[0] as u8);
    assert(vstd::utf8::encode_utf8(one) =~= seq![b]);
}

/// An ASCII string is spelled by one byte for each character.
pub proof fn lemma_octets_of_ascii(s: Seq<char>)
    requires
        vstd::utf8::is_ascii_chars(s),
    ensures
        octets(s).len() == s.len(),
        forall|i: int| 0 <= i < s.len() ==> #[trigger] octets(s)[i] == s[i] as u8,
{
    vstd::utf8::is_ascii_chars_encode_utf8(s);
}

/// `find` points at the first occurrence, and past the end only when there
/// is none.
pub proof fn lemma_find(b: Seq<u8>, needle: u8)
    ensures
        find(b, needle) <= b.len(),
        find(b, needle) < b.len() ==> b[find(b, needle) as int] == needle,
        forall|j: int| 0 <= j < find(b, needle) ==> b[j] != needle,
    decreases b.len(),
{
    if b.len() == 0 || b[0] == needle {
    } else {
        let t = b.drop_first();
        lemma_find(t, needle);
        assert forall|j: int| 0 <= j < find(b, needle) implies b[j] != needle by {
            if j > 0 {
                assert(b[j] == t[j - 1]);
            }
        }
    }
}

/// The first occurrence is the only one with none before it.
pub proof fn lemma_find_is(b: Seq<u8>, needle: u8, at: int)
    requires
        0 <= at <= b.len(),
        at < b.len() ==> b[at] == needle,
        forall|j: int| 0 <= j < at ==> b[j] != needle,
    ensures
        find(b, needle) == at,
{
    lemma_find(b, needle);
    let f = find(b, needle) as int;
    if f < at {
        assert(b[f] != needle);
    } else if f > at {
        assert(b[at] != needle);
    }
}

/// Where the first byte of a spelling is ASCII, the rest is a spelling too.
proof fn lemma_boundary_after_ascii(b: Seq<u8>)
    requires
        vstd::utf8::valid_utf8(b),
        b.len() > 0,
        b[0] < 128,
    ensures
        vstd::utf8::is_char_boundary(b, 1),
{
    reveal_with_fuel(vstd::utf8::is_char_boundary, 2);
}

/// What `Debug` prints for the string that `b` spells.
pub open spec fn shown(b: Seq<u8>) -> Seq<char> {
    debug_text(letters(b))
}

/// What `Debug` prints for a string.
pub(crate) fn show(s: &str) -> (r: String)
    ensures
        r@ == shown(octets(s@)),
{
    proof {
        lemma_letters_of_octets(s@);
    }
    quoted(s)
}

/// The position of the first `needle` in the spelling of `s`.
pub(crate) fn find_byte(s: &str, needle: u8) -> (r: Option<usize>)
    ensures
        match r {
            Some(i) => i == find(octets(s@), needle) && i < octets(s@).len(),
            None => find(octets(s@), needle) == octets(s@).len(),
        },
{
    let b = s.as_bytes();
    let mut i: usize = 0;
    while i < b.len()
        invariant
            b@ == octets(s@),
            i <= b.len(),
            forall|j: int| 0 <= j < i ==> b@[j] != needle,
        decreases b.len() - i,
    {
        if b[i] == needle {
            proof {
                lemma_find_is(b@, needle, i as int);
            }
            return Some(i);
        }
        i = i + 1;
    }
    proof {
        lemma_find_is(b@, needle, i as int);
    }
    None
}

/// The parts of `s` before and after the ASCII byte at `at`.
pub(crate) fn cut<'a>(s: &'a str, at: usize) -> (r: (&'a str, &'a str))
    requires
        at < octets(s@).len(),
        octets(s@)[at as int] < 128,
    ensures
        octets(r.0@) == octets(s@).take(at as int),
        octets(r.1@) == octets(s@).skip(at + 1),
{
    proof {
        lemma_letters_of_octets(s@);
        vstd::utf8::is_char_boundary_iff_not_is_continuation_byte(octets(s@), at as int);
    }
    let (before, from) = s.split_at(at);
    proof {
        lemma_letters_of_octets(from@);
        lemma_boundary_after_ascii(octets(from@));
    }
    let (_sep, after) = from.split_at(1);
    proof {
        assert(octets(before@) =~= octets(s@).take(at as int));
        assert(octets(after@) =~= octets(s@).skip(at + 1));
    }
    (before, after)
}

/// The part of `s` before the byte position `at`, where an ASCII byte stands.
pub(crate) fn prefix<'a>(s: &'a str, at: usize) -> (r: &'a str)
    requires
        at < octets(s@).len(),
        octets(s@)[at as int] < 128,
    ensures
        octets(r@) == octets(s@).take(at as int),
{
    cut(s, at).0
}

/// True iff `s` starts with two slashes.
pub(crate) fn starts_with_slashes(s: &str) -> (r: bool)
    ensures
        r == leads_with_slashes(octets(s@)),
{
    let b = s.as_bytes();
    b.len() >= 2 && b[0] == SLASH && b[1] == SLASH
}

/// `s` without one leading pair of slashes, where it has one.
pub(crate) fn strip_slashes<'a>(s: &'a str) -> (r: &'a str)
    ensures
        octets(r@) == (if leads_with_slashes(octets(s@)) {
            octets(s@).skip(2)
        } else {
            octets(s@)
        }),
{
    if starts_with_slashes(s) {
        let (_before, after) = cut(s, 1);
        after
    } else {
        s
    }
}

/// True iff the spelling of `s` holds the byte `needle`.
pub(crate) fn contains_byte(s: &str, needle: u8) -> (r: bool)
    ensures
        r == octets(s@).contains(needle),
{
    let at = find_byte(s, needle);
    proof {
        lemma_find(octets(s@), needle);
    }
    at.is_some()
}

/// Appends the decimal spelling of `n`.
pub(crate) fn push_decimal(s: &mut String, n: u128)
    ensures
        octets(final(s)@) == octets(old(s)@) + decimal(n as nat),
    decreases n,
{
    if n < 10 {
        let d: u8 = 48 + n as u8;
        proof {
            lemma_octets_push_ascii(s@, d);
            assert(octets(s@).push(d) =~= octets(s@) + seq![d]);
        }
        s.push(d as char);
    } else {
        push_decimal(s, n / 10);
        let d: u8 = 48 + (n % 10) as u8;
        proof {
            lemma_octets_push_ascii(s@, d);
            assert(octets(old(s)@) + decimal((n / 10) as nat).push(d) =~= (octets(old(s)@)
                + decimal((n / 10) as nat)).push(d));
        }
        s.push(d as char);
    }
}

/// The decimal spelling of `n`.
pub(crate) fn decimal_string(n: u128) -> (r: String)
    ensures
        octets(r@) == decimal(n as nat),
        r@ == letters(decimal(n as nat)),
{
    let mut s = String::new();
    push_decimal(&mut s, n);
    proof {
        assert(octets(Seq::<char>::empty()) + decimal(n as nat) =~= decimal(n as nat));
        lemma_letters_of_octets(s@);
    }
    s
}

/// The three pieces, joined.
pub(crate) fn join3(a: &str, b: &str, c: &str) -> (r: String)
    ensures
        r@ == a@ + b@ + c@,
{
    let mut s = a.to_owned();
    s.append(b);
    s.append(c);
    s
}

/// True iff every byte is a decimal digit.
pub open spec fn all_digits(b: Seq<u8>) -> bool {
    forall|i: int| 0 <= i < b.len() ==> 0x30 <= #[trigger] b[i] <= 0x39
}

/// The number that decimal digits spell.
pub open spec fn decimal_value(b: Seq<u8>) -> nat
    decreases b.len(),
{
    if b.len() == 0 {
        0
    } else {
        (decimal_value(b.drop_last()) * 10 + (b.last() - 0x30)) as nat
    }
}

/// The number that a canonical decimal spells, or what is wrong with it. A
/// canonical decimal has digits only, and no leading zero but in `0` itself.
pub open spec fn number(b: Seq<u8>) -> Result<u64, Seq<char>> {
    if b.len() == 0 {
        Err("cannot parse integer from empty string"@)
    } else if !all_digits(b) {
        Err("invalid digit found in string"@)
    } else if b.len() > 1 && b[0] == ZERO {
        Err("leading zero in canonical decimal"@)
    } else if decimal_value(b) > u64::MAX {
        Err("number too large to fit in target type"@)
    } else {
        Ok(decimal_value(b) as u64)
    }
}

/// More digits do not spell a smaller number.
proof fn lemma_decimal_value_grows(b: Seq<u8>, k: int)
    requires
        0 <= k <= b.len(),
        all_digits(b),
    ensures
        decimal_value(b.take(k)) <= decimal_value(b),
    decreases b.len(),
{
    if k == b.len() {
        assert(b.take(k) =~= b);
    } else {
        assert(b.drop_last().take(k) =~= b.take(k));
        assert(0x30 <= b[b.len() - 1]);
        lemma_decimal_value_grows(b.drop_last(), k);
    }
}

/// Reads a canonical decimal.
pub(crate) fn read_number(s: &str) -> (r: Result<u64, String>)
    ensures
        r matches Ok(n) ==> number(octets(s@)) == Ok::<_, Seq<char>>(n),
        r matches Err(m) ==> number(octets(s@)) == Err::<u64, _>(m@),
{
    let b = s.as_bytes();
    if b.len() == 0 {
        return Err("cannot parse integer from empty string".to_owned());
    }
    let mut i: usize = 0;
    while i < b.len()
        invariant
            i <= b@.len(),
            b@ == octets(s@),
            forall|j: int| 0 <= j < i ==> 0x30 <= #[trigger] b@[j] <= 0x39,
            b@.len() > 0,
        decreases b@.len() - i,
    {
        if b[i] < 0x30 || b[i] > 0x39 {
            return Err("invalid digit found in string".to_owned());
        }
        i = i + 1;
    }
    if b.len() > 1 && b[0] == ZERO {
        return Err("leading zero in canonical decimal".to_owned());
    }
    let mut n: u64 = 0;
    let mut i: usize = 0;
    assert(b@.take(0) =~= Seq::<u8>::empty());
    while i < b.len()
        invariant
            i <= b@.len(),
            b@ == octets(s@),
            b@.len() > 0,
            !(b@.len() > 1 && b@[0] == ZERO),
            all_digits(b@),
            n == decimal_value(b@.take(i as int)),
        decreases b@.len() - i,
    {
        proof {
            assert(b@.take(i + 1).drop_last() =~= b@.take(i as int));
            lemma_decimal_value_grows(b@, i + 1);
        }
        let d: u64 = (b[i] - 0x30) as u64;
        n = match n.checked_mul(10) {
            Some(t) => match t.checked_add(d) {
                Some(t) => t,
                None => {
                    return Err("number too large to fit in target type".to_owned());
                },
            },
            None => {
                return Err("number too large to fit in target type".to_owned());
            },
        };
        i = i + 1;
    }
    assert(b@.take(i as int) =~= b@);
    Ok(n)
}

/// The decimal spelling of a number is canonical and spells that number.
pub proof fn lemma_decimal_spells_its_number(n: nat)
    ensures
        decimal(n).len() > 0,
        all_digits(decimal(n)),
        decimal(n).len() > 1 ==> decimal(n)[0] != ZERO,
        n > 0 ==> decimal(n)[0] != ZERO,
        decimal_value(decimal(n)) == n,
    decreases n,
{
    if n < 10 {
        let d = seq![digit(n)];
        assert(d.drop_last() =~= Seq::<u8>::empty());
        assert(d.last() == digit(n));
        assert(decimal_value(d.drop_last()) == 0);
    } else {
        let front = decimal(n / 10);
        let last = digit(n % 10);
        lemma_decimal_spells_its_number(n / 10);
        let d = front.push(last);
        assert(d.drop_last() =~= front);
        assert(d.last() == last);
        assert(d[0] == front[0]);
        assert forall|i: int| 0 <= i < d.len() implies 0x30 <= #[trigger] d[i] <= 0x39 by {
            if i < front.len() {
                assert(d[i] == front[i]);
            }
        }
    }
}

/// A canonical decimal is the decimal spelling of the number that it spells.
pub proof fn lemma_canonical_decimal_is_its_spelling(b: Seq<u8>)
    requires
        b.len() > 0,
        all_digits(b),
        b.len() == 1 || b[0] != ZERO,
    ensures
        decimal(decimal_value(b)) == b,
        b.len() > 1 ==> decimal_value(b) >= 10,
        b[0] != ZERO ==> decimal_value(b) > 0,
    decreases b.len(),
{
    let front = b.drop_last();
    assert(0x30 <= b[b.len() - 1] <= 0x39);
    let last = b.last();
    if b.len() == 1 {
        assert(decimal_value(front) == 0);
        assert(decimal(decimal_value(b)) =~= b);
    } else {
        assert forall|i: int| 0 <= i < front.len() implies 0x30 <= #[trigger] front[i] <= 0x39 by {
            assert(front[i] == b[i]);
        }
        assert(front[0] == b[0]);
        lemma_canonical_decimal_is_its_spelling(front);
        let v = decimal_value(front);
        let n = decimal_value(b);
        assert(n == v * 10 + (last - 0x30));
        assert(n / 10 == v);
        assert(n % 10 == last - 0x30);
        assert(front.push(last) =~= b);
    }
}

} // verus!
