//! Laws of `data:` URIs: the two spellings of a payload, and what stands round
//! it.
use crate::data;
use crate::data::DataParts;
use crate::error::ErrorView;
use crate::laws::grammar;
use crate::text;
use crate::uri;
use vstd::prelude::*;

verus! {

/// The 64 characters of base64, in the order of their values.
pub open spec fn alphabet() -> Seq<u8> {
    text::octets("ABCDEFGHIJKLMNOPQRSTUVWXYZabcdefghijklmnopqrstuvwxyz0123456789+/"@)
}

/// True iff a character stands for a value.
pub open spec fn stands_for(c: u8, v: int) -> bool {
    0 <= v < 64 && c == alphabet()[v]
}

/// True iff a byte is a space, a tab or one of the two that end a line.
pub open spec fn blank(b: u8) -> bool {
    b == 0x20 || b == 0x09 || b == 0x0a || b == 0x0d
}

proof fn lemma_alphabet()
    ensures
        alphabet().len() == 64,
        forall|v: int| 0 <= v < 26 ==> #[trigger] alphabet()[v] == 0x41 + v,
        forall|v: int| 26 <= v < 52 ==> #[trigger] alphabet()[v] == 0x61 + (v - 26),
        forall|v: int| 52 <= v < 62 ==> #[trigger] alphabet()[v] == 0x30 + (v - 52),
        alphabet()[62] == 0x2b,
        alphabet()[63] == 0x2f,
{
    reveal_strlit("ABCDEFGHIJKLMNOPQRSTUVWXYZabcdefghijklmnopqrstuvwxyz0123456789+/");
    text::lemma_octets_of_ascii(
        "ABCDEFGHIJKLMNOPQRSTUVWXYZabcdefghijklmnopqrstuvwxyz0123456789+/"@,
    );
}

/// The character for a value is the one at that place of the alphabet, and the
/// value of a byte is its place there; a byte that is not there has none.
pub proof fn law_base64_alphabet(v: int, b: u8)
    requires
        0 <= v < 64,
    ensures
        alphabet().len() == 64,
        data::b64_char(v) == alphabet()[v],
        data::b64_val(alphabet()[v]) == Some(v as u8),
        data::b64_val(b) matches Some(w) ==> w < 64 && alphabet()[w as int] == b,
        data::b64_val(b) is None <==> !alphabet().contains(b),
{
    lemma_alphabet();
    if let Some(w) = data::b64_val(b) {
        assert(alphabet()[w as int] == b);
    }
    if alphabet().contains(b) {
        let w = choose|w: int| 0 <= w < alphabet().len() && alphabet()[w] == b;
        assert(alphabet()[w] == b);
    }
}

/// Four values below 64 are the digits of one number.
proof fn lemma_four_sextets(v0: int, v1: int, v2: int, v3: int)
    requires
        0 <= v0 < 64,
        0 <= v1 < 64,
        0 <= v2 < 64,
        0 <= v3 < 64,
    ensures
        ({
            let t = v0 * 262144 + v1 * 4096 + v2 * 64 + v3;
            &&& t / 262144 == v0
            &&& t / 4096 % 64 == v1
            &&& t / 64 % 64 == v2
            &&& t % 64 == v3
        }),
{
    let t = v0 * 262144 + v1 * 4096 + v2 * 64 + v3;
    assert(t / 64 == v0 * 4096 + v1 * 64 + v2);
    assert(t / 4096 == v0 * 64 + v1);
    assert(t / 262144 == v0);
}

/// Three bytes are spelled by four characters, six bits by each, and what
/// follows by what spells it alone.
pub proof fn law_base64_spells_three_bytes_by_four(a: u8, b: u8, c: u8, rest: Seq<u8>)
    ensures
        data::base64_encoded(seq![a, b, c] + rest) == seq![
            alphabet()[a as int / 4],
            alphabet()[a as int % 4 * 16 + b as int / 16],
            alphabet()[b as int % 16 * 4 + c as int / 64],
            alphabet()[c as int % 64],
        ] + data::base64_encoded(rest),
{
    let d = seq![a, b, c] + rest;
    lemma_group_of_bytes(a, b, c);
    assert(d.skip(3) =~= rest);
}

proof fn lemma_group_of_bytes(a: u8, b: u8, c: u8)
    ensures
        data::b64_group(a, b, c) == seq![
            alphabet()[a as int / 4],
            alphabet()[a as int % 4 * 16 + b as int / 16],
            alphabet()[b as int % 16 * 4 + c as int / 64],
            alphabet()[c as int % 64],
        ],
{
    let v0 = a as int / 4;
    let v1 = a as int % 4 * 16 + b as int / 16;
    let v2 = b as int % 16 * 4 + c as int / 64;
    let v3 = c as int % 64;
    lemma_four_sextets(v0, v1, v2, v3);
    assert(a * 65536 + b * 256 + c == v0 * 262144 + v1 * 4096 + v2 * 64 + v3);
    law_base64_alphabet(v0, 0);
    law_base64_alphabet(v1, 0);
    law_base64_alphabet(v2, 0);
    law_base64_alphabet(v3, 0);
    reveal(data::b64_group);
    assert(data::b64_group(a, b, c) =~= seq![
        alphabet()[v0],
        alphabet()[v1],
        alphabet()[v2],
        alphabet()[v3],
    ]);
}

/// One or two bytes at the end are spelled by two or three characters, with
/// the bits that are left over zero, and padding.
pub proof fn law_base64_pads_the_end(a: u8, b: u8)
    ensures
        data::base64_encoded(Seq::empty()) == Seq::<u8>::empty(),
        data::base64_encoded(seq![a]) == seq![
            alphabet()[a as int / 4],
            alphabet()[a as int % 4 * 16],
            0x3du8,
            0x3d,
        ],
        data::base64_encoded(seq![a, b]) == seq![
            alphabet()[a as int / 4],
            alphabet()[a as int % 4 * 16 + b as int / 16],
            alphabet()[b as int % 16 * 4],
            0x3du8,
        ],
{
    lemma_group_of_bytes(a, 0, 0);
    lemma_group_of_bytes(a, b, 0);
    assert(data::base64_encoded(seq![a]) =~= seq![
        alphabet()[a as int / 4],
        alphabet()[a as int % 4 * 16],
        0x3du8,
        0x3d,
    ]);
    assert(data::base64_encoded(seq![a, b]) =~= seq![
        alphabet()[a as int / 4],
        alphabet()[a as int % 4 * 16 + b as int / 16],
        alphabet()[b as int % 16 * 4],
        0x3du8,
    ]);
}

/// What is left of two texts without their blanks is left of both together.
proof fn lemma_blanks_go_apart(p: Seq<u8>, s: Seq<u8>)
    ensures
        data::without_blanks(p + s) == data::without_blanks(p) + data::without_blanks(s),
{
    Seq::filter_distributes_over_add(p, s, |b: u8| !data::is_blank(b));
}

/// The bytes that the values of a group make up, six bits from each.
proof fn lemma_bytes_of_group(g: Seq<u8>, v0: int, v1: int, v2: int, v3: int, pads: int)
    requires
        g.len() == 4,
        0 <= v0 < 64,
        0 <= v1 < 64,
        0 <= v2 < 64,
        0 <= v3 < 64,
        data::group_val(g[0]) == v0,
        data::group_val(g[1]) == v1,
        data::group_val(g[2]) == v2,
        data::group_val(g[3]) == v3,
        0 <= pads <= 2,
    ensures
        data::group_bytes(g, pads) == seq![
            (v0 * 4 + v1 / 16) as u8,
            (v1 % 16 * 16 + v2 / 4) as u8,
            (v2 % 4 * 64 + v3) as u8,
        ].take(3 - pads),
{
    let a = v0 * 4 + v1 / 16;
    let b = v1 % 16 * 16 + v2 / 4;
    let c = v2 % 4 * 64 + v3;
    data::lemma_sextets(a, b, c);
    assert(v0 * 262144 + v1 * 4096 + v2 * 64 + v3 == a * 65536 + b * 256 + c);
    reveal(data::upper_bytes);
}

/// Four characters of the alphabet are three bytes, whatever follows them.
pub proof fn law_base64_reads_four_as_three_bytes(
    g: Seq<u8>,
    v0: int,
    v1: int,
    v2: int,
    v3: int,
    rest: Seq<u8>,
)
    requires
        g.len() == 4,
        stands_for(g[0], v0),
        stands_for(g[1], v1),
        stands_for(g[2], v2),
        stands_for(g[3], v3),
    ensures
        match data::base64_decoded(rest) {
            Ok(r) => data::base64_decoded(g + rest) == Ok::<_, ErrorView>(
                seq![
                    (v0 * 4 + v1 / 16) as u8,
                    (v1 % 16 * 16 + v2 / 4) as u8,
                    (v2 % 4 * 64 + v3) as u8,
                ] + r,
            ),
            Err(_) => data::base64_decoded(g + rest) is Err,
        },
{
    lemma_alphabet();
    law_base64_alphabet(v0, g[0]);
    law_base64_alphabet(v1, g[1]);
    law_base64_alphabet(v2, g[2]);
    law_base64_alphabet(v3, g[3]);
    assert forall|i: int| 0 <= i < 4 implies data::b64_val(#[trigger] g[i]) is Some && g[i]
        != 0x3d && !data::is_blank(g[i]) by {
        assert(i == 0 || i == 1 || i == 2 || i == 3);
    }
    data::lemma_nothing_blank(g);
    lemma_blanks_go_apart(g, rest);
    data::lemma_sound_group(g, 0);
    lemma_bytes_of_group(g, v0, v1, v2, v3, 0);
    let clean = g + data::without_blanks(rest);
    assert(clean.take(4) =~= g);
    assert(clean.skip(4) =~= data::without_blanks(rest));
    let three = seq![
        (v0 * 4 + v1 / 16) as u8,
        (v1 % 16 * 16 + v2 / 4) as u8,
        (v2 % 4 * 64 + v3) as u8,
    ];
    assert(three.take(3) =~= three);
}

/// Two or three characters of the alphabet with padding are one or two bytes.
pub proof fn law_base64_reads_padded_ends(g: Seq<u8>, v0: int, v1: int, v2: int)
    requires
        g.len() == 4,
        stands_for(g[0], v0),
        stands_for(g[1], v1),
        g[3] == 0x3d,
    ensures
        data::base64_decoded(Seq::empty()) == Ok::<_, ErrorView>(Seq::<u8>::empty()),
        g[2] == 0x3d ==> data::base64_decoded(g) == Ok::<_, ErrorView>(
            seq![(v0 * 4 + v1 / 16) as u8],
        ),
        stands_for(g[2], v2) ==> data::base64_decoded(g) == Ok::<_, ErrorView>(
            seq![(v0 * 4 + v1 / 16) as u8, (v1 % 16 * 16 + v2 / 4) as u8],
        ),
{
    let none = Seq::<u8>::empty();
    assert(data::without_blanks(none) =~= none) by {
        data::lemma_nothing_blank(none);
    }
    assert(data::base64_groups(none) == Ok::<_, ErrorView>(none));
    lemma_alphabet();
    law_base64_alphabet(v0, g[0]);
    law_base64_alphabet(v1, g[1]);
    let pads: int = if g[2] == 0x3d {
        2
    } else {
        1
    };
    if g[2] == 0x3d || stands_for(g[2], v2) {
        if g[2] != 0x3d {
            law_base64_alphabet(v2, g[2]);
        }
        assert forall|i: int| 0 <= i < 4 implies !data::is_blank(#[trigger] g[i]) by {
            assert(i == 0 || i == 1 || i == 2 || i == 3);
        }
        assert forall|i: int| 0 <= i < 4 - pads implies data::b64_val(#[trigger] g[i]) is Some
            && g[i] != 0x3d by {
            assert(i == 0 || i == 1 || i == 2);
        }
        data::lemma_nothing_blank(g);
        data::lemma_sound_group(g, pads);
        let w2 = if g[2] == 0x3d {
            0
        } else {
            v2
        };
        lemma_bytes_of_group(g, v0, v1, w2, 0, pads);
        assert(g.take(4) =~= g);
        assert(g.skip(4) =~= none);
        let three = seq![
            (v0 * 4 + v1 / 16) as u8,
            (v1 % 16 * 16 + w2 / 4) as u8,
            (w2 % 4 * 64 + 0) as u8,
        ];
        assert(three.take(3 - pads) + none =~= three.take(3 - pads));
        assert(three.take(1) =~= seq![(v0 * 4 + v1 / 16) as u8]);
        assert(three.take(2) =~= seq![(v0 * 4 + v1 / 16) as u8, (v1 % 16 * 16 + w2 / 4) as u8]);
    }
}

/// A blank anywhere in base64 changes nothing.
pub proof fn law_base64_blanks_do_not_count(p: Seq<u8>, b: u8, s: Seq<u8>)
    requires
        blank(b),
    ensures
        data::base64_decoded(p + seq![b] + s) == data::base64_decoded(p + s),
{
    let none = Seq::<u8>::empty();
    lemma_blanks_go_apart(p + seq![b], s);
    lemma_blanks_go_apart(p, seq![b]);
    lemma_blanks_go_apart(p, s);
    assert(data::without_blanks(seq![b]) =~= none) by {
        reveal(Seq::filter);
        assert(seq![b].drop_last() =~= none);
        assert(data::without_blanks(none) =~= none);
    }
    assert(data::without_blanks(p) + none =~= data::without_blanks(p));
}

/// Nothing else is base64: without blanks, whole groups of four, characters of
/// the alphabet, and `=` in the last two places alone, the last one first.
pub proof fn law_base64_refuses_all_else(s: Seq<u8>)
    requires
        forall|i: int| 0 <= i < s.len() ==> !blank(#[trigger] s[i]),
        data::base64_decoded(s) is Ok,
    ensures
        s.len() % 4 == 0,
        forall|i: int| 0 <= i < s.len() - 2 ==> alphabet().contains(#[trigger] s[i]),
        s.len() > 0 ==> {
            let y = s[s.len() - 2];
            let z = s[s.len() - 1];
            &&& alphabet().contains(z) || z == 0x3d
            &&& alphabet().contains(y) || (y == 0x3d && z == 0x3d)
        },
{
    assert forall|i: int| 0 <= i < s.len() implies !data::is_blank(#[trigger] s[i]) by {
        assert(!blank(s[i]));
    }
    data::lemma_nothing_blank(s);
    lemma_accepted_groups(s);
    assert forall|i: int| 0 <= i < s.len() implies (data::b64_val(#[trigger] s[i]) is Some
        <==> alphabet().contains(s[i])) by {
        law_base64_alphabet(0, s[i]);
    }
}

proof fn lemma_accepted_groups(s: Seq<u8>)
    requires
        s.len() % 4 == 0,
        data::base64_groups(s) is Ok,
    ensures
        forall|i: int| 0 <= i < s.len() - 2 ==> data::b64_val(#[trigger] s[i]) is Some,
        s.len() > 0 ==> {
            let y = s[s.len() - 2];
            let z = s[s.len() - 1];
            &&& data::b64_val(z) is Some || z == 0x3d
            &&& data::b64_val(y) is Some || (y == 0x3d && z == 0x3d)
        },
    decreases s.len(),
{
    if s.len() >= 4 {
        let g = s.take(4);
        lemma_accepted_group(g);
        if s.len() > 4 {
            let t = s.skip(4);
            lemma_accepted_groups(t);
            assert(s[s.len() - 1] == t[t.len() - 1]);
            assert(s[s.len() - 2] == t[t.len() - 2]);
            assert forall|i: int| 0 <= i < s.len() - 2 implies data::b64_val(
                #[trigger] s[i],
            ) is Some by {
                if i < 4 {
                    assert(s[i] == g[i]);
                    assert(i == 0 || i == 1 || i == 2 || i == 3);
                } else {
                    assert(s[i] == t[i - 4]);
                }
            }
        } else {
            assert forall|i: int| 0 <= i < s.len() - 2 implies data::b64_val(
                #[trigger] s[i],
            ) is Some by {
                assert(s[i] == g[i]);
            }
            assert(s[2] == g[2]);
            assert(s[3] == g[3]);
        }
    }
}

proof fn lemma_accepted_group(g: Seq<u8>)
    requires
        g.len() == 4,
        data::group_fault(g, 0, 0) is None,
        data::group_pads(g, 4) <= 2,
    ensures
        forall|i: int| 0 <= i < 2 ==> data::b64_val(#[trigger] g[i]) is Some,
        data::b64_val(g[3]) is Some || g[3] == 0x3d,
        data::b64_val(g[2]) is Some || (g[2] == 0x3d && g[3] == 0x3d),
        data::group_pads(g, 4) >= 0,
        data::group_pads(g, 4) == 0 ==> data::b64_val(g[2]) is Some && data::b64_val(g[3]) is Some,
{
    reveal_with_fuel(data::group_fault, 5);
    reveal_with_fuel(data::group_pads, 5);
}

/// Percent-encoding goes byte by byte: letters, digits, `-`, `.`, `_` and `~`
/// stand for themselves, and every other byte is a `%` and two digits.
pub proof fn law_percent_encoding_goes_byte_by_byte(d: Seq<u8>, b: u8)
    ensures
        data::percent_encoded(Seq::empty()) == Seq::<u8>::empty(),
        data::percent_encoded(d.push(b)) == data::percent_encoded(d) + if grammar::letter(b)
            || 0x30 <= b <= 0x39 || b == 0x2d || b == 0x2e || b == 0x5f || b == 0x7e {
            seq![b]
        } else {
            seq![
                0x25u8,
                text::octets("0123456789ABCDEF"@)[b as int / 16],
                text::octets("0123456789ABCDEF"@)[b as int % 16],
            ]
        },
{
    grammar::law_hexadecimal_digits(b);
    assert(d.push(b).drop_last() =~= d);
    let hi = b as int / 16;
    let lo = b as int % 16;
    assert(data::hex_digit(hi) == text::octets("0123456789ABCDEF"@)[hi]);
    assert(data::hex_digit(lo) == text::octets("0123456789ABCDEF"@)[lo]);
}

/// Behind `data:` stand a header, a comma and a payload. A header that ends in
/// `;base64`, in whatever case, is a media type with a payload in base64.
pub proof fn law_data_in_base64(
    u: Seq<u8>,
    mediatype: Seq<u8>,
    end: Seq<u8>,
    payload: Seq<u8>,
)
    requires
        uri::same_word(uri::parts(u).0, text::octets("data"@)),
        uri::parts(u).1 == mediatype + end + seq![0x2cu8] + payload,
        forall|i: int| 0 <= i < mediatype.len() ==> #[trigger] mediatype[i] != 0x2c,
        uri::same_word(end, text::octets(";base64"@)),
    ensures
        grammar::slashes_first(mediatype) ==> data::parsed(u) matches Err(
            ErrorView::InvalidData(_),
        ),
        !grammar::slashes_first(mediatype) ==> data::parsed(u) == match data::base64_decoded(
            payload,
        ) {
            Ok(d) => Ok(DataParts { mediatype, base64: true, data: d }),
            Err(e) => Err::<DataParts, _>(e),
        },
{
    let header = mediatype + end;
    data::lemma_marker();
    assert forall|i: int| 0 <= i < header.len() implies header[i] != 0x2c by {
        if i >= mediatype.len() {
            let j = i - mediatype.len();
            assert(header[i] == end[j]);
            assert(uri::lower(end[j]) == uri::lower(data::marker()[j]));
        }
    }
    lemma_header(u, header, payload);
    assert(header.skip(header.len() - 7) =~= end);
    assert(header.take(header.len() - 7) =~= mediatype);
}

/// Any other header is a media type with a percent-encoded payload.
pub proof fn law_data_in_percent_encoding(u: Seq<u8>, mediatype: Seq<u8>, payload: Seq<u8>)
    requires
        uri::same_word(uri::parts(u).0, text::octets("data"@)),
        uri::parts(u).1 == mediatype + seq![0x2cu8] + payload,
        forall|i: int| 0 <= i < mediatype.len() ==> #[trigger] mediatype[i] != 0x2c,
        mediatype.len() >= 7 ==> !uri::same_word(
            mediatype.skip(mediatype.len() - 7),
            text::octets(";base64"@),
        ),
    ensures
        grammar::slashes_first(mediatype) ==> data::parsed(u) matches Err(
            ErrorView::InvalidData(_),
        ),
        !grammar::slashes_first(mediatype) ==> data::parsed(u) == match uri::percent_decoded(
            payload,
            0,
        ) {
            Ok(d) => Ok(DataParts { mediatype, base64: false, data: d }),
            Err(e) => Err::<DataParts, _>(e),
        },
{
    data::lemma_marker();
    lemma_header(u, mediatype, payload);
}

proof fn lemma_header(u: Seq<u8>, header: Seq<u8>, payload: Seq<u8>)
    requires
        uri::parts(u).1 == header + seq![0x2cu8] + payload,
        forall|i: int| 0 <= i < header.len() ==> header[i] != 0x2c,
    ensures
        ({
            let rest = uri::parts(u).1;
            let comma = text::find(rest, 0x2c) as int;
            &&& comma == header.len()
            &&& comma < rest.len()
            &&& rest.take(comma) == header
            &&& rest.skip(comma + 1) == payload
        }),
{
    let rest = uri::parts(u).1;
    assert forall|j: int| 0 <= j < header.len() implies rest[j] != 0x2c by {
        assert(rest[j] == header[j]);
    }
    text::lemma_find_is(rest, 0x2c, header.len() as int);
    assert(rest.take(header.len() as int) =~= header);
    assert(rest.skip(header.len() as int + 1) =~= payload);
}

/// Without a comma, or under another scheme, nothing is a `data:` URI, and
/// whatever is wrong with one is reported as bad input.
pub proof fn law_data_uris_need_their_parts(u: Seq<u8>)
    ensures
        data::parsed(u) is Ok ==> uri::same_word(uri::parts(u).0, text::octets("data"@))
            && uri::parts(u).1.contains(0x2c),
        data::parsed(u) matches Err(e) ==> e is InvalidData,
{
    let rest = uri::parts(u).1;
    text::lemma_find(rest, 0x2c);
    if data::parsed(u) is Ok {
        let comma = text::find(rest, 0x2c) as int;
        assert(rest[comma] == 0x2c);
    }
    if let Ok(s) = data::parsed(u) {
    } else {
        lemma_percent_errors(uri::parts(u).1.skip(text::find(rest, 0x2c) as int + 1), 0);
        lemma_base64_errors(
            data::without_blanks(uri::parts(u).1.skip(text::find(rest, 0x2c) as int + 1)),
        );
    }
}

proof fn lemma_percent_errors(s: Seq<u8>, at: int)
    ensures
        uri::percent_decoded(s, at) matches Err(e) ==> e is InvalidData,
    decreases s.len() - at,
{
    if at < s.len() {
        lemma_percent_errors(s, at + 1);
        if at + 2 < s.len() {
            lemma_percent_errors(s, at + 3);
        }
    }
}

proof fn lemma_base64_errors(s: Seq<u8>)
    ensures
        data::base64_groups(s) matches Err(e) ==> e is InvalidData,
    decreases s.len(),
{
    if s.len() >= 4 {
        reveal_with_fuel(data::group_fault, 5);
        lemma_base64_errors(s.skip(4));
    }
}

/// A value is spelled `data:`, its media type, the marker where the payload is
/// in base64, a comma and the payload.
pub proof fn law_data_is_spelled_part_by_part(d: DataParts)
    ensures
        d.base64 ==> d.spelled() == text::octets("data:"@) + d.mediatype + text::octets(
            ";base64,"@,
        ) + data::base64_encoded(d.data),
        !d.base64 ==> d.spelled() == text::octets("data:"@) + d.mediatype + text::octets(","@)
            + data::percent_encoded(d.data),
{
    reveal_strlit(",");
    text::lemma_octets_of_ascii(","@);
    assert(text::octets(","@) =~= seq![0x2cu8]);
}

/// A media type is refused where it holds a comma, where it starts with `//`,
/// and where it ends in `;base64` with the payload not in base64; and nowhere
/// else.
pub proof fn law_media_types_that_are_refused(mediatype: Seq<u8>, base64: bool)
    ensures
        data::unspellable(mediatype, base64) is Some <==> {
            ||| exists|i: int| 0 <= i < mediatype.len() && mediatype[i] == 0x2c
            ||| grammar::slashes_first(mediatype)
            ||| !base64 && mediatype.len() >= 7 && uri::same_word(
                mediatype.skip(mediatype.len() - 7),
                text::octets(";base64"@),
            )
        },
        data::unspellable(mediatype, base64) matches Some(e) ==> e is InvalidData,
{
    data::lemma_marker();
}

} // verus!
