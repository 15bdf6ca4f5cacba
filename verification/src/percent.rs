//! Percent decoding of request paths and percent encoding of listing links.
//!
//! Decoding works on the raw bytes of the request path: a `%` followed by two
//! hex digits becomes one byte, anything else passes through unchanged.
//! Encoding covers the characters that must not appear bare inside an `href`
//! path segment; `/` is kept as the separator and everything outside the set,
//! including non-ASCII text, passes through.

use vstd::prelude::*;
use vstd::utf8::*;

verus! {

broadcast use vstd::seq_lib::group_seq_properties;

pub open spec fn spec_is_hex_digit(b: u8) -> bool {
    (0x30 <= b <= 0x39) || (0x61 <= b <= 0x66) || (0x41 <= b <= 0x46)
}

pub open spec fn spec_hex_value(b: u8) -> u8 {
    if 0x30 <= b <= 0x39 {
        (b - 0x30) as u8
    } else if 0x61 <= b <= 0x66 {
        (b - 0x61 + 10) as u8
    } else if 0x41 <= b <= 0x46 {
        (b - 0x41 + 10) as u8
    } else {
        0
    }
}

pub fn is_hex_digit(b: u8) -> (r: bool)
    ensures
        r == spec_is_hex_digit(b),
{
    (0x30 <= b && b <= 0x39) || (0x61 <= b && b <= 0x66) || (0x41 <= b && b <= 0x46)
}

pub fn hex_value(b: u8) -> (r: u8)
    ensures
        r == spec_hex_value(b),
{
    if 0x30 <= b && b <= 0x39 {
        b - 0x30
    } else if 0x61 <= b && b <= 0x66 {
        b - 0x61 + 10
    } else if 0x41 <= b && b <= 0x46 {
        b - 0x41 + 10
    } else {
        0
    }
}

/// True when a `%` escape starts at index `i` of `s`.
pub open spec fn spec_escape_at(s: Seq<u8>, i: int) -> bool {
    &&& 0 <= i
    &&& i + 3 <= s.len()
    &&& s[i] == 0x25
    &&& spec_is_hex_digit(s[i + 1])
    &&& spec_is_hex_digit(s[i + 2])
}

/// The byte an escape at index `i` stands for.
pub open spec fn spec_escape_value(s: Seq<u8>, i: int) -> u8 {
    (spec_hex_value(s[i + 1]) * 16 + spec_hex_value(s[i + 2])) as u8
}

/// Percent decoding over bytes.  Total: a `%` that does not start a well-formed
/// escape passes through as a literal byte.
pub open spec fn spec_percent_decode(s: Seq<u8>) -> Seq<u8>
    decreases s.len(),
{
    if s.len() == 0 {
        seq![]
    } else if spec_escape_at(s, 0) {
        seq![spec_escape_value(s, 0)] + spec_percent_decode(s.skip(3))
    } else {
        seq![s[0]] + spec_percent_decode(s.skip(1))
    }
}

/// Unrolls `spec_percent_decode` at the head of the suffix starting at `i`
/// when an escape sits there.
proof fn lemma_decode_step_escape(s: Seq<u8>, i: int)
    requires
        spec_escape_at(s, i),
    ensures
        spec_percent_decode(s.skip(i)) == seq![spec_escape_value(s, i)] + spec_percent_decode(
            s.skip(i + 3),
        ),
{
    let suf = s.skip(i);
    assert(suf[0] == s[i]);
    assert(suf[1] == s[i + 1]);
    assert(suf[2] == s[i + 2]);
    assert(spec_escape_at(suf, 0));
    assert(spec_escape_value(suf, 0) == spec_escape_value(s, i));
    assert(suf.skip(3) =~= s.skip(i + 3));
}

/// Unrolls `spec_percent_decode` at the head of the suffix starting at `i`
/// when no escape sits there.
proof fn lemma_decode_step_literal(s: Seq<u8>, i: int)
    requires
        0 <= i < s.len(),
        !spec_escape_at(s, i),
    ensures
        spec_percent_decode(s.skip(i)) == seq![s[i]] + spec_percent_decode(s.skip(i + 1)),
{
    let suf = s.skip(i);
    assert(suf[0] == s[i]);
    if suf.len() >= 3 {
        assert(suf[1] == s[i + 1]);
        assert(suf[2] == s[i + 2]);
    }
    assert(!spec_escape_at(suf, 0));
    assert(suf.skip(1) =~= s.skip(i + 1));
}

pub fn percent_decode(s: &[u8]) -> (r: Vec<u8>)
    ensures
        r@ == spec_percent_decode(s@),
{
    let len = s.len();
    let mut out: Vec<u8> = Vec::new();
    let mut i: usize = 0;
    while i < len
        invariant
            len == s@.len(),
            0 <= i <= len,
            spec_percent_decode(s@) == out@ + spec_percent_decode(s@.skip(i as int)),
        decreases len - i,
    {
        if s[i] == 0x25 && len - i > 2 && is_hex_digit(s[i + 1]) && is_hex_digit(s[i + 2]) {
            proof {
                assert(spec_escape_at(s@, i as int));
                lemma_decode_step_escape(s@, i as int);
            }
            let v = hex_value(s[i + 1]) * 16 + hex_value(s[i + 2]);
            proof {
                assert(v == spec_escape_value(s@, i as int));
            }
            out.push(v);
            i = i + 3;
        } else {
            proof {
                assert(!spec_escape_at(s@, i as int));
                lemma_decode_step_literal(s@, i as int);
            }
            let b = s[i];
            out.push(b);
            i = i + 1;
        }
    }
    proof {
        assert(s@.skip(len as int) =~= Seq::<u8>::empty());
        assert(out@ =~= out@ + spec_percent_decode(s@.skip(len as int)));
    }
    out
}

/// The characters percent-encoded inside a generated path segment: controls,
/// space, `"`, `#`, `%`, `<`, `>`, `?`, backtick, `{`, `}`, and backslash.
pub open spec fn in_segment_encode_set(c: char) -> bool {
    ||| (c as u32) < 0x20
    ||| (c as u32) == 0x7f
    ||| c == ' '
    ||| c == '"'
    ||| c == '#'
    ||| c == '%'
    ||| c == '<'
    ||| c == '>'
    ||| c == '?'
    ||| c == '`'
    ||| c == '{'
    ||| c == '}'
    ||| c == '\\'
}

pub open spec fn spec_hex_upper(v: u8) -> char {
    if v == 0 {
        '0'
    } else if v == 1 {
        '1'
    } else if v == 2 {
        '2'
    } else if v == 3 {
        '3'
    } else if v == 4 {
        '4'
    } else if v == 5 {
        '5'
    } else if v == 6 {
        '6'
    } else if v == 7 {
        '7'
    } else if v == 8 {
        '8'
    } else if v == 9 {
        '9'
    } else if v == 10 {
        'A'
    } else if v == 11 {
        'B'
    } else if v == 12 {
        'C'
    } else if v == 13 {
        'D'
    } else if v == 14 {
        'E'
    } else {
        'F'
    }
}

/// What one character of a path contributes to the encoded form.
pub open spec fn spec_encode_char(c: char) -> Seq<char> {
    if in_segment_encode_set(c) {
        seq!['%', spec_hex_upper(((c as u32) / 16) as u8), spec_hex_upper(((c as u32) % 16) as u8)]
    } else {
        seq![c]
    }
}

/// The encoded form of a whole path: `/` separators are untouched (they are
/// not in the encode set) and every other character is encoded on its own.
pub open spec fn spec_encode_path(s: Seq<char>) -> Seq<char>
    decreases s.len(),
{
    if s.len() == 0 {
        seq![]
    } else {
        spec_encode_char(s[0]) + spec_encode_path(s.skip(1))
    }
}

/// One uppercase hex digit as a string slice.
fn hex_upper_str(v: u8) -> (r: &'static str)
    requires
        v < 16,
    ensures
        r@ == seq![spec_hex_upper(v)],
{
    proof {
        reveal_strlit("0");
        reveal_strlit("1");
        reveal_strlit("2");
        reveal_strlit("3");
        reveal_strlit("4");
        reveal_strlit("5");
        reveal_strlit("6");
        reveal_strlit("7");
        reveal_strlit("8");
        reveal_strlit("9");
        reveal_strlit("A");
        reveal_strlit("B");
        reveal_strlit("C");
        reveal_strlit("D");
        reveal_strlit("E");
        reveal_strlit("F");
    }
    match v {
        0 => "0",
        1 => "1",
        2 => "2",
        3 => "3",
        4 => "4",
        5 => "5",
        6 => "6",
        7 => "7",
        8 => "8",
        9 => "9",
        10 => "A",
        11 => "B",
        12 => "C",
        13 => "D",
        14 => "E",
        _ => "F",
    }
}

fn char_in_encode_set(c: char) -> (r: bool)
    ensures
        r == in_segment_encode_set(c),
{
    let u = c as u32;
    u < 0x20 || u == 0x7f || c == ' ' || c == '"' || c == '#' || c == '%' || c == '<' || c == '>'
        || c == '?' || c == '`' || c == '{' || c == '}' || c == '\\'
}

/// Percent-encode each segment of a slash-separated path for use inside an
/// `href` attribute, leaving the `/` separators in place.
pub fn encode_path_segments(path: &str) -> (r: String)
    ensures
        r@ == spec_encode_path(path@),
{
    let len = path.unicode_len();
    let mut out = String::new();
    let mut i: usize = 0;
    while i < len
        invariant
            len == path@.len(),
            0 <= i <= len,
            out@ == spec_encode_path(path@.take(i as int)),
        decreases len - i,
    {
        let ghost prefix = path@.take(i as int);
        let c = path.get_char(i);
        if char_in_encode_set(c) {
            let u = c as u32;
            proof {
                reveal_strlit("%");
            }
            out.append("%");
            out.append(hex_upper_str((u / 16) as u8));
            out.append(hex_upper_str((u % 16) as u8));
        } else {
            let piece = path.substring_char(i, i + 1);
            proof {
                assert(piece@ =~= seq![path@[i as int]]);
            }
            out.append(piece);
        }
        i = i + 1;
        proof {
            lemma_encode_path_step(path@, i as int);
            assert(out@ == spec_encode_path(path@.take(i as int)));
        }
    }
    proof {
        assert(path@.take(len as int) =~= path@);
    }
    out
}

/// The encode set, read on the encoded ASCII byte.
pub open spec fn in_segment_encode_set_byte(b: u8) -> bool {
    ||| b < 0x20
    ||| b == 0x7f
    ||| b == 0x20
    ||| b == 0x22
    ||| b == 0x23
    ||| b == 0x25
    ||| b == 0x3c
    ||| b == 0x3e
    ||| b == 0x3f
    ||| b == 0x60
    ||| b == 0x7b
    ||| b == 0x7d
    ||| b == 0x5c
}

/// What one byte contributes to the encoded form, at the byte level.
pub open spec fn spec_encode_byte(b: u8) -> Seq<u8> {
    if in_segment_encode_set_byte(b) {
        seq![0x25u8, spec_hex_upper((b / 16) as u8) as u8, spec_hex_upper((b % 16) as u8) as u8]
    } else {
        seq![b]
    }
}

/// The byte-level mirror of `spec_encode_path`.
pub open spec fn spec_encode_bytes(bs: Seq<u8>) -> Seq<u8>
    decreases bs.len(),
{
    if bs.len() == 0 {
        seq![]
    } else {
        spec_encode_byte(bs[0]) + spec_encode_bytes(bs.skip(1))
    }
}

pub proof fn lemma_encode_bytes_concat(a: Seq<u8>, b: Seq<u8>)
    ensures
        spec_encode_bytes(a + b) == spec_encode_bytes(a) + spec_encode_bytes(b),
    decreases a.len(),
{
    if a.len() == 0 {
        assert(a + b =~= b);
        assert(spec_encode_bytes(a) =~= Seq::<u8>::empty());
    } else {
        lemma_encode_bytes_concat(a.skip(1), b);
        assert((a + b).skip(1) =~= a.skip(1) + b);
        assert((a + b)[0] == a[0]);
        assert(spec_encode_bytes(a + b) =~= spec_encode_byte(a[0]) + (spec_encode_bytes(a.skip(1))
            + spec_encode_bytes(b)));
        assert(spec_encode_byte(a[0]) + (spec_encode_bytes(a.skip(1)) + spec_encode_bytes(b)) =~= (
        spec_encode_byte(a[0]) + spec_encode_bytes(a.skip(1))) + spec_encode_bytes(b));
    }
}

/// Every byte of a non-ASCII character's encoding is at or above `0x80`.
proof fn lemma_encode_scalar_bytes_high(c: char)
    requires
        (c as u32) >= 0x80,
    ensures
        forall|j: int|
            0 <= j < vstd::utf8::encode_scalar(c as u32).len()
                ==> #[trigger] vstd::utf8::encode_scalar(c as u32)[j] >= 0x80,
{
    broadcast use vstd::utf8::char_is_scalar;

    let u = c as u32;
    assert(u < 0x110000);
    assert((0xC0u8 | ((u >> 6) & 0x1F) as u8) >= 0x80) by (bit_vector);
    assert((0xE0u8 | ((u >> 12) & 0x0F) as u8) >= 0x80) by (bit_vector);
    assert((0xF0u8 | ((u >> 18) & 0x7) as u8) >= 0x80) by (bit_vector);
    assert((0x80u8 | (u & 0x3F) as u8) >= 0x80) by (bit_vector);
    assert((0x80u8 | ((u >> 6) & 0x3F) as u8) >= 0x80) by (bit_vector);
    assert((0x80u8 | ((u >> 12) & 0x3F) as u8) >= 0x80) by (bit_vector);
    assert(leading_byte_width_2(u) >= 0x80);
    assert(leading_byte_width_3(u) >= 0x80);
    assert(leading_byte_width_4(u) >= 0x80);
    assert(last_continuation_byte(u) >= 0x80);
    assert(second_last_continuation_byte(u) >= 0x80);
    assert(third_last_continuation_byte(u) >= 0x80);
    let e = encode_scalar(u);
    assert forall|j: int| 0 <= j < e.len() implies #[trigger] e[j] >= 0x80 by {
        if has_width_1_encoding(u) {
            assert(u >= 0x80 && u <= 0x7f);
        }
    }
}

/// Character-level encoding and byte-level encoding agree through UTF-8.
pub proof fn lemma_encode_path_bytes(s: Seq<char>)
    ensures
        encode_utf8(spec_encode_path(s)) == spec_encode_bytes(encode_utf8(s)),
    decreases s.len(),
{
    if s.len() == 0 {
        assert(spec_encode_path(s) =~= Seq::<char>::empty());
        assert(encode_utf8(s) =~= Seq::<u8>::empty());
        assert(encode_utf8(spec_encode_path(s)) =~= Seq::<u8>::empty());
        assert(spec_encode_bytes(encode_utf8(s)) =~= Seq::<u8>::empty());
    } else {
        let c = s[0];
        let rest = s.drop_first();
        lemma_encode_path_bytes(rest);
        assert(s.skip(1) == rest);
        assert(spec_encode_path(s) == spec_encode_char(c) + spec_encode_path(rest));
        crate::strutil::lemma_encode_utf8_concat(spec_encode_char(c), spec_encode_path(rest));
        assert(encode_utf8(s) == encode_scalar(c as u32) + encode_utf8(rest));
        lemma_encode_bytes_concat(encode_scalar(c as u32), encode_utf8(rest));
        lemma_encode_char_bytes(c);
    }
}

/// One character's contribution, through UTF-8, equals the byte-level rule
/// applied to its UTF-8 bytes.
proof fn lemma_encode_char_bytes(c: char)
    ensures
        encode_utf8(spec_encode_char(c)) == spec_encode_bytes(encode_scalar(c as u32)),
    decreases 0int,
{
    broadcast use vstd::utf8::char_is_scalar;

    let u = c as u32;
    if u < 0x80 {
        assert((u & 0x7f) == u) by (bit_vector)
            requires
                u < 0x80,
        ;
        assert(encode_scalar(u) =~= seq![u as u8]);
        let b = u as u8;
        assert(in_segment_encode_set(c) == in_segment_encode_set_byte(b));
        assert(((u / 16) as u8) == b / 16 && ((u % 16) as u8) == b % 16) by (bit_vector)
            requires
                u < 0x80 && b == u as u8,
        ;
        let single = seq![b];
        assert(encode_scalar(u) == single);
        assert(single.skip(1) =~= Seq::<u8>::empty());
        assert(spec_encode_bytes(single.skip(1)) =~= Seq::<u8>::empty());
        assert(spec_encode_bytes(single) == spec_encode_byte(b) + spec_encode_bytes(
            single.skip(1),
        ));
        assert(spec_encode_bytes(single) =~= spec_encode_byte(b));
        if in_segment_encode_set(c) {
            let h1 = spec_hex_upper((b / 16) as u8);
            let h2 = spec_hex_upper((b % 16) as u8);
            assert(spec_encode_char(c) =~= seq!['%', h1, h2]);
            assert(spec_encode_byte(b) =~= seq![0x25u8, h1 as u8, h2 as u8]);
            assert(('%' as u32) < 0x80 && ('%' as u32) as u8 == 0x25u8);
            assert((h1 as u32) < 0x80 && (h2 as u32) < 0x80 && (h1 as u32) as u8 == h1 as u8
                && (h2 as u32) as u8 == h2 as u8);
            lemma_encode_ascii_char3('%', h1, h2);
        } else {
            assert(spec_encode_char(c) =~= seq![c]);
            lemma_encode_ascii_char1(c);
        }
    } else {
        assert(spec_encode_char(c) =~= seq![c]);
        assert(encode_utf8(seq![c]) =~= encode_scalar(u)) by {
            assert(seq![c].drop_first() =~= Seq::<char>::empty());
            assert(encode_utf8(seq![c].drop_first()) =~= Seq::<u8>::empty());
        }
        lemma_encode_scalar_bytes_high(c);
        lemma_encode_bytes_identity_high(encode_scalar(u));
    }
}

/// Bytes at or above `0x80` pass through the byte-level encoding unchanged.
proof fn lemma_encode_bytes_identity_high(bs: Seq<u8>)
    requires
        forall|j: int| 0 <= j < bs.len() ==> #[trigger] bs[j] >= 0x80,
    ensures
        spec_encode_bytes(bs) == bs,
    decreases bs.len(),
{
    if bs.len() > 0 {
        assert(bs[0] >= 0x80);
        assert(!in_segment_encode_set_byte(bs[0]));
        assert(forall|j: int| 0 <= j < bs.skip(1).len() ==> #[trigger] bs.skip(1)[j] >= 0x80);
        lemma_encode_bytes_identity_high(bs.skip(1));
        assert(seq![bs[0]] + bs.skip(1) =~= bs);
    }
}

/// A single ASCII character encodes to its own byte.
pub proof fn lemma_encode_ascii_char1(c: char)
    requires
        (c as u32) < 0x80,
    ensures
        encode_utf8(seq![c]) == seq![c as u8],
{
    let u = c as u32;
    assert((u & 0x7f) == u) by (bit_vector)
        requires
            u < 0x80,
    ;
    assert(seq![c].drop_first() =~= Seq::<char>::empty());
    assert(encode_utf8(seq![c].drop_first()) =~= Seq::<u8>::empty());
    assert(encode_scalar(u) =~= seq![u as u8]);
    assert(encode_utf8(seq![c]) =~= encode_scalar(u) + Seq::<u8>::empty());
    assert(encode_scalar(u) + Seq::<u8>::empty() =~= seq![c as u8]);
}

/// Three ASCII characters encode to their three bytes.
pub proof fn lemma_encode_ascii_char3(a: char, b: char, c: char)
    requires
        (a as u32) < 0x80,
        (b as u32) < 0x80,
        (c as u32) < 0x80,
    ensures
        encode_utf8(seq![a, b, c]) == seq![a as u8, b as u8, c as u8],
{
    lemma_encode_ascii_char1(a);
    lemma_encode_ascii_char1(b);
    lemma_encode_ascii_char1(c);
    crate::strutil::lemma_encode_utf8_concat(seq![a], seq![b]);
    crate::strutil::lemma_encode_utf8_concat(seq![a, b], seq![c]);
    assert(seq![a] + seq![b] =~= seq![a, b]);
    assert(seq![a, b] + seq![c] =~= seq![a, b, c]);
    assert(seq![a as u8] + seq![b as u8] =~= seq![a as u8, b as u8]);
    assert(seq![a as u8, b as u8] + seq![c as u8] =~= seq![a as u8, b as u8, c as u8]);
}

/// The uppercase hex digit of a nibble is a hex-digit byte carrying that
/// nibble's value.
proof fn lemma_hex_upper_byte(v: u8)
    requires
        v < 16,
    ensures
        spec_is_hex_digit(spec_hex_upper(v) as u8),
        spec_hex_value(spec_hex_upper(v) as u8) == v,
{
}

/// Decoding undoes the byte-level encoding.
pub proof fn lemma_decode_encode_bytes(bs: Seq<u8>)
    ensures
        spec_percent_decode(spec_encode_bytes(bs)) == bs,
    decreases bs.len(),
{
    if bs.len() == 0 {
    } else {
        let b = bs[0];
        let rest = bs.skip(1);
        lemma_decode_encode_bytes(rest);
        let enc = spec_encode_bytes(bs);
        if in_segment_encode_set_byte(b) {
            let h1 = spec_hex_upper((b / 16) as u8) as u8;
            let h2 = spec_hex_upper((b % 16) as u8) as u8;
            lemma_hex_upper_byte((b / 16) as u8);
            lemma_hex_upper_byte((b % 16) as u8);
            assert(enc =~= seq![0x25u8, h1, h2] + spec_encode_bytes(rest));
            assert(enc[0] == 0x25 && enc[1] == h1 && enc[2] == h2);
            assert(spec_escape_at(enc, 0));
            assert(spec_escape_value(enc, 0) == b);
            assert(enc.skip(3) =~= spec_encode_bytes(rest));
            assert(seq![b] + rest =~= bs);
        } else {
            assert(b != 0x25);
            assert(enc =~= seq![b] + spec_encode_bytes(rest));
            assert(enc[0] == b);
            assert(!spec_escape_at(enc, 0));
            assert(enc.skip(1) =~= spec_encode_bytes(rest));
            assert(seq![b] + rest =~= bs);
        }
    }
}

/// The encoded form never holds an encoded slash: `%` starts only the
/// escapes the encoder wrote, and it never writes `%2F` because `/` is not
/// in the encode set.
pub proof fn lemma_encode_bytes_no_encoded_slash(bs: Seq<u8>)
    ensures
        !crate::paths::spec_has_encoded_slash(spec_encode_bytes(bs)),
    decreases bs.len(),
{
    let enc = spec_encode_bytes(bs);
    if bs.len() == 0 {
        assert(enc.len() == 0);
    } else {
        let b = bs[0];
        let rest = bs.skip(1);
        lemma_encode_bytes_no_encoded_slash(rest);
        let tail = spec_encode_bytes(rest);
        if crate::paths::spec_has_encoded_slash(enc) {
            let i = choose|i: int|
                0 <= i && i + 2 < enc.len() && #[trigger] enc[i] == 0x25
                    && crate::paths::spec_ascii_lower(enc[i + 1]) == 0x32
                    && crate::paths::spec_ascii_lower(enc[i + 2]) == 0x66;
            if in_segment_encode_set_byte(b) {
                let h1 = spec_hex_upper((b / 16) as u8) as u8;
                let h2 = spec_hex_upper((b % 16) as u8) as u8;
                lemma_hex_upper_byte((b / 16) as u8);
                lemma_hex_upper_byte((b % 16) as u8);
                assert(enc =~= seq![0x25u8, h1, h2] + tail);
                if i == 0 {
                    assert(crate::paths::spec_ascii_lower(h1) == 0x32 ==> h1 == 0x32);
                    assert(crate::paths::spec_ascii_lower(h2) == 0x66 ==> h2 == 0x46);
                    assert(b == 0x2f);
                    assert(false);
                } else if i == 1 || i == 2 {
                    assert(enc[i] == h1 || enc[i] == h2);
                    assert(enc[i] != 0x25);
                    assert(false);
                } else {
                    assert(tail[i - 3] == enc[i]);
                    assert(tail[i - 3 + 1] == enc[i + 1]);
                    assert(tail[i - 3 + 2] == enc[i + 2]);
                    assert(crate::paths::spec_has_encoded_slash(tail));
                    assert(false);
                }
            } else {
                assert(enc =~= seq![b] + tail);
                if i == 0 {
                    assert(b == 0x25);
                    assert(in_segment_encode_set_byte(0x25));
                    assert(false);
                } else {
                    assert(tail[i - 1] == enc[i]);
                    assert(tail[i - 1 + 1] == enc[i + 1]);
                    assert(tail[i - 1 + 2] == enc[i + 2]);
                    assert(crate::paths::spec_has_encoded_slash(tail));
                    assert(false);
                }
            }
        }
    }
}

/// Unrolls `spec_encode_path` one character at the back of a prefix.
proof fn lemma_encode_path_step(s: Seq<char>, i: int)
    requires
        0 < i <= s.len(),
    ensures
        spec_encode_path(s.take(i)) == spec_encode_path(s.take(i - 1)) + spec_encode_char(
            s[i - 1],
        ),
    decreases i,
{
    let single = seq![s[i - 1]];
    lemma_encode_path_concat(s.take(i - 1), single);
    assert(s.take(i) =~= s.take(i - 1) + single);
    assert(single.skip(1) =~= Seq::<char>::empty());
    assert(spec_encode_path(single.skip(1)) =~= Seq::<char>::empty());
    assert(spec_encode_path(single) == spec_encode_char(single[0]) + spec_encode_path(
        single.skip(1),
    ));
    assert(spec_encode_char(single[0]) + Seq::<char>::empty() =~= spec_encode_char(s[i - 1]));
}

/// `spec_encode_path` distributes over concatenation.
pub proof fn lemma_encode_path_concat(a: Seq<char>, b: Seq<char>)
    ensures
        spec_encode_path(a + b) == spec_encode_path(a) + spec_encode_path(b),
    decreases a.len(),
{
    if a.len() == 0 {
        assert(a + b =~= b);
        assert(spec_encode_path(a) =~= Seq::<char>::empty());
    } else {
        lemma_encode_path_concat(a.skip(1), b);
        assert((a + b).skip(1) =~= a.skip(1) + b);
        assert((a + b)[0] == a[0]);
        assert(spec_encode_path(a + b) =~= spec_encode_char(a[0]) + (spec_encode_path(a.skip(1))
            + spec_encode_path(b)));
        assert(spec_encode_char(a[0]) + (spec_encode_path(a.skip(1)) + spec_encode_path(b))
            =~= (spec_encode_char(a[0]) + spec_encode_path(a.skip(1))) + spec_encode_path(b));
    }
}

} // verus!
