//! The two-line cartridge header: splitting it off the input and reading
//! the format version out of its second line.
//!
//! The header is the signature line plus the version line, both kept
//! verbatim.  Splitting fails when fewer than two lines exist or when the
//! version line is not valid UTF-8; the version number itself is parsed
//! only on demand, so a cartridge with a malformed version string still
//! parses structurally.

use vstd::prelude::*;

use crate::bytes::{
    find_index_of_element_const, lemma_find_byte_spec, lemma_line_step, spec_find_byte,
    spec_lines, spec_lines_state, spec_line_step, subrange_vec, NewlineIter,
};
use crate::FormatError;

verus! {

use vstd::utf8::valid_utf8;

/// A one-byte encoding: any byte up to `0x7f` stands for itself.
proof fn lemma_scalar_width_1(suffix: Seq<u8>)
    requires
        suffix.len() >= 1,
        suffix[0] <= 0x7f,
    ensures
        vstd::utf8::valid_first_scalar(suffix),
        vstd::utf8::length_of_first_scalar(suffix) == 1,
{
    let b0 = suffix[0];
    assert(b0 & 0x7f <= 0x7f) by (bit_vector);
}

/// A two-byte encoding: a leading byte from `0xc2` (below that the value
/// would fit one byte) and one continuation byte.
proof fn lemma_scalar_width_2(suffix: Seq<u8>)
    requires
        suffix.len() >= 2,
        0xc2 <= suffix[0] <= 0xdf,
        0x80 <= suffix[1] <= 0xbf,
    ensures
        vstd::utf8::valid_first_scalar(suffix),
        vstd::utf8::length_of_first_scalar(suffix) == 2,
{
    let b0 = suffix[0];
    let b1 = suffix[1];
    assert(0x80 <= (((b0 & 0x1f) as u32) << 6) | ((b1 & 0x3f) as u32) && ((((b0 & 0x1f) as u32)
        << 6) | ((b1 & 0x3f) as u32)) <= 0x7ff) by (bit_vector)
        requires
            0xc2 <= b0 <= 0xdf && 0x80 <= b1 <= 0xbf,
    ;
}

/// A three-byte encoding: a leading byte in `0xe0..=0xef` and two
/// continuation bytes, where the first continuation byte keeps the value
/// off an overlong encoding (for `0xe0`) and off the surrogate range (for
/// `0xed`).
proof fn lemma_scalar_width_3(suffix: Seq<u8>)
    requires
        suffix.len() >= 3,
        0xe0 <= suffix[0] <= 0xef,
        0x80 <= suffix[1] <= 0xbf,
        0x80 <= suffix[2] <= 0xbf,
        suffix[0] == 0xe0 ==> suffix[1] >= 0xa0,
        suffix[0] == 0xed ==> suffix[1] <= 0x9f,
    ensures
        vstd::utf8::valid_first_scalar(suffix),
        vstd::utf8::length_of_first_scalar(suffix) == 3,
{
    let b0 = suffix[0];
    let b1 = suffix[1];
    let b2 = suffix[2];
    let cp = (((b0 & 0x0f) as u32) << 12) | (((b1 & 0x3f) as u32) << 6) | ((b2 & 0x3f) as u32);
    assert(0x800 <= cp && !(0xd800 <= cp <= 0xdfff)) by (bit_vector)
        requires
            cp == (((b0 & 0x0f) as u32) << 12) | (((b1 & 0x3f) as u32) << 6) | ((b2
                & 0x3f) as u32),
            0xe0 <= b0 <= 0xef,
            0x80 <= b1 <= 0xbf,
            0x80 <= b2 <= 0xbf,
            b0 == 0xe0 ==> b1 >= 0xa0,
            b0 == 0xed ==> b1 <= 0x9f,
    ;
}

/// A four-byte encoding: a leading byte in `0xf0..=0xf4` and three
/// continuation bytes, where the first continuation byte keeps the value at
/// or above `0x10000` (for `0xf0`) and at or below `0x10ffff` (for `0xf4`).
proof fn lemma_scalar_width_4(suffix: Seq<u8>)
    requires
        suffix.len() >= 4,
        0xf0 <= suffix[0] <= 0xf4,
        0x80 <= suffix[1] <= 0xbf,
        0x80 <= suffix[2] <= 0xbf,
        0x80 <= suffix[3] <= 0xbf,
        suffix[0] == 0xf0 ==> suffix[1] >= 0x90,
        suffix[0] == 0xf4 ==> suffix[1] <= 0x8f,
    ensures
        vstd::utf8::valid_first_scalar(suffix),
        vstd::utf8::length_of_first_scalar(suffix) == 4,
{
    let b0 = suffix[0];
    let b1 = suffix[1];
    let b2 = suffix[2];
    let b3 = suffix[3];
    let cp = (((b0 & 0x07) as u32) << 18) | (((b1 & 0x3f) as u32) << 12) | (((b2
        & 0x3f) as u32) << 6) | ((b3 & 0x3f) as u32);
    assert(0x10000 <= cp <= 0x10ffff) by (bit_vector)
        requires
            cp == (((b0 & 0x07) as u32) << 18) | (((b1 & 0x3f) as u32) << 12) | (((b2
                & 0x3f) as u32) << 6) | ((b3 & 0x3f) as u32),
            0xf0 <= b0 <= 0xf4,
            0x80 <= b1 <= 0xbf,
            0x80 <= b2 <= 0xbf,
            0x80 <= b3 <= 0xbf,
            b0 == 0xf0 ==> b1 >= 0x90,
            b0 == 0xf4 ==> b1 <= 0x8f,
    ;
}

/// A leading continuation byte, or a two-byte leading byte whose value
/// would fit one byte, opens no valid encoding.
proof fn lemma_invalid_low(suffix: Seq<u8>)
    requires
        suffix.len() >= 1,
        0x80 <= suffix[0] <= 0xc1,
    ensures
        !vstd::utf8::valid_first_scalar(suffix),
{
    let b0 = suffix[0];
    if 0xc0 <= b0 && suffix.len() >= 2 && 0x80 <= suffix[1] <= 0xbf {
        let b1 = suffix[1];
        assert(((((b0 & 0x1f) as u32) << 6) | ((b1 & 0x3f) as u32)) < 0x80) by (bit_vector)
            requires
                0xc0 <= b0 <= 0xc1 && 0x80 <= b1 <= 0xbf,
        ;
    }
}

/// A two-byte leading byte without its continuation byte opens no valid
/// encoding.
proof fn lemma_invalid_width_2(suffix: Seq<u8>)
    requires
        suffix.len() >= 1,
        0xc2 <= suffix[0] <= 0xdf,
        suffix.len() >= 2 ==> !(0x80 <= suffix[1] <= 0xbf),
    ensures
        !vstd::utf8::valid_first_scalar(suffix),
{
}

/// A three-byte leading byte opens no valid encoding when a continuation
/// byte is missing, when the value would fit two bytes, or when it falls in
/// the surrogate range.
proof fn lemma_invalid_width_3(suffix: Seq<u8>)
    requires
        suffix.len() >= 1,
        0xe0 <= suffix[0] <= 0xef,
        suffix.len() >= 3 && 0x80 <= suffix[1] <= 0xbf && 0x80 <= suffix[2] <= 0xbf ==> (suffix[0]
            == 0xe0 && suffix[1] < 0xa0) || (suffix[0] == 0xed && suffix[1] > 0x9f),
    ensures
        !vstd::utf8::valid_first_scalar(suffix),
{
    let b0 = suffix[0];
    if suffix.len() >= 3 && 0x80 <= suffix[1] <= 0xbf && 0x80 <= suffix[2] <= 0xbf {
        let b1 = suffix[1];
        let b2 = suffix[2];
        let cp = (((b0 & 0x0f) as u32) << 12) | (((b1 & 0x3f) as u32) << 6) | ((b2
            & 0x3f) as u32);
        if b0 == 0xe0 && b1 < 0xa0 {
            assert(cp < 0x800) by (bit_vector)
                requires
                    cp == (((b0 & 0x0f) as u32) << 12) | (((b1 & 0x3f) as u32) << 6) | ((b2
                        & 0x3f) as u32),
                    b0 == 0xe0,
                    0x80 <= b1 < 0xa0,
                    0x80 <= b2 <= 0xbf,
            ;
        } else {
            assert(0xd800 <= cp <= 0xdfff) by (bit_vector)
                requires
                    cp == (((b0 & 0x0f) as u32) << 12) | (((b1 & 0x3f) as u32) << 6) | ((b2
                        & 0x3f) as u32),
                    b0 == 0xed,
                    0xa0 <= b1 <= 0xbf,
                    0x80 <= b2 <= 0xbf,
            ;
        }
    }
}

/// A four-byte leading byte opens no valid encoding when a continuation
/// byte is missing, when the value would fit three bytes, or when it lies
/// above the last scalar.
proof fn lemma_invalid_width_4(suffix: Seq<u8>)
    requires
        suffix.len() >= 1,
        0xf0 <= suffix[0],
        suffix.len() >= 4 && 0x80 <= suffix[1] <= 0xbf && 0x80 <= suffix[2] <= 0xbf && 0x80
            <= suffix[3] <= 0xbf ==> (suffix[0] == 0xf0 && suffix[1] < 0x90) || (suffix[0] == 0xf4
            && suffix[1] > 0x8f) || suffix[0] >= 0xf5,
    ensures
        !vstd::utf8::valid_first_scalar(suffix),
{
    let b0 = suffix[0];
    if b0 >= 0xf8 {
    } else if suffix.len() >= 4 && 0x80 <= suffix[1] <= 0xbf && 0x80 <= suffix[2] <= 0xbf && 0x80
        <= suffix[3] <= 0xbf {
        let b1 = suffix[1];
        let b2 = suffix[2];
        let b3 = suffix[3];
        let cp = (((b0 & 0x07) as u32) << 18) | (((b1 & 0x3f) as u32) << 12) | (((b2
            & 0x3f) as u32) << 6) | ((b3 & 0x3f) as u32);
        if b0 == 0xf0 && b1 < 0x90 {
            assert(cp < 0x10000) by (bit_vector)
                requires
                    cp == (((b0 & 0x07) as u32) << 18) | (((b1 & 0x3f) as u32) << 12) | (((b2
                        & 0x3f) as u32) << 6) | ((b3 & 0x3f) as u32),
                    b0 == 0xf0,
                    0x80 <= b1 < 0x90,
                    0x80 <= b2 <= 0xbf,
                    0x80 <= b3 <= 0xbf,
            ;
        } else if b0 >= 0xf5 {
            assert(cp > 0x10ffff) by (bit_vector)
                requires
                    cp == (((b0 & 0x07) as u32) << 18) | (((b1 & 0x3f) as u32) << 12) | (((b2
                        & 0x3f) as u32) << 6) | ((b3 & 0x3f) as u32),
                    0xf5 <= b0 <= 0xf7,
                    0x80 <= b1 <= 0xbf,
                    0x80 <= b2 <= 0xbf,
                    0x80 <= b3 <= 0xbf,
            ;
        } else {
            assert(cp > 0x10ffff) by (bit_vector)
                requires
                    cp == (((b0 & 0x07) as u32) << 18) | (((b1 & 0x3f) as u32) << 12) | (((b2
                        & 0x3f) as u32) << 6) | ((b3 & 0x3f) as u32),
                    b0 == 0xf4,
                    0x8f < b1 <= 0xbf,
                    0x80 <= b2 <= 0xbf,
                    0x80 <= b3 <= 0xbf,
            ;
        }
    }
}

/// A rejected position ends the matter: a valid prefix followed by bytes
/// that open no valid encoding is no valid buffer.
proof fn lemma_reject(bytes: Seq<u8>, i: int)
    requires
        0 <= i < bytes.len(),
        vstd::utf8::partial_valid_utf8(bytes, i),
        !vstd::utf8::valid_first_scalar(bytes.subrange(i, bytes.len() as int)),
    ensures
        !valid_utf8(bytes),
{
    let suffix = bytes.subrange(i, bytes.len() as int);
    assert(suffix.len() > 0);
    assert(!valid_utf8(suffix));
    vstd::utf8::partial_valid_partial_invalid_utf8(bytes, i);
}

/// Whether the bytes are a valid UTF-8 encoding: every position opens a
/// well-formed scalar encoding of one to four bytes, with no overlong
/// encodings and no surrogate values.
pub fn is_valid_utf8(bytes: &[u8]) -> (r: bool)
    ensures
        r == valid_utf8(bytes@),
{
    let n = bytes.len();
    let mut i: usize = 0;
    proof {
        assert(bytes@.subrange(0, 0) =~= Seq::<u8>::empty());
        assert(valid_utf8(Seq::<u8>::empty()));
    }
    while i < n
        invariant
            0 <= i <= n,
            n == bytes@.len(),
            vstd::utf8::partial_valid_utf8(bytes@, i as int),
        decreases n - i,
    {
        let ghost suffix = bytes@.subrange(i as int, n as int);
        proof {
            assert(suffix[0] == bytes@[i as int]);
        }
        let b0 = bytes[i];
        if b0 <= 0x7f {
            proof {
                lemma_scalar_width_1(suffix);
                vstd::utf8::partial_valid_utf8_extend(bytes@, i as int);
            }
            i = i + 1;
        } else if b0 <= 0xc1 {
            proof {
                lemma_invalid_low(suffix);
                lemma_reject(bytes@, i as int);
            }
            return false;
        } else if b0 <= 0xdf {
            if i + 1 >= n {
                proof {
                    lemma_invalid_width_2(suffix);
                    lemma_reject(bytes@, i as int);
                }
                return false;
            }
            let b1 = bytes[i + 1];
            proof {
                assert(suffix[1] == bytes@[i + 1]);
            }
            if 0x80 <= b1 && b1 <= 0xbf {
                proof {
                    lemma_scalar_width_2(suffix);
                    vstd::utf8::partial_valid_utf8_extend(bytes@, i as int);
                }
                i = i + 2;
            } else {
                proof {
                    lemma_invalid_width_2(suffix);
                    lemma_reject(bytes@, i as int);
                }
                return false;
            }
        } else if b0 <= 0xef {
            if n - i < 3 {
                proof {
                    lemma_invalid_width_3(suffix);
                    lemma_reject(bytes@, i as int);
                }
                return false;
            }
            let b1 = bytes[i + 1];
            let b2 = bytes[i + 2];
            proof {
                assert(suffix[1] == bytes@[i + 1]);
                assert(suffix[2] == bytes@[i + 2]);
            }
            let conts = 0x80 <= b1 && b1 <= 0xbf && 0x80 <= b2 && b2 <= 0xbf;
            let overlong = b0 == 0xe0 && b1 < 0xa0;
            let surrogate = b0 == 0xed && b1 > 0x9f;
            if conts && !overlong && !surrogate {
                proof {
                    lemma_scalar_width_3(suffix);
                    vstd::utf8::partial_valid_utf8_extend(bytes@, i as int);
                }
                i = i + 3;
            } else {
                proof {
                    lemma_invalid_width_3(suffix);
                    lemma_reject(bytes@, i as int);
                }
                return false;
            }
        } else {
            if n - i < 4 {
                proof {
                    lemma_invalid_width_4(suffix);
                    lemma_reject(bytes@, i as int);
                }
                return false;
            }
            let b1 = bytes[i + 1];
            let b2 = bytes[i + 2];
            let b3 = bytes[i + 3];
            proof {
                assert(suffix[1] == bytes@[i + 1]);
                assert(suffix[2] == bytes@[i + 2]);
                assert(suffix[3] == bytes@[i + 3]);
            }
            let conts = 0x80 <= b1 && b1 <= 0xbf && 0x80 <= b2 && b2 <= 0xbf && 0x80 <= b3 && b3
                <= 0xbf;
            let low = b0 == 0xf0 && b1 < 0x90;
            let high = b0 == 0xf4 && b1 > 0x8f;
            if b0 <= 0xf4 && conts && !low && !high {
                proof {
                    lemma_scalar_width_4(suffix);
                    vstd::utf8::partial_valid_utf8_extend(bytes@, i as int);
                }
                i = i + 4;
            } else {
                proof {
                    lemma_invalid_width_4(suffix);
                    lemma_reject(bytes@, i as int);
                }
                return false;
            }
        }
    }
    proof {
        assert(bytes@.subrange(0, n as int) =~= bytes@);
    }
    true
}

/// Splitting the header off a buffer: the first two lines (the second one
/// valid UTF-8) and the remainder.  `None` when fewer than two lines exist
/// or the second line is not valid UTF-8.
pub open spec fn spec_split_header(src: Seq<u8>) -> Option<(Seq<u8>, Seq<u8>)> {
    let ls = spec_lines(src);
    if ls.len() < 2 {
        None
    } else if !valid_utf8(ls[1]) {
        None
    } else {
        let hlen = ls[0].len() + ls[1].len();
        Some((src.subrange(0, hlen as int), src.subrange(hlen as int, src.len() as int)))
    }
}

/// The first two lines of a buffer with at least two lines are a prefix of
/// it, and the lines of what follows them are the remaining lines.
pub proof fn lemma_header_lines(s: Seq<u8>)
    requires
        spec_lines(s).len() >= 2,
    ensures
        spec_lines(s)[0].len() + spec_lines(s)[1].len() <= s.len(),
        spec_lines(s)[0].len() >= 1,
        spec_lines(s)[1].len() >= 1,
        spec_lines(s)[0].last() == 10u8,
        s.subrange(0, spec_lines(s)[0].len() + spec_lines(s)[1].len() as int) == spec_lines(s)[0]
            + spec_lines(s)[1],
        spec_lines(
            s.subrange(spec_lines(s)[0].len() + spec_lines(s)[1].len() as int, s.len() as int),
        ) == spec_lines(s).drop_first().drop_first(),
{
    lemma_find_byte_spec(s, 10u8);
    let i = spec_find_byte(s, 10u8)->Some_0;
    let l0 = s.subrange(0, i + 1);
    let rest = s.subrange(i + 1, s.len() as int);
    assert(spec_lines(s) == seq![l0] + spec_lines(rest));
    assert(spec_lines(s).drop_first() =~= spec_lines(rest));
    assert(l0.last() == s[i]);
    lemma_find_byte_spec(rest, 10u8);
    match spec_find_byte(rest, 10u8) {
        Some(j) => {
            let l1 = rest.subrange(0, j + 1);
            let rest2 = rest.subrange(j + 1, rest.len() as int);
            assert(spec_lines(rest) == seq![l1] + spec_lines(rest2));
            assert(spec_lines(rest).drop_first() =~= spec_lines(rest2));
            assert(spec_lines(s)[1] == l1);
            assert(s.subrange(0, l0.len() + l1.len() as int) =~= l0 + l1);
            assert(s.subrange(l0.len() + l1.len() as int, s.len() as int) =~= rest2);
        },
        None => {
            assert(rest.len() != 0);
            let l1 = rest;
            assert(spec_lines(rest) == seq![l1]);
            assert(spec_lines(s)[1] == l1);
            assert(s.subrange(0, l0.len() + l1.len() as int) =~= l0 + l1);
            assert(s.subrange(l0.len() + l1.len() as int, s.len() as int) =~= Seq::<u8>::empty());
            assert(spec_lines(s).drop_first().drop_first() =~= Seq::<Seq<u8>>::empty());
        },
    }
}

/// The two fixed leading lines of a cartridge: the signature line and the
/// version line, kept byte for byte.
#[derive(Debug)]
pub struct Header {
    bytes: Vec<u8>,
}

impl View for Header {
    type V = Seq<u8>;

    closed spec fn view(&self) -> Seq<u8> {
        self.bytes@
    }
}

/// The version line's text after its leading word, still carrying any
/// trailing newline; its numeric value is parsed on demand.
#[derive(Debug)]
pub struct Version {
    bytes: Vec<u8>,
}

impl View for Version {
    type V = Seq<u8>;

    closed spec fn view(&self) -> Seq<u8> {
        self.bytes@
    }
}

/// Splits the two-line header off a cartridge source: the header bytes and
/// the remainder.  Fails when fewer than two lines exist or when the second
/// line is not valid UTF-8.
pub fn split_from(src: &[u8]) -> (r: Option<(Header, Vec<u8>)>)
    ensures
        match r {
            Some(pair) => spec_split_header(src@) == Some((pair.0@, pair.1@)),
            None => spec_split_header(src@) is None,
        },
{
    let n = src.len();
    let mut it = NewlineIter::new(src);
    proof {
        lemma_line_step(it@);
    }
    let line1 = match it.next_const() {
        Some(l) => l,
        None => {
            proof {
                assert(spec_lines(src@) =~= Seq::<Seq<u8>>::empty());
            }
            return None;
        },
    };
    proof {
        lemma_line_step(it@);
        assert(spec_lines(src@) =~= seq![line1@] + spec_lines_state(it@));
    }
    let line2 = match it.next_const() {
        Some(l) => l,
        None => {
            proof {
                assert(spec_lines_state(spec_line_step(it@).0) =~= Seq::<Seq<u8>>::empty());
                assert(spec_lines(src@) =~= seq![line1@]);
            }
            return None;
        },
    };
    proof {
        assert(spec_lines(src@)[0] == line1@);
        assert(spec_lines(src@).drop_first() =~= seq![line2@] + spec_lines_state(it@));
        assert(spec_lines(src@)[1] == line2@);
        assert(spec_lines(src@).len() >= 2);
        lemma_header_lines(src@);
    }
    if !is_valid_utf8(line2.as_slice()) {
        return None;
    }
    proof {
        assert(line1@.len() + line2@.len() <= n);
    }
    let hlen = line1.len() + line2.len();
    let header_bytes = subrange_vec(src, 0, hlen);
    let remainder = subrange_vec(src, hlen, n);
    Some((Header { bytes: header_bytes }, remainder))
}

/// Whether every byte of `s` is a decimal digit.
pub open spec fn all_digits(s: Seq<u8>) -> bool {
    forall|j: int| 0 <= j < s.len() ==> 48 <= #[trigger] s[j] <= 57
}

/// The numeric value of a sequence of decimal digits.
pub open spec fn digits_value(s: Seq<u8>) -> int
    decreases s.len(),
{
    if s.len() == 0 {
        0
    } else {
        digits_value(s.drop_last()) * 10 + (s.last() - 48)
    }
}

/// Parsing a sequence of bytes as an unsigned 32-bit decimal number:
/// defined exactly when the sequence is non-empty, all digits, and its
/// value fits.
pub open spec fn spec_parse_u32(s: Seq<u8>) -> Option<u32> {
    if s.len() > 0 && all_digits(s) && digits_value(s) <= u32::MAX {
        Some(digits_value(s) as u32)
    } else {
        None
    }
}

/// A byte sequence with one trailing newline removed, if it has one.
pub open spec fn spec_trim_newline(s: Seq<u8>) -> Seq<u8> {
    if s.len() > 0 && s.last() == 10u8 {
        s.drop_last()
    } else {
        s
    }
}

/// The version text of a header: the bytes of its second line after the
/// first space character.  Nothing when the header has fewer than two
/// lines or its second line holds no space.
pub open spec fn spec_version_text(header: Seq<u8>) -> Option<Seq<u8>> {
    let ls = spec_lines(header);
    if ls.len() < 2 {
        None
    } else {
        match spec_find_byte(ls[1], 32u8) {
            Some(i) => Some(ls[1].subrange(i + 1, ls[1].len() as int)),
            None => None,
        }
    }
}

/// The format version of a header: its version text with a trailing
/// newline trimmed, read as an unsigned decimal number.
pub open spec fn spec_header_version(header: Seq<u8>) -> Option<u32> {
    match spec_version_text(header) {
        Some(text) => spec_parse_u32(spec_trim_newline(text)),
        None => None,
    }
}

/// The value of a digit sequence is at least the value of any of its
/// prefixes.
proof fn lemma_digits_value_monotonic(s: Seq<u8>, k: int)
    requires
        all_digits(s),
        0 <= k <= s.len(),
    ensures
        digits_value(s) >= digits_value(s.subrange(0, k)),
        digits_value(s) >= 0,
    decreases s.len() - k,
{
    if k == s.len() {
        assert(s.subrange(0, k) =~= s);
        lemma_digits_value_nonneg(s);
    } else {
        lemma_digits_value_monotonic(s, k + 1);
        let p = s.subrange(0, k + 1);
        assert(p.drop_last() =~= s.subrange(0, k));
        lemma_digits_value_nonneg(s.subrange(0, k));
        assert(digits_value(p) == digits_value(s.subrange(0, k)) * 10 + (p.last() - 48));
    }
}

/// Digit sequences have non-negative values.
proof fn lemma_digits_value_nonneg(s: Seq<u8>)
    requires
        all_digits(s),
    ensures
        digits_value(s) >= 0,
    decreases s.len(),
{
    if s.len() > 0 {
        assert(all_digits(s.drop_last())) by {
            assert(forall|j: int|
                0 <= j < s.drop_last().len() ==> #[trigger] s.drop_last()[j] == s[j]);
        }
        lemma_digits_value_nonneg(s.drop_last());
    }
}

/// Parses a buffer of decimal digits as an unsigned 32-bit number.
/// Fails on an empty buffer, on any non-digit byte, and on a value that
/// does not fit.
pub fn parse_u32_digits(s: &[u8]) -> (r: Result<u32, FormatError>)
    ensures
        match r {
            Ok(v) => spec_parse_u32(s@) == Some(v),
            Err(e) => spec_parse_u32(s@) is None && e == FormatError::InvalidVersion,
        },
{
    if s.len() == 0 {
        return Err(FormatError::InvalidVersion);
    }
    let mut value: u32 = 0;
    let mut k: usize = 0;
    while k < s.len()
        invariant
            0 < s@.len(),
            0 <= k <= s@.len(),
            all_digits(s@.subrange(0, k as int)),
            value == digits_value(s@.subrange(0, k as int)),
        decreases s@.len() - k,
    {
        let b = s[k];
        if b < 48 || b > 57 {
            proof {
                assert(!all_digits(s@));
            }
            return Err(FormatError::InvalidVersion);
        }
        let d = (b - 48) as u32;
        proof {
            assert(s@.subrange(0, k + 1).drop_last() =~= s@.subrange(0, k as int));
            assert(all_digits(s@.subrange(0, k + 1))) by {
                assert(forall|j: int|
                    0 <= j < k + 1 ==> #[trigger] s@.subrange(0, k + 1)[j] == s@[j]);
            }
        }
        if value > (u32::MAX - d) / 10 {
            proof {
                lemma_digits_value_nonneg(s@.subrange(0, k as int));
                assert(digits_value(s@.subrange(0, k + 1)) > u32::MAX) by (nonlinear_arith)
                    requires
                        digits_value(s@.subrange(0, k + 1)) == value * 10 + d,
                        value > vstd::math::div(u32::MAX - d, 10),
                        0 <= d <= 9,
                        value >= 0,
                {
                }
                if all_digits(s@) {
                    lemma_digits_value_monotonic(s@, k + 1);
                }
            }
            return Err(FormatError::InvalidVersion);
        }
        value = value * 10 + d;
        k = k + 1;
    }
    proof {
        assert(s@.subrange(0, s@.len() as int) =~= s@);
    }
    Ok(value)
}

impl Header {
    /// The header's bytes, verbatim.
    pub fn as_bytes(&self) -> (r: &Vec<u8>)
        ensures
            r@ == self@,
    {
        &self.bytes
    }

    /// Takes the header's bytes out, verbatim.
    pub fn into_bytes(self) -> (r: Vec<u8>)
        ensures
            r@ == self@,
    {
        self.bytes
    }

    /// Detaches the header from any shared storage.  Every header of this
    /// library already owns its bytes, so this returns the header
    /// unchanged.
    pub fn into_owned(self) -> (r: Header)
        ensures
            r@ == self@,
    {
        self
    }

    /// The version text of the header: the second line's bytes after its
    /// first space character.  Nothing when the header has fewer than two
    /// lines or the second line holds no space.
    pub fn get_version(&self) -> (r: Option<Version>)
        ensures
            match r {
                Some(v) => spec_version_text(self@) == Some(v@),
                None => spec_version_text(self@) is None,
            },
    {
        let mut it = NewlineIter::new(self.bytes.as_slice());
        proof {
            lemma_line_step(it@);
        }
        let line1 = match it.next_const() {
            Some(l) => l,
            None => {
                proof {
                    assert(spec_lines(self@) =~= Seq::<Seq<u8>>::empty());
                }
                return None;
            },
        };
        proof {
            lemma_line_step(it@);
            assert(spec_lines(self@) =~= seq![line1@] + spec_lines_state(it@));
        }
        let line2 = match it.next_const() {
            Some(l) => l,
            None => {
                proof {
                    assert(spec_lines(self@) =~= seq![line1@]);
                }
                return None;
            },
        };
        proof {
            assert(spec_lines(self@).drop_first() =~= seq![line2@] + spec_lines_state(it@));
            assert(spec_lines(self@)[1] == line2@);
        }
        let m = line2.len();
        match find_index_of_element_const(line2.as_slice(), 32u8) {
            Some(i) => {
                proof {
                    lemma_find_byte_spec(line2@, 32u8);
                    assert(i < m);
                }
                let text = subrange_vec(line2.as_slice(), i + 1, m);
                Some(Version { bytes: text })
            },
            None => None,
        }
    }
}

impl Version {
    /// The version's numeric value: the text with a trailing newline
    /// trimmed, read as an unsigned decimal number.
    pub fn parse(&self) -> (r: Result<u32, FormatError>)
        ensures
            match r {
                Ok(v) => spec_parse_u32(spec_trim_newline(self@)) == Some(v),
                Err(e) => spec_parse_u32(spec_trim_newline(self@)) is None && e
                    == FormatError::InvalidVersion,
            },
    {
        let n = self.bytes.len();
        let trimmed: &[u8] = if n > 0 && self.bytes[n - 1] == 10u8 {
            vstd::slice::slice_subrange(self.bytes.as_slice(), 0, n - 1)
        } else {
            self.bytes.as_slice()
        };
        proof {
            assert(trimmed@ =~= spec_trim_newline(self@));
        }
        parse_u32_digits(trimmed)
    }
}

} // verus!
