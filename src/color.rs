//! Colours written as `#RRGGBB` or `transparent`.

use vstd::prelude::*;
use vstd::string::StringSliceAdditionalSpecFns;
use vstd::utf8::encode_utf8;

verus! {

/// An RGBA colour.
#[derive(Clone, Copy, Debug, PartialEq, Eq, Structural)]
pub struct Color {
    pub r: u8,
    pub g: u8,
    pub b: u8,
    pub a: u8,
}

/// Why a colour text was refused.
#[derive(Clone, Copy, Debug, PartialEq, Eq, Structural)]
pub enum ColorError {
    /// Neither six hex digits nor `transparent`.
    Format,
    InvalidRed,
    InvalidGreen,
    InvalidBlue,
}

/// A character with the Unicode `White_Space` property.
pub open spec fn is_white_space(c: char) -> bool {
    ||| '\u{9}' <= c <= '\u{d}'
    ||| c == ' '
    ||| c == '\u{85}'
    ||| c == '\u{a0}'
    ||| c == '\u{1680}'
    ||| '\u{2000}' <= c <= '\u{200a}'
    ||| c == '\u{2028}'
    ||| c == '\u{2029}'
    ||| c == '\u{202f}'
    ||| c == '\u{205f}'
    ||| c == '\u{3000}'
}

/// The text without its leading whitespace.
pub open spec fn trim_start(s: Seq<char>) -> Seq<char>
    decreases s.len(),
{
    if s.len() > 0 && is_white_space(s[0]) {
        trim_start(s.drop_first())
    } else {
        s
    }
}

/// The text without its trailing whitespace.
pub open spec fn trim_end(s: Seq<char>) -> Seq<char>
    decreases s.len(),
{
    if s.len() > 0 && is_white_space(s.last()) {
        trim_end(s.drop_last())
    } else {
        s
    }
}

/// The text with its leading and trailing whitespace removed.
pub open spec fn whitespace_trimmed(s: Seq<char>) -> Seq<char> {
    trim_end(trim_start(s))
}

/// Relies on `str::trim`: the text without the leading and trailing
/// characters that have the Unicode `White_Space` property.
#[verifier::external_body]
fn trim_text(s: &str) -> (r: &str)
    ensures
        r@ == whitespace_trimmed(s@),
{
    s.trim()
}

/// The bytes with every leading `#` removed.
pub open spec fn strip_hashes(b: Seq<u8>) -> Seq<u8>
    decreases b.len(),
{
    if b.len() > 0 && b[0] == 35 {
        strip_hashes(b.drop_first())
    } else {
        b
    }
}

pub open spec fn ascii_lower(c: u8) -> u8 {
    if 65 <= c <= 90 {
        (c + 32) as u8
    } else {
        c
    }
}

/// The bytes spell `transparent`, in any mix of upper and lower case.
pub open spec fn is_transparent(b: Seq<u8>) -> bool {
    b.len() == 11 && forall|i: int| 0 <= i < 11 ==> ascii_lower(#[trigger] b[i]) == seq![116u8, 114, 97, 110, 115, 112, 97, 114, 101, 110, 116][i]
}

/// The value of a hexadecimal digit.
pub open spec fn hex_value(c: u8) -> Option<u8> {
    if 48 <= c <= 57 {
        Some((c - 48) as u8)
    } else if 97 <= c <= 102 {
        Some((c - 87) as u8)
    } else if 65 <= c <= 70 {
        Some((c - 55) as u8)
    } else {
        None
    }
}

/// Two bytes read as a base-16 number: two digits, or a `+` and one digit.
pub open spec fn component(c0: u8, c1: u8) -> Option<u8> {
    if c0 == 43 {
        hex_value(c1)
    } else {
        match (hex_value(c0), hex_value(c1)) {
            (Some(h), Some(l)) => Some((h * 16 + l) as u8),
            _ => None,
        }
    }
}

/// The colour a trimmed colour text denotes, or why it denotes none.
pub open spec fn color_from_bytes(text: Seq<u8>) -> Result<Color, ColorError> {
    let b = strip_hashes(text);
    if is_transparent(b) {
        Ok(Color { r: 0, g: 0, b: 0, a: 0 })
    } else if b.len() != 6 {
        Err(ColorError::Format)
    } else if component(b[0], b[1]) is None {
        Err(ColorError::InvalidRed)
    } else if component(b[2], b[3]) is None {
        Err(ColorError::InvalidGreen)
    } else if component(b[4], b[5]) is None {
        Err(ColorError::InvalidBlue)
    } else {
        Ok(
            Color {
                r: component(b[0], b[1])->0,
                g: component(b[2], b[3])->0,
                b: component(b[4], b[5])->0,
                a: 255,
            },
        )
    }
}

fn hex_digit(c: u8) -> (r: Option<u8>)
    ensures
        r == hex_value(c),
{
    if 48 <= c && c <= 57 {
        Some(c - 48)
    } else if 97 <= c && c <= 102 {
        Some(c - 87)
    } else if 65 <= c && c <= 70 {
        Some(c - 55)
    } else {
        None
    }
}

fn parse_component(c0: u8, c1: u8) -> (r: Option<u8>)
    ensures
        r == component(c0, c1),
{
    if c0 == 43 {
        return hex_digit(c1);
    }
    match (hex_digit(c0), hex_digit(c1)) {
        (Some(h), Some(l)) => Some(h * 16 + l),
        _ => None,
    }
}

proof fn lemma_strip_hashes_suffix(b: Seq<u8>, i: int)
    requires
        0 <= i <= b.len(),
        forall|j: int| 0 <= j < i ==> b[j] == 35,
    ensures
        strip_hashes(b) == strip_hashes(b.subrange(i, b.len() as int)),
    decreases i,
{
    if i > 0 {
        assert(b.drop_first() =~= b.subrange(1, b.len() as int));
        lemma_strip_hashes_suffix(b.drop_first(), i - 1);
        assert(b.drop_first().subrange(i - 1, b.drop_first().len() as int) =~= b.subrange(i, b.len() as int));
    } else {
        assert(b.subrange(0, b.len() as int) =~= b);
    }
}

/// The colour of an already trimmed colour text: leading `#`s are ignored;
/// `transparent` in any case is clear; otherwise six hex digits, two per
/// channel, with full opacity.
pub fn parse_color_text(text: &str) -> (r: Result<Color, ColorError>)
    ensures
        r == color_from_bytes(text.spec_bytes()),
{
    let bytes = text.as_bytes();
    let ghost all = bytes@;
    let mut start: usize = 0;
    while start < bytes.len() && bytes[start] == 35
        invariant
            bytes@ == all,
            start <= all.len(),
            forall|j: int| 0 <= j < start ==> all[j] == 35,
        decreases all.len() - start,
    {
        start += 1;
    }
    proof {
        lemma_strip_hashes_suffix(all, start as int);
        let rest = all.subrange(start as int, all.len() as int);
        if rest.len() > 0 {
            assert(rest[0] != 35);
        }
        assert(strip_hashes(rest) == rest);
    }
    let ghost b = all.subrange(start as int, all.len() as int);
    let n = bytes.len() - start;
    let word: [u8; 11] = [116, 114, 97, 110, 115, 112, 97, 114, 101, 110, 116];
    if n == 11 {
        let mut i: usize = 0;
        let mut same = true;
        assert(start + 11 <= usize::MAX);
        while i < 11
            invariant
                bytes@ == all,
                n == 11,
                start + 11 <= usize::MAX,
                start + 11 == all.len(),
                b == all.subrange(start as int, all.len() as int),
                word@ == seq![116u8, 114, 97, 110, 115, 112, 97, 114, 101, 110, 116],
                i <= 11,
                same == forall|j: int| 0 <= j < i ==> ascii_lower(#[trigger] b[j]) == word@[j],
            decreases 11 - i,
        {
            let c = bytes[start + i];
            let lower = if 65 <= c && c <= 90 { c + 32 } else { c };
            assert(c == b[i as int]);
            if lower != word[i] {
                same = false;
            }
            i += 1;
        }
        if same {
            return Ok(Color { r: 0, g: 0, b: 0, a: 0 });
        }
    }
    if n != 6 {
        return Err(ColorError::Format);
    }
    assert(bytes@[start as int] == b[0] && bytes@[start + 1] == b[1] && bytes@[start + 2] == b[2]);
    assert(bytes@[start + 3] == b[3] && bytes@[start + 4] == b[4] && bytes@[start + 5] == b[5]);
    let red = match parse_component(bytes[start], bytes[start + 1]) {
        Some(v) => v,
        None => {
            return Err(ColorError::InvalidRed);
        },
    };
    let green = match parse_component(bytes[start + 2], bytes[start + 3]) {
        Some(v) => v,
        None => {
            return Err(ColorError::InvalidGreen);
        },
    };
    let blue = match parse_component(bytes[start + 4], bytes[start + 5]) {
        Some(v) => v,
        None => {
            return Err(ColorError::InvalidBlue);
        },
    };
    Ok(Color { r: red, g: green, b: blue, a: 255 })
}

/// The colour a colour text denotes: the text is trimmed of whitespace,
/// then read as `parse_color_text` reads it.
pub fn parse_hex_color(hex: &str) -> (r: Result<Color, ColorError>)
    ensures
        r == color_from_bytes(encode_utf8(whitespace_trimmed(hex@))),
{
    let trimmed = trim_text(hex);
    parse_color_text(trimmed)
}

/// The colour with red, green and blue each lowered by `amount`, stopping at
/// zero; alpha kept.
pub fn darken_color(color: Color, amount: u8) -> (r: Color)
    ensures
        r.r == (if color.r >= amount { color.r - amount } else { 0 }),
        r.g == (if color.g >= amount { color.g - amount } else { 0 }),
        r.b == (if color.b >= amount { color.b - amount } else { 0 }),
        r.a == color.a,
{
    Color {
        r: if color.r >= amount { color.r - amount } else { 0 },
        g: if color.g >= amount { color.g - amount } else { 0 },
        b: if color.b >= amount { color.b - amount } else { 0 },
        a: color.a,
    }
}

} // verus!
