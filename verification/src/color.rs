//! RGB color triples and the six-hex-digit color notation used by
//! physical-layout descriptions.

use vstd::prelude::*;

verus! {

/// An RGB color; each channel ranges over 0..=255.
#[derive(Clone, Copy, PartialEq, Eq, Structural, Debug)]
pub struct Rgb {
    pub r: u8,
    pub g: u8,
    pub b: u8,
}

/// Value of one hex digit, or -1 when `c` is no hex digit.
/// Both cases of the letters are accepted, as in the layout files.
pub open spec fn hex_digit_value(c: char) -> int {
    let n = c as u32;
    if 48 <= n && n <= 57 {
        n - 48
    } else if 97 <= n && n <= 102 {
        n - 97 + 10
    } else if 65 <= n && n <= 70 {
        n - 65 + 10
    } else {
        -1
    }
}

pub open spec fn is_hex_digit(c: char) -> bool {
    hex_digit_value(c) >= 0
}

/// A color string: exactly six hex digits (the caller strips the `#`).
pub open spec fn valid_hex6(s: Seq<char>) -> bool {
    &&& s.len() == 6
    &&& forall|i: int| 0 <= i < 6 ==> is_hex_digit(#[trigger] s[i])
}

/// The color a valid six-digit string denotes.
pub open spec fn rgb_of_hex6(s: Seq<char>) -> Rgb
    recommends
        valid_hex6(s),
{
    Rgb {
        r: (16 * hex_digit_value(s[0]) + hex_digit_value(s[1])) as u8,
        g: (16 * hex_digit_value(s[2]) + hex_digit_value(s[3])) as u8,
        b: (16 * hex_digit_value(s[4]) + hex_digit_value(s[5])) as u8,
    }
}

/// Lowercase hex digit for a value 0..=15.
pub open spec fn hex_digit_char(d: int) -> char
    recommends
        0 <= d < 16,
{
    if d < 10 {
        (48 + d) as char
    } else {
        (87 + d) as char
    }
}

/// The lowercase six-hex-digit encoding of a color.
pub open spec fn hex6_of_rgb(c: Rgb) -> Seq<char> {
    seq![
        hex_digit_char(c.r as int / 16),
        hex_digit_char(c.r as int % 16),
        hex_digit_char(c.g as int / 16),
        hex_digit_char(c.g as int % 16),
        hex_digit_char(c.b as int / 16),
        hex_digit_char(c.b as int % 16),
    ]
}

fn hex_digit(c: char) -> (r: Option<u8>)
    ensures
        r is Some <==> is_hex_digit(c),
        r is Some ==> r->0 == hex_digit_value(c),
{
    let n = c as u32;
    if 48 <= n && n <= 57 {
        Some((n - 48) as u8)
    } else if 97 <= n && n <= 102 {
        Some((n - 97 + 10) as u8)
    } else if 65 <= n && n <= 70 {
        Some((n - 65 + 10) as u8)
    } else {
        None
    }
}

impl Rgb {
    pub fn new(r: u8, g: u8, b: u8) -> (c: Rgb)
        ensures
            c == (Rgb { r, g, b }),
    {
        Rgb { r, g, b }
    }

    /// Parse a six-hex-digit color string (no leading `#`).
    /// Returns `Some` exactly on valid strings, and then the denoted color.
    pub fn parse(s: &str) -> (r: Option<Rgb>)
        ensures
            r is Some <==> valid_hex6(s@),
            r is Some ==> r->0 == rgb_of_hex6(s@),
    {
        if s.unicode_len() != 6 {
            return None;
        }
        let d0 = hex_digit(s.get_char(0));
        let d1 = hex_digit(s.get_char(1));
        let d2 = hex_digit(s.get_char(2));
        let d3 = hex_digit(s.get_char(3));
        let d4 = hex_digit(s.get_char(4));
        let d5 = hex_digit(s.get_char(5));
        match (d0, d1, d2, d3, d4, d5) {
            (Some(h0), Some(l0), Some(h1), Some(l1), Some(h2), Some(l2)) => Some(Rgb {
                r: 16 * h0 + l0,
                g: 16 * h1 + l1,
                b: 16 * h2 + l2,
            }),
            _ => None,
        }
    }
}

/// Hex round trip: parsing the lowercase six-hex encoding of any color
/// yields exactly that color.
pub proof fn lemma_hex_round_trip(c: Rgb)
    ensures
        valid_hex6(hex6_of_rgb(c)),
        rgb_of_hex6(hex6_of_rgb(c)) == c,
{
    lemma_hex_digit_char_round_trip(c.r as int / 16);
    lemma_hex_digit_char_round_trip(c.r as int % 16);
    lemma_hex_digit_char_round_trip(c.g as int / 16);
    lemma_hex_digit_char_round_trip(c.g as int % 16);
    lemma_hex_digit_char_round_trip(c.b as int / 16);
    lemma_hex_digit_char_round_trip(c.b as int % 16);
}

proof fn lemma_hex_digit_char_round_trip(d: int)
    requires
        0 <= d < 16,
    ensures
        is_hex_digit(hex_digit_char(d)),
        hex_digit_value(hex_digit_char(d)) == d,
{
}

} // verus!
