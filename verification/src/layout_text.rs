//! Text form of the physical-layout description: a bracketed list whose
//! elements are a metadata object or a row, a row being a list of key
//! names and cursor-mutation objects. The decoder here turns the text
//! into entries; the cursor machine of `physical_layout` gives them
//! their meaning.
//!
//! The text must be ASCII. Strings carry no escape sequences, numbers no
//! exponent, and at most three fractional digits (coordinates are held
//! in milli key-units); an unknown object member may hold a number or a
//! string and is ignored.

use vstd::prelude::*;
use vstd::string::StringSliceAdditionalSpecFns;

use crate::color::Rgb;
use crate::physical_layout::{
    keys_in_order, CursorMutation, EntryView, LayoutEntry, MutationView, ParseError,
    PhysicalLayout, PhysicalLayoutMeta, RowItem, RowItemView,
};

verus! {

broadcast use vstd::string::group_string_axioms, vstd::slice::group_slice_axioms;

proof fn ascii_facts(s: &str)
    requires
        s.is_ascii(),
    ensures
        s.spec_bytes().len() == s@.len(),
{
    vstd::string::is_ascii_spec_bytes(s);
}

/// Length of an ASCII string, as a count of characters.
pub(crate) fn str_len(s: &str) -> (n: usize)
    requires
        s.is_ascii(),
    ensures
        n == s@.len(),
{
    proof {
        ascii_facts(s);
    }
    let bs = s.as_bytes();
    bs.len()
}

/// Where a whitespace run starting at `i` ends.
pub open spec fn spec_skip_ws(s: Seq<char>, i: int) -> int
    decreases s.len() - i when 0 <= i <= s.len()
{
    if i < s.len() && is_ws_char(s[i]) {
        spec_skip_ws(s, i + 1)
    } else {
        i
    }
}

/// Where a digit run starting at `i` ends.
pub open spec fn spec_digits_end(s: Seq<char>, i: int) -> int
    decreases s.len() - i when 0 <= i <= s.len()
{
    if i < s.len() && is_digit_char(s[i]) {
        spec_digits_end(s, i + 1)
    } else {
        i
    }
}

/// Position after the quote that closes a string body starting at `j`,
/// when the body holds no quote, backslash or control byte before it.
pub open spec fn spec_string_body_end(s: Seq<char>, j: int) -> Option<int>
    decreases s.len() - j when 0 <= j <= s.len()
{
    if j >= s.len() {
        None
    } else if s[j] as u8 == 34 {
        Some(j + 1)
    } else if s[j] as u8 == 92 || (s[j] as u8) < 32 {
        None
    } else {
        spec_string_body_end(s, j + 1)
    }
}

/// A string token at `i`: its contents and the position after it.
pub open spec fn spec_string_token(s: Seq<char>, i: int) -> Option<(Seq<char>, int)> {
    if 0 <= i < s.len() && s[i] as u8 == 34 {
        match spec_string_body_end(s, i + 1) {
            Some(e) => Some((s.subrange(i + 1, e - 1), e)),
            None => None,
        }
    } else {
        None
    }
}

proof fn lemma_spec_skip_ws_range(s: Seq<char>, i: int, j: int)
    requires
        0 <= i <= j <= s.len(),
        forall|k: int| i <= k < j ==> is_ws_char(#[trigger] s[k]),
        j == s.len() || !is_ws_char(s[j]),
    ensures
        spec_skip_ws(s, i) == j,
    decreases j - i,
{
    if i < j {
        lemma_spec_skip_ws_range(s, i + 1, j);
    }
}

pub(crate) proof fn lemma_spec_digits_end_range(s: Seq<char>, i: int, j: int)
    requires
        0 <= i <= j <= s.len(),
        forall|k: int| i <= k < j ==> is_digit_char(#[trigger] s[k]),
        j == s.len() || !is_digit_char(s[j]),
    ensures
        spec_digits_end(s, i) == j,
    decreases j - i,
{
    if i < j {
        lemma_spec_digits_end_range(s, i + 1, j);
    }
}

pub(crate) proof fn lemma_digits_end_props(s: Seq<char>, i: int)
    requires
        0 <= i <= s.len(),
    ensures
        i <= spec_digits_end(s, i) <= s.len(),
        forall|k: int| i <= k < spec_digits_end(s, i) ==> is_digit_char(#[trigger] s[k]),
        spec_digits_end(s, i) == s.len() || !is_digit_char(s[spec_digits_end(s, i)]),
    decreases s.len() - i,
{
    if i < s.len() && is_digit_char(s[i]) {
        lemma_digits_end_props(s, i + 1);
    }
}

pub(crate) proof fn lemma_digits_end_at_least(s: Seq<char>, i: int, j: int)
    requires
        0 <= i <= j <= s.len(),
        forall|k: int| i <= k < j ==> is_digit_char(#[trigger] s[k]),
    ensures
        spec_digits_end(s, i) >= j,
    decreases j - i,
{
    if i < j {
        assert(is_digit_char(s[i]));
        assert(spec_digits_end(s, i) == spec_digits_end(s, i + 1));
        lemma_digits_end_at_least(s, i + 1, j);
    } else {
        lemma_digits_end_props(s, i);
    }
}

pub(crate) proof fn lemma_dec_value_mono(s: Seq<char>, i: int, j: int, end: int)
    requires
        0 <= i <= j <= end <= s.len(),
        forall|k: int| i <= k < end ==> is_digit_char(#[trigger] s[k]),
    ensures
        0 <= dec_value(s.subrange(i, j)) <= dec_value(s.subrange(i, end)),
    decreases end - j,
{
    if j == end {
        lemma_dec_value_nonneg(s, i, j);
    } else {
        lemma_dec_value_mono(s, i, j, end - 1);
        assert(s.subrange(i, end).drop_last() =~= s.subrange(i, end - 1));
        assert(s.subrange(i, end).last() == s[end - 1]);
    }
}

pub(crate) proof fn lemma_dec_value_nonneg(s: Seq<char>, i: int, j: int)
    requires
        0 <= i <= j <= s.len(),
        forall|k: int| i <= k < j ==> is_digit_char(#[trigger] s[k]),
    ensures
        dec_value(s.subrange(i, j)) >= 0,
    decreases j - i,
{
    if i < j {
        lemma_dec_value_nonneg(s, i, j - 1);
        assert(s.subrange(i, j).drop_last() =~= s.subrange(i, j - 1));
        assert(s.subrange(i, j).last() == s[j - 1]);
    }
}

proof fn lemma_spec_string_scan(s: Seq<char>, start: int, j: int)
    requires
        0 <= start <= j <= s.len(),
        forall|k: int|
            start <= k < j ==> (#[trigger] s[k]) as u8 != 34 && s[k] as u8 != 92 && (s[k] as u8)
                >= 32,
    ensures
        spec_string_body_end(s, start) == spec_string_body_end(s, j),
    decreases j - start,
{
    if start < j {
        lemma_spec_string_scan(s, start + 1, j);
    }
}

/// The errors the grammar stage can produce.
pub open spec fn lex_error(e: ParseError) -> bool {
    e == ParseError::Syntax || e == ParseError::BadColor || e == ParseError::NumberRange
}

/// Whitespace between tokens.
pub open spec fn is_ws_char(c: char) -> bool {
    c as u8 == 32 || c as u8 == 9 || c as u8 == 10 || c as u8 == 13
}

pub open spec fn is_digit_char(c: char) -> bool {
    48 <= c as u8 <= 57
}

pub open spec fn digit_val(c: char) -> int {
    c as u8 - 48
}

/// Value of a big-endian digit string.
pub open spec fn dec_value(s: Seq<char>) -> int
    decreases s.len(),
{
    if s.len() == 0 {
        0
    } else {
        dec_value(s.drop_last()) * 10 + digit_val(s.last())
    }
}

#[verifier::loop_isolation(false)]
pub(crate) fn skip_ws(s: &str, i: usize) -> (j: usize)
    requires
        s.is_ascii(),
        i <= s@.len(),
    ensures
        i <= j <= s@.len(),
        forall|k: int| i <= k < j ==> is_ws_char(#[trigger] s@[k]),
        j < s@.len() ==> !is_ws_char(s@[j as int]),
        j == spec_skip_ws(s@, i as int),
{
    let n = str_len(s);
    let mut j = i;
    while j < n
        invariant
            i <= j <= s@.len(),
            forall|k: int| i <= k < j ==> is_ws_char(#[trigger] s@[k]),
        decreases s@.len() - j,
    {
        let b = s.get_ascii(j);
        if b == 32 || b == 9 || b == 10 || b == 13 {
            j = j + 1;
        } else {
            proof {
                lemma_spec_skip_ws_range(s@, i as int, j as int);
            }
            return j;
        }
    }
    proof {
        lemma_spec_skip_ws_range(s@, i as int, j as int);
    }
    j
}

proof fn lemma_dec_value_small(s: Seq<char>)
    requires
        forall|k: int| 0 <= k < s.len() ==> is_digit_char(#[trigger] s[k]),
        s.len() <= 3,
    ensures
        0 <= dec_value(s),
        s.len() <= 1 ==> dec_value(s) < 10,
        s.len() <= 2 ==> dec_value(s) < 100,
        s.len() <= 3 ==> dec_value(s) < 1000,
    decreases s.len(),
{
    if s.len() > 0 {
        lemma_dec_value_small(s.drop_last());
    }
}

/// Reads a string token: a quote, contents without quotes, backslashes
/// or control bytes, and a closing quote.
#[verifier::loop_isolation(false)]
pub(crate) fn parse_string_token(s: &str, i: usize) -> (r: Result<(String, usize), ParseError>)
    requires
        s.is_ascii(),
        i < s@.len(),
    ensures
        r is Ok <==> spec_string_token(s@, i as int) is Some,
        r is Ok ==> ({
            let (name, j) = r->Ok_0;
            &&& i + 2 <= j <= s@.len()
            &&& Some((name@, j as int)) == spec_string_token(s@, i as int)
            &&& name@ == s@.subrange(i + 1, j - 1)
            &&& name.is_ascii()
        }),
        r is Err ==> lex_error(r->Err_0),
{
    let n = str_len(s);
    if s.get_ascii(i) != 34 {
        return Err(ParseError::Syntax);
    }
    let mut j = i + 1;
    while j < n
        invariant
            i + 1 <= j <= s@.len(),
            forall|k: int|
                i + 1 <= k < j ==> (#[trigger] s@[k]) as u8 != 34 && s@[k] as u8 != 92 && (
                s@[k] as u8) >= 32,
        decreases s@.len() - j,
    {
        let b = s.get_ascii(j);
        if b == 34 {
            proof {
                lemma_spec_string_scan(s@, i + 1, j as int);
                assert(spec_string_body_end(s@, j as int) == Some(j + 1));
            }
            let name = s.substring_ascii(i + 1, j).to_owned();
            return Ok((name, j + 1));
        }
        if b == 92 || b < 32 {
            proof {
                lemma_spec_string_scan(s@, i + 1, j as int);
            }
            return Err(ParseError::Syntax);
        }
        j = j + 1;
    }
    proof {
        lemma_spec_string_scan(s@, i + 1, j as int);
    }
    Err(ParseError::Syntax)
}

/// Reads a nonempty run of digits whose value stays within `max`.
#[verifier::loop_isolation(false)]
pub(crate) fn parse_uint(s: &str, i: usize, max: i64) -> (r: Result<(i64, usize), ParseError>)
    requires
        s.is_ascii(),
        i <= s@.len(),
        0 < max <= 1_000_000_000,
    ensures
        r is Ok <==> (spec_digits_end(s@, i as int) > i && dec_value(
            s@.subrange(i as int, spec_digits_end(s@, i as int)),
        ) <= max),
        r is Ok ==> ({
            let (v, j) = r->Ok_0;
            &&& i < j <= s@.len()
            &&& j == spec_digits_end(s@, i as int)
            &&& forall|k: int| i <= k < j ==> is_digit_char(#[trigger] s@[k])
            &&& (j < s@.len() ==> !is_digit_char(s@[j as int]))
            &&& 0 <= v <= max
            &&& v as int == dec_value(s@.subrange(i as int, j as int))
        }),
        r is Err ==> lex_error(r->Err_0),
{
    let ghost end = spec_digits_end(s@, i as int);
    proof {
        lemma_digits_end_props(s@, i as int);
    }
    let n = str_len(s);
    let mut v: i64 = 0;
    let mut j = i;
    while j < n
        invariant
            i <= j <= s@.len(),
            forall|k: int| i <= k < j ==> is_digit_char(#[trigger] s@[k]),
            0 <= v <= max,
            v as int == dec_value(s@.subrange(i as int, j as int)),
        decreases s@.len() - j,
    {
        let b = s.get_ascii(j);
        if b < 48 || b > 57 {
            break;
        }
        proof {
            lemma_digits_end_at_least(s@, i as int, j + 1);
            assert(s@.subrange(i as int, j + 1).drop_last() =~= s@.subrange(i as int, j as int));
            assert(s@.subrange(i as int, j + 1).last() == s@[j as int]);
        }
        if v > max / 10 {
            proof {
                lemma_dec_value_mono(s@, i as int, j + 1, end);
                assert(dec_value(s@.subrange(i as int, j + 1)) > max);
            }
            return Err(ParseError::NumberRange);
        }
        v = v * 10 + ((b - 48) as i64);
        if v > max {
            proof {
                lemma_dec_value_mono(s@, i as int, j + 1, end);
            }
            return Err(ParseError::NumberRange);
        }
        j = j + 1;
    }
    proof {
        lemma_spec_digits_end_range(s@, i as int, j as int);
    }
    if j == i {
        return Err(ParseError::Syntax);
    }
    Ok((v, j))
}

/// A signed decimal number at `i`, in milli key-units: its value and
/// the position after it. An optional `-`, an integer part of value at
/// most 999999, and one to three fractional digits.
pub open spec fn spec_number_millis(s: Seq<char>, i: int) -> Option<(int, int)> {
    if !(0 <= i < s.len()) {
        None
    } else {
        let neg = s[i] as u8 == 45;
        let st = if neg {
            i + 1
        } else {
            i
        };
        let d1 = spec_digits_end(s, st);
        if d1 == st || dec_value(s.subrange(st, d1)) > 999_999 {
            None
        } else {
            let ip = dec_value(s.subrange(st, d1));
            if d1 < s.len() && s[d1] as u8 == 46 {
                let d2 = spec_digits_end(s, d1 + 1);
                if d2 == d1 + 1 || dec_value(s.subrange(d1 + 1, d2)) > 999 || d2 - (d1 + 1) > 3 {
                    None
                } else {
                    let fp = dec_value(s.subrange(d1 + 1, d2));
                    let scaled = if d2 - (d1 + 1) == 1 {
                        fp * 100
                    } else if d2 - (d1 + 1) == 2 {
                        fp * 10
                    } else {
                        fp
                    };
                    Some(
                        (
                            if neg {
                                -(ip * 1000 + scaled)
                            } else {
                                ip * 1000 + scaled
                            },
                            d2,
                        ),
                    )
                }
            } else {
                Some(
                    (
                        if neg {
                            -(ip * 1000)
                        } else {
                            ip * 1000
                        },
                        d1,
                    ),
                )
            }
        }
    }
}

/// Reads a signed decimal number into milli key-units: an optional `-`,
/// an integer part, and at most three fractional digits.
#[verifier::loop_isolation(false)]
fn parse_number_millis(s: &str, i: usize) -> (r: Result<(i64, usize), ParseError>)
    requires
        s.is_ascii(),
        i <= s@.len(),
    ensures
        r is Ok <==> spec_number_millis(s@, i as int) is Some,
        r is Ok ==> Some((r->Ok_0.0 as int, r->Ok_0.1 as int)) == spec_number_millis(
            s@,
            i as int,
        ),
        r is Ok ==> ({
            let (v, j) = r->Ok_0;
            &&& i < j <= s@.len()
            &&& -1_000_000_000 <= v <= 1_000_000_000
        }),
        r is Err ==> lex_error(r->Err_0),
{
    let n = str_len(s);
    if i >= n {
        return Err(ParseError::Syntax);
    }
    let neg = s.get_ascii(i) == 45;
    let start = if neg {
        i + 1
    } else {
        i
    };
    let (ip, j) = match parse_uint(s, start, 999_999) {
        Ok(p) => p,
        Err(e) => {
            proof {
                let st = start as int;
                lemma_digits_end_props(s@, st);
                assert(spec_digits_end(s@, st) == st || dec_value(
                    s@.subrange(st, spec_digits_end(s@, st)),
                ) > 999_999);
                assert(spec_number_millis(s@, i as int) is None);
            }
            return Err(e);
        },
    };
    let mut millis: i64 = ip * 1000;
    let mut j2 = j;
    if j < n && s.get_ascii(j) == 46 {
        let (fp, jf) = match parse_uint(s, j + 1, 999) {
            Ok(p) => p,
            Err(e) => {
                proof {
                    let d1 = j as int;
                    lemma_digits_end_props(s@, d1 + 1);
                    assert(d1 == spec_digits_end(s@, start as int));
                    assert(d1 < s@.len() && s@[d1] as u8 == 46);
                    assert(spec_digits_end(s@, d1 + 1) == d1 + 1 || dec_value(
                        s@.subrange(d1 + 1, spec_digits_end(s@, d1 + 1)),
                    ) > 999);
                    assert(spec_number_millis(s@, i as int) is None);
                }
                return Err(e);
            },
        };
        let digits = jf - (j + 1);
        if digits > 3 {
            return Err(ParseError::NumberRange);
        }
        proof {
            lemma_dec_value_small(s@.subrange(j + 1, jf as int));
        }
        let scaled = if digits == 1 {
            fp * 100
        } else if digits == 2 {
            fp * 10
        } else {
            fp
        };
        millis = millis + scaled;
        j2 = jf;
    }
    if neg {
        millis = -millis;
    }
    Ok((millis, j2))
}

/// A color member's string value at `i`: a quoted `#` plus six hex
/// digits, denoting a color, and the position after the token.
pub open spec fn spec_color_value(s: Seq<char>, i: int) -> Option<(Rgb, int)> {
    match spec_string_token(s, i) {
        Some((cs, e)) => if cs.len() >= 1 && cs[0] as u8 == 35 && crate::color::valid_hex6(
            cs.subrange(1, cs.len() as int),
        ) {
            Some((crate::color::rgb_of_hex6(cs.subrange(1, cs.len() as int)), e))
        } else {
            None
        },
        None => None,
    }
}

/// Reads the string value of a color member: `#` and six hex digits.
#[verifier::loop_isolation(false)]
fn parse_color_value(s: &str, i: usize) -> (r: Result<(Rgb, usize), ParseError>)
    requires
        s.is_ascii(),
        i < s@.len(),
    ensures
        r is Ok <==> spec_color_value(s@, i as int) is Some,
        r is Ok ==> Some((r->Ok_0.0, r->Ok_0.1 as int)) == spec_color_value(s@, i as int),
        r is Ok ==> i < r->Ok_0.1 <= s@.len(),
        r is Err ==> lex_error(r->Err_0),
{
    let (cs, j) = match parse_string_token(s, i) {
        Ok(p) => p,
        Err(e) => {
            return Err(e);
        },
    };
    let cstr = cs.as_str();
    let cn = str_len(cstr);
    if cn < 1 || cstr.get_ascii(0) != 35 {
        return Err(ParseError::BadColor);
    }
    let hex = cstr.substring_ascii(1, cn);
    match Rgb::parse(hex) {
        Some(color) => Ok((color, j)),
        None => Err(ParseError::BadColor),
    }
}

/// Where an ignored member value (a number or a string) at `i` ends.
pub open spec fn spec_skip_scalar(s: Seq<char>, i: int) -> Option<int> {
    if !(0 <= i < s.len()) {
        None
    } else if s[i] as u8 == 34 {
        match spec_string_token(s, i) {
            Some((_, e)) => Some(e),
            None => None,
        }
    } else {
        match spec_number_millis(s, i) {
            Some((_, e)) => Some(e),
            None => None,
        }
    }
}

/// Skips an ignored member value: a number or a string.
#[verifier::loop_isolation(false)]
pub(crate) fn skip_scalar_value(s: &str, i: usize) -> (r: Result<usize, ParseError>)
    requires
        s.is_ascii(),
        i <= s@.len(),
    ensures
        r is Ok <==> spec_skip_scalar(s@, i as int) is Some,
        r is Ok ==> Some(r->Ok_0 as int) == spec_skip_scalar(s@, i as int),
        r is Ok ==> i < r->Ok_0 <= s@.len(),
        r is Err ==> lex_error(r->Err_0),
{
    let n = str_len(s);
    if i >= n {
        return Err(ParseError::Syntax);
    }
    if s.get_ascii(i) == 34 {
        match parse_string_token(s, i) {
            Ok((_, j)) => Ok(j),
            Err(e) => Err(e),
        }
    } else {
        match parse_number_millis(s, i) {
            Ok((_, j)) => Ok(j),
            Err(e) => Err(e),
        }
    }
}

/// Clamps a position into a range; the grammar functions use it so
/// that recursion visibly advances, and it is the identity on every
/// position a parse actually produces.
pub open spec fn bounded(j: int, lo: int, hi: int) -> int {
    if j < lo {
        lo
    } else if j > hi {
        hi
    } else {
        j
    }
}

/// The cursor mutation an object starts from: no moves, nothing set.
pub open spec fn empty_mutation() -> MutationView {
    MutationView { dx: 0, dy: 0, w: None, h: None, color: None }
}

/// One member's effect on a mutation: `x`, `y`, `w`, `h` take a number,
/// `c` takes a color string, anything else is skipped unchanged.
pub open spec fn spec_mutation_value(s: Seq<char>, jv: int, key: Seq<char>, m: MutationView) -> Option<
    (MutationView, int),
> {
    if key.len() == 1 && key[0] as u8 == 120 {
        match spec_number_millis(s, jv) {
            Some((v, e)) => Some(
                (MutationView { dx: v, dy: m.dy, w: m.w, h: m.h, color: m.color }, e),
            ),
            None => None,
        }
    } else if key.len() == 1 && key[0] as u8 == 121 {
        match spec_number_millis(s, jv) {
            Some((v, e)) => Some(
                (MutationView { dx: m.dx, dy: v, w: m.w, h: m.h, color: m.color }, e),
            ),
            None => None,
        }
    } else if key.len() == 1 && key[0] as u8 == 119 {
        match spec_number_millis(s, jv) {
            Some((v, e)) => Some(
                (MutationView { dx: m.dx, dy: m.dy, w: Some(v), h: m.h, color: m.color }, e),
            ),
            None => None,
        }
    } else if key.len() == 1 && key[0] as u8 == 104 {
        match spec_number_millis(s, jv) {
            Some((v, e)) => Some(
                (MutationView { dx: m.dx, dy: m.dy, w: m.w, h: Some(v), color: m.color }, e),
            ),
            None => None,
        }
    } else if key.len() == 1 && key[0] as u8 == 99 {
        match spec_color_value(s, jv) {
            Some((c, e)) => Some(
                (MutationView { dx: m.dx, dy: m.dy, w: m.w, h: m.h, color: Some(c) }, e),
            ),
            None => None,
        }
    } else {
        match spec_skip_scalar(s, jv) {
            Some(e) => Some((m, e)),
            None => None,
        }
    }
}

/// The members of a mutation object from position `i` (at a key) to the
/// closing brace: the accumulated mutation and the position after.
pub open spec fn spec_mutation_members(s: Seq<char>, i: int, m: MutationView) -> Option<
    (MutationView, int),
>
    decreases s.len() - i when 0 <= i <= s.len()
{
    if i >= s.len() {
        None
    } else {
        match spec_string_token(s, i) {
            None => None,
            Some((key, jk0)) => {
                let jk = bounded(jk0, 0, s.len() as int);
                let jc = bounded(spec_skip_ws(s, jk), 0, s.len() as int);
                if !(jc < s.len() && s[jc] as u8 == 58) {
                    None
                } else {
                    let jv = bounded(spec_skip_ws(s, bounded(jc + 1, 0, s.len() as int)), 0, s.len() as int);
                    match spec_mutation_value(s, jv, key, m) {
                        None => None,
                        Some((m2, jn0)) => {
                            let jn = bounded(jn0, 0, s.len() as int);
                            let ja = bounded(spec_skip_ws(s, jn), 0, s.len() as int);
                            if ja < s.len() && s[ja] as u8 == 44 {
                                let nx = bounded(
                                    spec_skip_ws(s, bounded(ja + 1, 0, s.len() as int)),
                                    i + 1,
                                    s.len() as int,
                                );
                                spec_mutation_members(s, nx, m2)
                            } else if ja < s.len() && s[ja] as u8 == 125 {
                                Some((m2, ja + 1))
                            } else {
                                None
                            }
                        },
                    }
                }
            },
        }
    }
}

/// A whole mutation object at `i`: `{`, members or nothing, `}`.
pub open spec fn spec_mutation_object(s: Seq<char>, i: int) -> Option<(MutationView, int)> {
    if !(0 <= i < s.len() && s[i] as u8 == 123) {
        None
    } else {
        let j0 = bounded(spec_skip_ws(s, bounded(i + 1, 0, s.len() as int)), 0, s.len() as int);
        if j0 < s.len() && s[j0] as u8 == 125 {
            Some((empty_mutation(), j0 + 1))
        } else {
            spec_mutation_members(s, j0, empty_mutation())
        }
    }
}

/// Reads a cursor-mutation object: members `x`, `y`, `w`, `h` (numbers)
/// and `c` (a color string); unknown members are ignored.
#[verifier::loop_isolation(false)]
#[verifier::rlimit(100)]
fn parse_mutation_object(s: &str, i: usize) -> (r: Result<(CursorMutation, usize), ParseError>)
    requires
        s.is_ascii(),
        i < s@.len(),
    ensures
        r is Ok <==> spec_mutation_object(s@, i as int) is Some,
        r is Ok ==> Some((r->Ok_0.0@, r->Ok_0.1 as int)) == spec_mutation_object(s@, i as int),
        r is Ok ==> ({
            let (m, j) = r->Ok_0;
            &&& i < j <= s@.len()
            &&& -1_000_000_000 <= m.dx <= 1_000_000_000
            &&& -1_000_000_000 <= m.dy <= 1_000_000_000
            &&& (m.w is Some ==> -1_000_000_000 <= m.w->0 <= 1_000_000_000)
            &&& (m.h is Some ==> -1_000_000_000 <= m.h->0 <= 1_000_000_000)
        }),
        r is Err ==> lex_error(r->Err_0),
{
    let n = str_len(s);
    if s.get_ascii(i) != 123 {
        return Err(ParseError::Syntax);
    }
    let mut m = CursorMutation { dx: 0, dy: 0, w: None, h: None, color: None };
    let mut j = skip_ws(s, i + 1);
    proof {
        assert(bounded(i as int + 1, 0, s@.len() as int) == i + 1);
        assert(bounded(spec_skip_ws(s@, i as int + 1), 0, s@.len() as int) == j as int);
        assert(m@ == empty_mutation());
    }
    if j < n && s.get_ascii(j) == 125 {
        proof {
            assert(spec_mutation_object(s@, i as int) == Some((empty_mutation(), j + 1)));
        }
        return Ok((m, j + 1));
    }
    let ghost j0 = j as int;
    let ghost m0 = m@;
    proof {
        assert(spec_mutation_object(s@, i as int) == spec_mutation_members(s@, j0, m0));
    }
    loop
        invariant
            s.is_ascii(),
            i < j <= s@.len(),
            -1_000_000_000 <= m.dx <= 1_000_000_000,
            -1_000_000_000 <= m.dy <= 1_000_000_000,
            m.w is Some ==> -1_000_000_000 <= m.w->0 <= 1_000_000_000,
            m.h is Some ==> -1_000_000_000 <= m.h->0 <= 1_000_000_000,
            spec_mutation_members(s@, j as int, m@) == spec_mutation_members(s@, j0, m0),
        decreases s@.len() - j,
    {
        let ghost jold = j as int;
        let ghost pre_m = m@;
        if j >= n {
            return Err(ParseError::Syntax);
        }
        let (key, jk) = match parse_string_token(s, j) {
            Ok(p) => p,
            Err(e) => {
                proof {
                    assert(spec_mutation_members(s@, jold, pre_m) is None);
                }
                return Err(e);
            },
        };
        proof {
            assert(Some((key@, jk as int)) == spec_string_token(s@, jold));
            assert(bounded(jk as int, 0, s@.len() as int) == jk as int);
        }
        let jc = skip_ws(s, jk);
        proof {
            assert(bounded(spec_skip_ws(s@, jk as int), 0, s@.len() as int) == jc as int);
        }
        if jc >= n || s.get_ascii(jc) != 58 {
            proof {
                assert(spec_mutation_members(s@, jold, pre_m) is None);
            }
            return Err(ParseError::Syntax);
        }
        let jv = skip_ws(s, jc + 1);
        proof {
            assert(bounded(jc as int + 1, 0, s@.len() as int) == jc + 1);
            assert(bounded(spec_skip_ws(s@, jc as int + 1), 0, s@.len() as int) == jv as int);
        }
        let kstr = key.as_str();
        proof {
            assert(kstr.is_ascii());
            ascii_facts(kstr);
        }
        let known = str_len(kstr) == 1;
        let kb = if known {
            kstr.get_ascii(0)
        } else {
            0
        };
        let mut jn: usize = jv;
        if known && kb == 120 {
            let (v, j2) = match parse_number_millis(s, jv) {
                Ok(p) => p,
                Err(e) => {
                    proof {
                        assert(spec_mutation_value(s@, jv as int, key@, pre_m) is None);
                        assert(spec_mutation_members(s@, jold, pre_m) is None);
                    }
                    return Err(e);
                },
            };
            m.dx = v;
            jn = j2;
            proof {
                assert(Some((m@, jn as int)) == spec_mutation_value(s@, jv as int, key@, pre_m));
            }
        } else if known && kb == 121 {
            let (v, j2) = match parse_number_millis(s, jv) {
                Ok(p) => p,
                Err(e) => {
                    proof {
                        assert(spec_mutation_value(s@, jv as int, key@, pre_m) is None);
                        assert(spec_mutation_members(s@, jold, pre_m) is None);
                    }
                    return Err(e);
                },
            };
            m.dy = v;
            jn = j2;
            proof {
                assert(Some((m@, jn as int)) == spec_mutation_value(s@, jv as int, key@, pre_m));
            }
        } else if known && kb == 119 {
            let (v, j2) = match parse_number_millis(s, jv) {
                Ok(p) => p,
                Err(e) => {
                    proof {
                        assert(spec_mutation_value(s@, jv as int, key@, pre_m) is None);
                        assert(spec_mutation_members(s@, jold, pre_m) is None);
                    }
                    return Err(e);
                },
            };
            m.w = Some(v);
            jn = j2;
            proof {
                assert(Some((m@, jn as int)) == spec_mutation_value(s@, jv as int, key@, pre_m));
            }
        } else if known && kb == 104 {
            let (v, j2) = match parse_number_millis(s, jv) {
                Ok(p) => p,
                Err(e) => {
                    proof {
                        assert(spec_mutation_value(s@, jv as int, key@, pre_m) is None);
                        assert(spec_mutation_members(s@, jold, pre_m) is None);
                    }
                    return Err(e);
                },
            };
            m.h = Some(v);
            jn = j2;
            proof {
                assert(Some((m@, jn as int)) == spec_mutation_value(s@, jv as int, key@, pre_m));
            }
        } else if known && kb == 99 {
            if jv >= n {
                proof {
                    assert(spec_string_token(s@, jv as int) is None);
                    assert(spec_mutation_value(s@, jv as int, key@, pre_m) is None);
                    assert(spec_mutation_members(s@, jold, pre_m) is None);
                }
                return Err(ParseError::Syntax);
            }
            let (color, j2) = match parse_color_value(s, jv) {
                Ok(p) => p,
                Err(e) => {
                    proof {
                        assert(spec_mutation_value(s@, jv as int, key@, pre_m) is None);
                        assert(spec_mutation_members(s@, jold, pre_m) is None);
                    }
                    return Err(e);
                },
            };
            m.color = Some(color);
            jn = j2;
            proof {
                assert(Some((m@, jn as int)) == spec_mutation_value(s@, jv as int, key@, pre_m));
            }
        } else {
            jn = match skip_scalar_value(s, jv) {
                Ok(j2) => j2,
                Err(e) => {
                    proof {
                        assert(spec_mutation_value(s@, jv as int, key@, pre_m) is None);
                        assert(spec_mutation_members(s@, jold, pre_m) is None);
                    }
                    return Err(e);
                },
            };
            proof {
                assert(Some((m@, jn as int)) == spec_mutation_value(s@, jv as int, key@, pre_m));
            }
        }
        let ja = skip_ws(s, jn);
        proof {
            assert(bounded(jn as int, 0, s@.len() as int) == jn as int);
            assert(bounded(spec_skip_ws(s@, jn as int), 0, s@.len() as int) == ja as int);
        }
        if ja < n && s.get_ascii(ja) == 44 {
            j = skip_ws(s, ja + 1);
            proof {
                assert(bounded(ja as int + 1, 0, s@.len() as int) == ja + 1);
                assert(bounded(spec_skip_ws(s@, ja as int + 1), jold + 1, s@.len() as int) == j as int);
                assert(spec_mutation_members(s@, jold, pre_m) == spec_mutation_members(
                    s@,
                    j as int,
                    m@,
                ));
            }
        } else if ja < n && s.get_ascii(ja) == 125 {
            proof {
                assert(spec_mutation_members(s@, jold, pre_m) == Some((m@, ja + 1)));
            }
            return Ok((m, ja + 1));
        } else {
            proof {
                assert(spec_mutation_members(s@, jold, pre_m) is None);
            }
            return Err(ParseError::Syntax);
        }
    }
}

/// The character view of an optional string.
pub open spec fn option_view(o: Option<String>) -> Option<Seq<char>> {
    match o {
        Some(x) => Some(x@),
        None => None,
    }
}

/// Whether a key's characters spell the model-name member.
pub open spec fn is_name_key(key: Seq<char>) -> bool {
    key.len() == 4 && key[0] as u8 == 110 && key[1] as u8 == 97 && key[2] as u8 == 109 && key[3]
        as u8 == 101
}

/// Whether a key's characters spell the author member.
pub open spec fn is_author_key(key: Seq<char>) -> bool {
    key.len() == 6 && key[0] as u8 == 97 && key[1] as u8 == 117 && key[2] as u8 == 116 && key[3]
        as u8 == 104 && key[4] as u8 == 111 && key[5] as u8 == 114
}

/// The members of a metadata object from position `i` (at a key) to the
/// closing brace: both required strings (the last occurrence wins) and
/// the position after the brace.
pub open spec fn spec_meta_members(
    s: Seq<char>,
    i: int,
    name: Option<Seq<char>>,
    author: Option<Seq<char>>,
) -> Option<((Seq<char>, Seq<char>), int)>
    decreases s.len() - i when 0 <= i <= s.len()
{
    if i >= s.len() {
        None
    } else {
        match spec_string_token(s, i) {
            None => None,
            Some((key, jk0)) => {
                let jk = bounded(jk0, 0, s.len() as int);
                let jc = bounded(spec_skip_ws(s, jk), 0, s.len() as int);
                if !(jc < s.len() && s[jc] as u8 == 58) {
                    None
                } else {
                    let jv = bounded(
                        spec_skip_ws(s, bounded(jc + 1, 0, s.len() as int)),
                        0,
                        s.len() as int,
                    );
                    if is_name_key(key) || is_author_key(key) {
                        match spec_string_token(s, jv) {
                            None => None,
                            Some((val, jn0)) => {
                                let name2 = if is_name_key(key) {
                                    Some(val)
                                } else {
                                    name
                                };
                                let author2 = if is_name_key(key) {
                                    author
                                } else {
                                    Some(val)
                                };
                                let jn = bounded(jn0, 0, s.len() as int);
                                let ja = bounded(spec_skip_ws(s, jn), 0, s.len() as int);
                                if ja < s.len() && s[ja] as u8 == 44 {
                                    let nx = bounded(
                                        spec_skip_ws(s, bounded(ja + 1, 0, s.len() as int)),
                                        i + 1,
                                        s.len() as int,
                                    );
                                    spec_meta_members(s, nx, name2, author2)
                                } else if ja < s.len() && s[ja] as u8 == 125 {
                                    match (name2, author2) {
                                        (Some(nm), Some(a)) => Some(((nm, a), ja + 1)),
                                        _ => None,
                                    }
                                } else {
                                    None
                                }
                            },
                        }
                    } else {
                        match spec_skip_scalar(s, jv) {
                            None => None,
                            Some(jn0) => {
                                let jn = bounded(jn0, 0, s.len() as int);
                                let ja = bounded(spec_skip_ws(s, jn), 0, s.len() as int);
                                if ja < s.len() && s[ja] as u8 == 44 {
                                    let nx = bounded(
                                        spec_skip_ws(s, bounded(ja + 1, 0, s.len() as int)),
                                        i + 1,
                                        s.len() as int,
                                    );
                                    spec_meta_members(s, nx, name, author)
                                } else if ja < s.len() && s[ja] as u8 == 125 {
                                    match (name, author) {
                                        (Some(nm), Some(a)) => Some(((nm, a), ja + 1)),
                                        _ => None,
                                    }
                                } else {
                                    None
                                }
                            },
                        }
                    }
                }
            },
        }
    }
}

/// A whole metadata object at `i`: `{`, members with both `name` and
/// `author` present, `}`.
pub open spec fn spec_meta_object(s: Seq<char>, i: int) -> Option<((Seq<char>, Seq<char>), int)> {
    if !(0 <= i < s.len() && s[i] as u8 == 123) {
        None
    } else {
        let j0 = bounded(spec_skip_ws(s, bounded(i + 1, 0, s.len() as int)), 0, s.len() as int);
        if j0 < s.len() && s[j0] as u8 == 125 {
            None
        } else {
            spec_meta_members(s, j0, None, None)
        }
    }
}

/// Reads a metadata object: members `name` and `author`, both required
/// strings; unknown members are ignored.
#[verifier::loop_isolation(false)]
fn parse_meta_object(s: &str, i: usize) -> (r: Result<(PhysicalLayoutMeta, usize), ParseError>)
    requires
        s.is_ascii(),
        i < s@.len(),
    ensures
        r is Ok <==> spec_meta_object(s@, i as int) is Some,
        r is Ok ==> Some(((r->Ok_0.0.name@, r->Ok_0.0.author@), r->Ok_0.1 as int))
            == spec_meta_object(s@, i as int),
        r is Ok ==> i < r->Ok_0.1 <= s@.len(),
        r is Err ==> lex_error(r->Err_0),
{
    let n = str_len(s);
    if s.get_ascii(i) != 123 {
        return Err(ParseError::Syntax);
    }
    let mut name: Option<String> = None;
    let mut author: Option<String> = None;
    let mut j = skip_ws(s, i + 1);
    proof {
        assert(bounded(i as int + 1, 0, s@.len() as int) == i + 1);
        assert(bounded(spec_skip_ws(s@, i as int + 1), 0, s@.len() as int) == j as int);
    }
    if j < n && s.get_ascii(j) == 125 {
        proof {
            assert(spec_meta_object(s@, i as int) is None);
        }
        return Err(ParseError::Syntax);
    }
    let ghost j0 = j as int;
    proof {
        assert(spec_meta_object(s@, i as int) == spec_meta_members(
            s@,
            j0,
            None::<Seq<char>>,
            None::<Seq<char>>,
        ));
    }
    loop
        invariant
            s.is_ascii(),
            i < j <= s@.len(),
            spec_meta_members(s@, j as int, option_view(name), option_view(author))
                == spec_meta_members(s@, j0, None::<Seq<char>>, None::<Seq<char>>),
        decreases s@.len() - j,
    {
        let ghost jold = j as int;
        let ghost pre_name = option_view(name);
        let ghost pre_author = option_view(author);
        if j >= n {
            return Err(ParseError::Syntax);
        }
        let (key, jk) = match parse_string_token(s, j) {
            Ok(p) => p,
            Err(e) => {
                proof {
                    assert(spec_meta_members(s@, jold, pre_name, pre_author) is None);
                }
                return Err(e);
            },
        };
        proof {
            assert(Some((key@, jk as int)) == spec_string_token(s@, jold));
            assert(bounded(jk as int, 0, s@.len() as int) == jk as int);
        }
        let jc = skip_ws(s, jk);
        proof {
            assert(bounded(spec_skip_ws(s@, jk as int), 0, s@.len() as int) == jc as int);
        }
        if jc >= n || s.get_ascii(jc) != 58 {
            proof {
                assert(spec_meta_members(s@, jold, pre_name, pre_author) is None);
            }
            return Err(ParseError::Syntax);
        }
        let jv = skip_ws(s, jc + 1);
        proof {
            assert(bounded(jc as int + 1, 0, s@.len() as int) == jc + 1);
            assert(bounded(spec_skip_ws(s@, jc as int + 1), 0, s@.len() as int) == jv as int);
        }
        let kstr = key.as_str();
        proof {
            assert(kstr.is_ascii());
            ascii_facts(kstr);
        }
        let kn = str_len(kstr);
        let is_name = kn == 4 && kstr.get_ascii(0) == 110 && kstr.get_ascii(1) == 97
            && kstr.get_ascii(2) == 109 && kstr.get_ascii(3) == 101;
        let is_author = kn == 6 && kstr.get_ascii(0) == 97 && kstr.get_ascii(1) == 117
            && kstr.get_ascii(2) == 116 && kstr.get_ascii(3) == 104 && kstr.get_ascii(4) == 111
            && kstr.get_ascii(5) == 114;
        proof {
            assert(is_name == is_name_key(key@));
            assert(is_author == is_author_key(key@));
        }
        let mut jn: usize = jv;
        if is_name || is_author {
            if jv >= n {
                proof {
                    assert(spec_string_token(s@, jv as int) is None);
                    assert(spec_meta_members(s@, jold, pre_name, pre_author) is None);
                }
                return Err(ParseError::Syntax);
            }
            let (val, j2) = match parse_string_token(s, jv) {
                Ok(p) => p,
                Err(e) => {
                    proof {
                        assert(spec_meta_members(s@, jold, pre_name, pre_author) is None);
                    }
                    return Err(e);
                },
            };
            if is_name {
                name = Some(val);
            } else {
                author = Some(val);
            }
            jn = j2;
        } else {
            jn = match skip_scalar_value(s, jv) {
                Ok(j2) => j2,
                Err(e) => {
                    proof {
                        assert(spec_meta_members(s@, jold, pre_name, pre_author) is None);
                    }
                    return Err(e);
                },
            };
        }
        let ja = skip_ws(s, jn);
        proof {
            assert(bounded(jn as int, 0, s@.len() as int) == jn as int);
            assert(bounded(spec_skip_ws(s@, jn as int), 0, s@.len() as int) == ja as int);
        }
        if ja < n && s.get_ascii(ja) == 44 {
            j = skip_ws(s, ja + 1);
            proof {
                assert(bounded(ja as int + 1, 0, s@.len() as int) == ja + 1);
                assert(bounded(spec_skip_ws(s@, ja as int + 1), jold + 1, s@.len() as int)
                    == j as int);
                assert(spec_meta_members(s@, jold, pre_name, pre_author) == spec_meta_members(
                    s@,
                    j as int,
                    option_view(name),
                    option_view(author),
                ));
            }
        } else if ja < n && s.get_ascii(ja) == 125 {
            proof {
                assert(spec_meta_members(s@, jold, pre_name, pre_author) == (match (
                    option_view(name),
                    option_view(author),
                ) {
                    (Some(nm), Some(a)) => Some(((nm, a), ja + 1)),
                    _ => None::<((Seq<char>, Seq<char>), int)>,
                }));
            }
            return match (name, author) {
                (Some(nm), Some(a)) => Ok((PhysicalLayoutMeta { name: nm, author: a }, ja + 1)),
                _ => Err(ParseError::Syntax),
            };
        } else {
            proof {
                assert(spec_meta_members(s@, jold, pre_name, pre_author) is None);
            }
            return Err(ParseError::Syntax);
        }
    }
}

/// The views of a list of row items.
pub open spec fn items_view(items: Seq<RowItem>) -> Seq<RowItemView> {
    items.map(|k: int, it: RowItem| it@)
}

/// The items of a row from position `i` (at an item) to the closing
/// bracket: the accumulated item views and the position after.
pub open spec fn spec_row_items(s: Seq<char>, i: int, acc: Seq<RowItemView>) -> Option<
    (Seq<RowItemView>, int),
>
    decreases s.len() - i when 0 <= i <= s.len()
{
    if i >= s.len() {
        None
    } else if s[i] as u8 == 34 {
        match spec_string_token(s, i) {
            None => None,
            Some((nm, jn0)) => {
                let acc2 = acc.push(RowItemView::Key(nm));
                let jn = bounded(jn0, 0, s.len() as int);
                let ja = bounded(spec_skip_ws(s, jn), 0, s.len() as int);
                if ja < s.len() && s[ja] as u8 == 44 {
                    let nx = bounded(
                        spec_skip_ws(s, bounded(ja + 1, 0, s.len() as int)),
                        i + 1,
                        s.len() as int,
                    );
                    spec_row_items(s, nx, acc2)
                } else if ja < s.len() && s[ja] as u8 == 93 {
                    Some((acc2, ja + 1))
                } else {
                    None
                }
            },
        }
    } else if s[i] as u8 == 123 {
        match spec_mutation_object(s, i) {
            None => None,
            Some((mv, jn0)) => {
                let acc2 = acc.push(RowItemView::Mutation(mv));
                let jn = bounded(jn0, 0, s.len() as int);
                let ja = bounded(spec_skip_ws(s, jn), 0, s.len() as int);
                if ja < s.len() && s[ja] as u8 == 44 {
                    let nx = bounded(
                        spec_skip_ws(s, bounded(ja + 1, 0, s.len() as int)),
                        i + 1,
                        s.len() as int,
                    );
                    spec_row_items(s, nx, acc2)
                } else if ja < s.len() && s[ja] as u8 == 93 {
                    Some((acc2, ja + 1))
                } else {
                    None
                }
            },
        }
    } else {
        None
    }
}

/// A whole row at `i`: `[`, items or nothing, `]`.
pub open spec fn spec_row(s: Seq<char>, i: int) -> Option<(Seq<RowItemView>, int)> {
    if !(0 <= i < s.len() && s[i] as u8 == 91) {
        None
    } else {
        let j0 = bounded(spec_skip_ws(s, bounded(i + 1, 0, s.len() as int)), 0, s.len() as int);
        if j0 < s.len() && s[j0] as u8 == 93 {
            Some((Seq::empty(), j0 + 1))
        } else {
            spec_row_items(s, j0, Seq::empty())
        }
    }
}

/// Reads one row: a bracketed list of key names and mutation objects.
#[verifier::loop_isolation(false)]
fn parse_row(s: &str, i: usize) -> (r: Result<(Vec<RowItem>, usize), ParseError>)
    requires
        s.is_ascii(),
        i < s@.len(),
    ensures
        r is Ok <==> spec_row(s@, i as int) is Some,
        r is Ok ==> Some((items_view(r->Ok_0.0@), r->Ok_0.1 as int)) == spec_row(s@, i as int),
        r is Ok ==> i < r->Ok_0.1 <= s@.len(),
        r is Err ==> lex_error(r->Err_0),
{
    let n = str_len(s);
    if s.get_ascii(i) != 91 {
        return Err(ParseError::Syntax);
    }
    let mut items: Vec<RowItem> = Vec::new();
    let mut j = skip_ws(s, i + 1);
    proof {
        assert(bounded(i as int + 1, 0, s@.len() as int) == i + 1);
        assert(bounded(spec_skip_ws(s@, i as int + 1), 0, s@.len() as int) == j as int);
        assert(items_view(items@) =~= Seq::<RowItemView>::empty());
    }
    if j < n && s.get_ascii(j) == 93 {
        proof {
            assert(spec_row(s@, i as int) == Some((Seq::<RowItemView>::empty(), j + 1)));
        }
        return Ok((items, j + 1));
    }
    let ghost j0 = j as int;
    proof {
        assert(spec_row(s@, i as int) == spec_row_items(s@, j0, Seq::<RowItemView>::empty()));
    }
    loop
        invariant
            s.is_ascii(),
            i < j <= s@.len(),
            spec_row_items(s@, j as int, items_view(items@)) == spec_row_items(
                s@,
                j0,
                Seq::<RowItemView>::empty(),
            ),
        decreases s@.len() - j,
    {
        let ghost jold = j as int;
        let ghost pre_items = items_view(items@);
        if j >= n {
            return Err(ParseError::Syntax);
        }
        let b = s.get_ascii(j);
        let jn: usize;
        if b == 34 {
            let (name, j2) = match parse_string_token(s, j) {
                Ok(p) => p,
                Err(e) => {
                    proof {
                        assert(spec_row_items(s@, jold, pre_items) is None);
                    }
                    return Err(e);
                },
            };
            let ghost pre_vec = items@;
            items.push(RowItem::Key(name));
            jn = j2;
            proof {
                assert(items_view(items@) =~= pre_items.push(RowItemView::Key(name@)));
                assert(Some((name@, jn as int)) == spec_string_token(s@, jold));
            }
        } else if b == 123 {
            let (m, j2) = match parse_mutation_object(s, j) {
                Ok(p) => p,
                Err(e) => {
                    proof {
                        assert(spec_row_items(s@, jold, pre_items) is None);
                    }
                    return Err(e);
                },
            };
            let ghost pre_vec = items@;
            items.push(RowItem::Mutation(m));
            jn = j2;
            proof {
                assert(items_view(items@) =~= pre_items.push(RowItemView::Mutation(m@)));
                assert(Some((m@, jn as int)) == spec_mutation_object(s@, jold));
            }
        } else {
            proof {
                assert(spec_row_items(s@, jold, pre_items) is None);
            }
            return Err(ParseError::Syntax);
        }
        let ja = skip_ws(s, jn);
        proof {
            assert(bounded(jn as int, 0, s@.len() as int) == jn as int);
            assert(bounded(spec_skip_ws(s@, jn as int), 0, s@.len() as int) == ja as int);
        }
        if ja < n && s.get_ascii(ja) == 44 {
            j = skip_ws(s, ja + 1);
            proof {
                assert(bounded(ja as int + 1, 0, s@.len() as int) == ja + 1);
                assert(bounded(spec_skip_ws(s@, ja as int + 1), jold + 1, s@.len() as int)
                    == j as int);
                assert(spec_row_items(s@, jold, pre_items) == spec_row_items(
                    s@,
                    j as int,
                    items_view(items@),
                ));
            }
        } else if ja < n && s.get_ascii(ja) == 93 {
            proof {
                assert(spec_row_items(s@, jold, pre_items) == Some((items_view(items@), ja + 1)));
            }
            return Ok((items, ja + 1));
        } else {
            proof {
                assert(spec_row_items(s@, jold, pre_items) is None);
            }
            return Err(ParseError::Syntax);
        }
    }
}

/// The entries of a document from position `i` (at an entry) to the
/// closing bracket: the accumulated entry views and the position after.
pub open spec fn spec_entries_items(s: Seq<char>, i: int, acc: Seq<EntryView>) -> Option<
    (Seq<EntryView>, int),
>
    decreases s.len() - i when 0 <= i <= s.len()
{
    if i >= s.len() {
        None
    } else if s[i] as u8 == 123 {
        match spec_meta_object(s, i) {
            None => None,
            Some(((nm, a), jn0)) => {
                let acc2 = acc.push(EntryView::Meta(nm, a));
                let jn = bounded(jn0, 0, s.len() as int);
                let ja = bounded(spec_skip_ws(s, jn), 0, s.len() as int);
                if ja < s.len() && s[ja] as u8 == 44 {
                    let nx = bounded(
                        spec_skip_ws(s, bounded(ja + 1, 0, s.len() as int)),
                        i + 1,
                        s.len() as int,
                    );
                    spec_entries_items(s, nx, acc2)
                } else if ja < s.len() && s[ja] as u8 == 93 {
                    Some((acc2, ja + 1))
                } else {
                    None
                }
            },
        }
    } else if s[i] as u8 == 91 {
        match spec_row(s, i) {
            None => None,
            Some((ivs, jn0)) => {
                let acc2 = acc.push(EntryView::Row(ivs));
                let jn = bounded(jn0, 0, s.len() as int);
                let ja = bounded(spec_skip_ws(s, jn), 0, s.len() as int);
                if ja < s.len() && s[ja] as u8 == 44 {
                    let nx = bounded(
                        spec_skip_ws(s, bounded(ja + 1, 0, s.len() as int)),
                        i + 1,
                        s.len() as int,
                    );
                    spec_entries_items(s, nx, acc2)
                } else if ja < s.len() && s[ja] as u8 == 93 {
                    Some((acc2, ja + 1))
                } else {
                    None
                }
            },
        }
    } else {
        None
    }
}

/// Whether only whitespace stands from `e` to the end of the text.
pub open spec fn only_ws_from(s: Seq<char>, e: int) -> bool {
    spec_skip_ws(s, bounded(e, 0, s.len() as int)) >= s.len()
}

/// The whole layout grammar: optional whitespace, a bracketed list of
/// metadata objects and rows, optional whitespace, end of text. Yields
/// the entry views the cursor machine runs over.
pub open spec fn spec_parse_entries(s: Seq<char>) -> Option<Seq<EntryView>> {
    let i0 = bounded(spec_skip_ws(s, 0), 0, s.len() as int);
    if !(i0 < s.len() && s[i0] as u8 == 91) {
        None
    } else {
        let j0 = bounded(spec_skip_ws(s, bounded(i0 + 1, 0, s.len() as int)), 0, s.len() as int);
        if j0 < s.len() && s[j0] as u8 == 93 {
            if only_ws_from(s, j0 + 1) {
                Some(Seq::empty())
            } else {
                None
            }
        } else {
            match spec_entries_items(s, j0, Seq::empty()) {
                Some((es, e)) => if only_ws_from(s, e) {
                    Some(es)
                } else {
                    None
                },
                None => None,
            }
        }
    }
}

/// Reads the top-level list of entries.
#[verifier::loop_isolation(false)]
fn parse_entries(s: &str) -> (r: Result<Vec<LayoutEntry>, ParseError>)
    requires
        s.is_ascii(),
    ensures
        r is Ok <==> spec_parse_entries(s@) is Some,
        r is Ok ==> Some(crate::physical_layout::entries_view(r->Ok_0@)) == spec_parse_entries(s@),
        r is Err ==> lex_error(r->Err_0),
{
    let n = str_len(s);
    let mut entries: Vec<LayoutEntry> = Vec::new();
    let i0 = skip_ws(s, 0);
    proof {
        assert(bounded(spec_skip_ws(s@, 0), 0, s@.len() as int) == i0 as int);
    }
    if i0 >= n || s.get_ascii(i0) != 91 {
        return Err(ParseError::Syntax);
    }
    let mut j = skip_ws(s, i0 + 1);
    proof {
        assert(bounded(i0 as int + 1, 0, s@.len() as int) == i0 + 1);
        assert(bounded(spec_skip_ws(s@, i0 as int + 1), 0, s@.len() as int) == j as int);
        assert(crate::physical_layout::entries_view(entries@) =~= Seq::<EntryView>::empty());
    }
    if j < n && s.get_ascii(j) == 93 {
        let jend = skip_ws(s, j + 1);
        proof {
            assert(bounded(j as int + 1, 0, s@.len() as int) == j + 1);
        }
        if jend < n {
            proof {
                assert(!only_ws_from(s@, j as int + 1));
            }
            return Err(ParseError::Syntax);
        }
        proof {
            assert(only_ws_from(s@, j as int + 1));
            assert(spec_parse_entries(s@) == Some(Seq::<EntryView>::empty()));
        }
        return Ok(entries);
    }
    let ghost j0 = j as int;
    proof {
        assert(spec_parse_entries(s@) == (match spec_entries_items(
            s@,
            j0,
            Seq::<EntryView>::empty(),
        ) {
            Some((es, e)) => if only_ws_from(s@, e) {
                Some(es)
            } else {
                None::<Seq<EntryView>>
            },
            None => None::<Seq<EntryView>>,
        }));
    }
    loop
        invariant
            s.is_ascii(),
            0 < j <= s@.len(),
            spec_entries_items(s@, j as int, crate::physical_layout::entries_view(entries@))
                == spec_entries_items(s@, j0, Seq::<EntryView>::empty()),
        decreases s@.len() - j,
    {
        let ghost jold = j as int;
        let ghost pre_entries = crate::physical_layout::entries_view(entries@);
        if j >= n {
            return Err(ParseError::Syntax);
        }
        let b = s.get_ascii(j);
        let jn: usize;
        if b == 123 {
            let (meta, j2) = match parse_meta_object(s, j) {
                Ok(p) => p,
                Err(e) => {
                    proof {
                        assert(spec_entries_items(s@, jold, pre_entries) is None);
                    }
                    return Err(e);
                },
            };
            proof {
                assert(Some(((meta.name@, meta.author@), j2 as int)) == spec_meta_object(
                    s@,
                    jold,
                ));
            }
            entries.push(LayoutEntry::Meta { name: meta.name, author: meta.author });
            jn = j2;
            proof {
                assert(crate::physical_layout::entries_view(entries@) =~= pre_entries.push(
                    entries@.last()@,
                ));
            }
        } else if b == 91 {
            let (row, j2) = match parse_row(s, j) {
                Ok(p) => p,
                Err(e) => {
                    proof {
                        assert(spec_entries_items(s@, jold, pre_entries) is None);
                    }
                    return Err(e);
                },
            };
            proof {
                assert(Some((items_view(row@), j2 as int)) == spec_row(s@, jold));
            }
            entries.push(LayoutEntry::Row(row));
            jn = j2;
            proof {
                assert(crate::physical_layout::entries_view(entries@) =~= pre_entries.push(
                    entries@.last()@,
                ));
            }
        } else {
            proof {
                assert(spec_entries_items(s@, jold, pre_entries) is None);
            }
            return Err(ParseError::Syntax);
        }
        let ja = skip_ws(s, jn);
        proof {
            assert(bounded(jn as int, 0, s@.len() as int) == jn as int);
            assert(bounded(spec_skip_ws(s@, jn as int), 0, s@.len() as int) == ja as int);
        }
        if ja < n && s.get_ascii(ja) == 44 {
            j = skip_ws(s, ja + 1);
            proof {
                assert(bounded(ja as int + 1, 0, s@.len() as int) == ja + 1);
                assert(bounded(spec_skip_ws(s@, ja as int + 1), jold + 1, s@.len() as int)
                    == j as int);
                assert(spec_entries_items(s@, jold, pre_entries) == spec_entries_items(
                    s@,
                    j as int,
                    crate::physical_layout::entries_view(entries@),
                ));
            }
        } else if ja < n && s.get_ascii(ja) == 93 {
            proof {
                assert(spec_entries_items(s@, jold, pre_entries) == Some(
                    (crate::physical_layout::entries_view(entries@), ja + 1),
                ));
            }
            let jend = skip_ws(s, ja + 1);
            proof {
                assert(bounded(ja as int + 1, 0, s@.len() as int) == ja + 1);
            }
            if jend < n {
                proof {
                    assert(!only_ws_from(s@, ja as int + 1));
                }
                return Err(ParseError::Syntax);
            }
            proof {
                assert(only_ws_from(s@, ja as int + 1));
                assert(spec_parse_entries(s@) == Some(
                    crate::physical_layout::entries_view(entries@),
                ));
            }
            return Ok(entries);
        } else {
            proof {
                assert(spec_entries_items(s@, jold, pre_entries) is None);
            }
            return Err(ParseError::Syntax);
        }
    }
}

impl PhysicalLayout {
    /// Parse a layout description from its text. The text must be
    /// ASCII; it succeeds exactly when the text derives an entry list
    /// under the layout grammar that stays within the size limits and
    /// carries a metadata object, and then the result is precisely what
    /// the cursor machine computes over that list. The keys of a parsed
    /// layout obey the row/column ordering law.
    pub fn from_str(physical_json: &str) -> (r: Result<PhysicalLayout, ParseError>)
        ensures
            r == Result::<PhysicalLayout, ParseError>::Err(ParseError::NotAscii)
                <==> !physical_json.is_ascii(),
            physical_json.is_ascii() ==> ((r is Ok) <==> ({
                let p = spec_parse_entries(physical_json@);
                &&& p is Some
                &&& crate::physical_layout::within_limits(p->0)
                &&& crate::physical_layout::layout_run(p->0).meta is Some
            })),
            r is Ok ==> r->Ok_0@.keys == crate::physical_layout::layout_run(
                spec_parse_entries(physical_json@)->0,
            ).keys,
            r is Ok ==> crate::physical_layout::layout_run(
                spec_parse_entries(physical_json@)->0,
            ).meta == Some((r->Ok_0@.name, r->Ok_0@.author)),
            r is Ok ==> keys_in_order(r->Ok_0@.keys),
    {
        if !physical_json.is_ascii() {
            return Err(ParseError::NotAscii);
        }
        let entries = match parse_entries(physical_json) {
            Ok(e) => e,
            Err(e) => {
                return Err(e);
            },
        };
        proof {
            assert(Some(crate::physical_layout::entries_view(entries@)) == spec_parse_entries(
                physical_json@,
            ));
        }
        let r = PhysicalLayout::from_entries(&entries);
        proof {
            crate::physical_layout::lemma_layout_keys_in_order(
                crate::physical_layout::entries_view(entries@),
            );
        }
        r
    }
}

} // verus!
