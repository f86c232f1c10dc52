//! Wire framing for the subprocess transport: each message is one line
//! of UTF-8 JSON terminated by a newline. A request carries an operation
//! name and numeric arguments; a reply carries `{"ok": value}` or
//! `{"err": message}`. The server side dispatches a decoded request to a
//! daemon and frames the outcome.

use vstd::prelude::*;

use crate::color::Rgb;
use crate::daemon::{BoardId, Daemon};
use crate::physical_layout::ParseError;
use crate::layout_text::{
    bounded, dec_value, is_digit_char, lemma_dec_value_mono, lemma_digits_end_at_least,
    lemma_digits_end_props, lemma_spec_digits_end_range, only_ws_from, option_view,
    parse_string_token, skip_ws, spec_digits_end, spec_skip_ws, spec_string_token, str_len,
};

verus! {

/// A byte that may stand inside a quoted token: printable ASCII, no
/// quote, no backslash.
pub open spec fn plain_byte(b: u8) -> bool {
    32 <= b <= 126 && b != 34 && b != 92
}

/// Operation names and error strings put on the wire must be plain.
pub open spec fn plain_token(s: Seq<char>) -> bool {
    forall|i: int| #![trigger s[i]] 0 <= i < s.len() ==> plain_byte(s[i] as u8) && (s[i] as u32) < 128
}

/// One request: an operation name and its numeric arguments.
pub struct Request {
    pub op: String,
    pub args: Vec<u64>,
}

/// The value of a successful reply.
pub enum WireValue {
    Unit,
    Num(u64),
    Nums(Vec<u64>),
    Str(String),
}

/// A frame holds exactly one newline, at its end.
pub open spec fn framed(out: Seq<u8>) -> bool {
    &&& out.len() > 0
    &&& out.last() == 10u8
    &&& forall|i: int| 0 <= i < out.len() - 1 ==> out[i] != 10u8
}

/// The ASCII bytes of a plain token.
pub open spec fn ascii_bytes(s: Seq<char>) -> Seq<u8> {
    Seq::new(s.len(), |i: int| s[i] as u8)
}

/// The decimal digits of a number, most significant first.
pub open spec fn dec_bytes(v: int) -> Seq<u8>
    recommends
        v >= 0,
    decreases v,
{
    if v < 10 {
        seq![(48 + (if v >= 0 { v } else { 0 })) as u8]
    } else {
        dec_bytes(v / 10).push((48 + v % 10) as u8)
    }
}

/// Arguments as a comma-separated list of decimal numbers.
pub open spec fn args_bytes(args: Seq<u64>) -> Seq<u8>
    decreases args.len(),
{
    if args.len() == 0 {
        Seq::empty()
    } else if args.len() == 1 {
        dec_bytes(args[0] as int)
    } else {
        args_bytes(args.drop_last()) + seq![44u8] + dec_bytes(args.last() as int)
    }
}

/// The one frame a request is encoded as (without its newline):
/// `{"op":"` op `","args":[` args `]}`.
pub open spec fn request_bytes(op: Seq<char>, args: Seq<u64>) -> Seq<u8> {
    seq![123u8, 34u8, 111u8, 112u8, 34u8, 58u8, 34u8] + ascii_bytes(op) + seq![
        34u8,
        44u8,
        34u8,
        97u8,
        114u8,
        103u8,
        115u8,
        34u8,
        58u8,
        91u8,
    ] + args_bytes(args) + seq![93u8, 125u8]
}

/// A string as it goes inside quotes: its bytes when every one may
/// stand in a quoted token, else a fixed placeholder.
pub open spec fn quoted_or_placeholder(s: Seq<char>) -> Seq<u8> {
    if vstd::utf8::is_ascii_chars(s) && plain_token(s) {
        ascii_bytes(s)
    } else {
        seq![118u8, 97u8, 108u8, 117u8, 101u8]
    }
}

/// The body of a successful reply value.
pub open spec fn value_bytes(v: WireValue) -> Seq<u8> {
    match v {
        WireValue::Unit => seq![110u8, 117u8, 108u8, 108u8],
        WireValue::Num(n) => dec_bytes(n as int),
        WireValue::Nums(ns) => seq![91u8] + args_bytes(ns@) + seq![93u8],
        WireValue::Str(st) => seq![34u8] + quoted_or_placeholder(st@) + seq![34u8],
    }
}

/// The one frame a reply is encoded as (without its newline):
/// `{"ok":` value `}` or `{"err":"` message `"}`.
pub open spec fn reply_bytes(r: Result<WireValue, String>) -> Seq<u8> {
    match r {
        Ok(v) => seq![123u8, 34u8, 111u8, 107u8, 34u8, 58u8] + value_bytes(v) + seq![125u8],
        Err(m) => seq![123u8, 34u8, 101u8, 114u8, 114u8, 34u8, 58u8, 34u8] + quoted_or_placeholder(
            m@,
        ) + seq![34u8, 125u8],
    }
}

proof fn lemma_dec_bytes_digits(v: int)
    requires
        v >= 0,
    ensures
        dec_bytes(v).len() > 0,
        forall|i: int| 0 <= i < dec_bytes(v).len() ==> 48 <= #[trigger] dec_bytes(v)[i] <= 57,
    decreases v,
{
    if v >= 10 {
        lemma_dec_bytes_digits(v / 10);
    }
}

fn push_byte(out: &mut Vec<u8>, b: u8)
    requires
        b != 10,
    ensures
        final(out)@ == old(out)@.push(b),
{
    out.push(b);
}

#[verifier::loop_isolation(false)]
fn push_literal(out: &mut Vec<u8>, s: &str)
    requires
        s.is_ascii(),
        plain_token(s@),
    ensures
        final(out)@ == old(out)@ + ascii_bytes(s@),
        final(out)@.len() == old(out)@.len() + s@.len(),
        forall|i: int| 0 <= i < old(out)@.len() ==> final(out)@[i] == old(out)@[i],
        forall|i: int| old(out)@.len() <= i < final(out)@.len() ==> #[trigger] final(out)@[i] != 10u8,
{
    let n = str_len(s);
    let mut i: usize = 0;
    while i < n
        invariant
            i <= n,
            n == s@.len(),
            out@ == old(out)@ + ascii_bytes(s@.take(i as int)),
            out@.len() == old(out)@.len() + i,
            forall|k: int| 0 <= k < old(out)@.len() ==> out@[k] == old(out)@[k],
            forall|k: int| old(out)@.len() <= k < out@.len() ==> #[trigger] out@[k] != 10u8,
        decreases n - i,
    {
        let b = s.get_ascii(i);
        proof {
            assert(plain_byte(s@[i as int] as u8) && (s@[i as int] as u32) < 128);
            assert(ascii_bytes(s@.take(i + 1)) =~= ascii_bytes(s@.take(i as int)).push(
                s@[i as int] as u8,
            ));
        }
        out.push(b);
        i = i + 1;
    }
    proof {
        assert(s@.take(n as int) =~= s@);
        assert(final(out)@ == old(out)@ + ascii_bytes(s@));
    }
}

#[verifier::loop_isolation(false)]
fn push_u64_dec(out: &mut Vec<u8>, v: u64)
    ensures
        final(out)@ == old(out)@ + dec_bytes(v as int),
        final(out)@.len() > old(out)@.len(),
        forall|i: int| 0 <= i < old(out)@.len() ==> final(out)@[i] == old(out)@[i],
        forall|i: int| old(out)@.len() <= i < final(out)@.len() ==> #[trigger] final(out)@[i] != 10u8,
{
    proof {
        lemma_dec_bytes_digits(v as int);
    }
    let mut digits: Vec<u8> = Vec::new();
    let mut n = v;
    digits.push(48 + (n % 10) as u8);
    n = n / 10;
    while n > 0
        invariant
            dec_bytes(v as int) =~= (if n > 0 {
                dec_bytes(n as int)
            } else {
                Seq::<u8>::empty()
            }) + digits@.reverse(),
            digits@.len() > 0,
        decreases n,
    {
        let ghost pre = digits@;
        digits.push(48 + (n % 10) as u8);
        proof {
            assert(digits@.reverse() =~= seq![(48 + n as int % 10) as u8] + pre.reverse());
        }
        n = n / 10;
        proof {
            if n > 0 {
                assert(dec_bytes(v as int) =~= dec_bytes(n as int) + digits@.reverse());
            } else {
                assert(dec_bytes(v as int) =~= digits@.reverse());
            }
        }
    }
    proof {
        assert(dec_bytes(v as int) =~= digits@.reverse());
    }
    let dn = digits.len();
    let mut k = dn;
    while k > 0
        invariant
            k <= dn,
            dn == digits@.len(),
            dec_bytes(v as int) == digits@.reverse(),
            out@ == old(out)@ + dec_bytes(v as int).take(dn - k),
        decreases k,
    {
        k = k - 1;
        proof {
            assert(digits@.reverse()[dn - k - 1] == digits@[k as int]);
            assert(dec_bytes(v as int).take(dn - k) =~= dec_bytes(v as int).take(dn - k - 1).push(
                digits@[k as int],
            ));
        }
        out.push(digits[k]);
    }
    proof {
        assert(dec_bytes(v as int).take(dn as int) =~= dec_bytes(v as int));
        lemma_dec_bytes_digits(v as int);
        assert forall|i: int|
            old(out)@.len() <= i < out@.len() implies #[trigger] out@[i] != 10u8 by {
            assert(out@[i] == dec_bytes(v as int)[i - old(out)@.len()]);
        }
    }
}

/// Frame a request as `{"op":"...","args":[...]}` and one newline.
#[verifier::loop_isolation(false)]
pub fn encode_request(req: &Request) -> (out: Vec<u8>)
    requires
        req.op.is_ascii(),
        plain_token(req.op@),
    ensures
        framed(out@),
        out@ == request_bytes(req.op@, req.args@).push(10u8),
{
    let mut out: Vec<u8> = Vec::new();
    push_byte(&mut out, 123);
    push_byte(&mut out, 34);
    push_byte(&mut out, 111);
    push_byte(&mut out, 112);
    push_byte(&mut out, 34);
    push_byte(&mut out, 58);
    push_byte(&mut out, 34);
    push_literal(&mut out, req.op.as_str());
    push_byte(&mut out, 34);
    push_byte(&mut out, 44);
    push_byte(&mut out, 34);
    push_byte(&mut out, 97);
    push_byte(&mut out, 114);
    push_byte(&mut out, 103);
    push_byte(&mut out, 115);
    push_byte(&mut out, 34);
    push_byte(&mut out, 58);
    push_byte(&mut out, 91);
    let ghost head = out@;
    proof {
        assert(head =~= seq![123u8, 34u8, 111u8, 112u8, 34u8, 58u8, 34u8] + ascii_bytes(req.op@)
            + seq![34u8, 44u8, 34u8, 97u8, 114u8, 103u8, 115u8, 34u8, 58u8, 91u8]);
        assert(args_bytes(req.args@.take(0)) =~= Seq::<u8>::empty());
        assert(out@ =~= head + args_bytes(req.args@.take(0)));
    }
    let n = req.args.len();
    let mut i: usize = 0;
    while i < n
        invariant
            i <= n,
            n == req.args@.len(),
            out@ == head + args_bytes(req.args@.take(i as int)),
            forall|k: int| 0 <= k < out@.len() ==> #[trigger] out@[k] != 10u8,
        decreases n - i,
    {
        if i > 0 {
            push_byte(&mut out, 44);
        }
        push_u64_dec(&mut out, req.args[i]);
        proof {
            if i == 0 {
                assert(args_bytes(req.args@.take(1)) == dec_bytes(req.args@[0] as int));
                assert(out@ =~= head + args_bytes(req.args@.take(1)));
            } else {
                assert(req.args@.take(i + 1).drop_last() =~= req.args@.take(i as int));
                assert(req.args@.take(i + 1).last() == req.args@[i as int]);
                assert(args_bytes(req.args@.take(i + 1)) == args_bytes(req.args@.take(i as int))
                    + seq![44u8] + dec_bytes(req.args@[i as int] as int));
                assert(out@ =~= head + args_bytes(req.args@.take(i + 1)));
            }
        }
        i = i + 1;
    }
    push_byte(&mut out, 93);
    push_byte(&mut out, 125);
    out.push(10);
    proof {
        assert(req.args@.take(n as int) =~= req.args@);
        assert(out@ =~= request_bytes(req.op@, req.args@).push(10u8));
    }
    out
}

/// Frame a reply as `{"ok": value}` or `{"err":"message"}` and one
/// newline. An error message with bytes that cannot stand in a quoted
/// token is replaced by a fixed one.
#[verifier::loop_isolation(false)]
pub fn encode_reply(reply: &Result<WireValue, String>) -> (out: Vec<u8>)
    ensures
        framed(out@),
        out@ == reply_bytes(*reply).push(10u8),
{
    let mut out: Vec<u8> = Vec::new();
    match reply {
        Ok(v) => {
            push_byte(&mut out, 123);
            push_byte(&mut out, 34);
            push_byte(&mut out, 111);
            push_byte(&mut out, 107);
            push_byte(&mut out, 34);
            push_byte(&mut out, 58);
            match v {
                WireValue::Unit => {
                    push_byte(&mut out, 110);
                    push_byte(&mut out, 117);
                    push_byte(&mut out, 108);
                    push_byte(&mut out, 108);
                },
                WireValue::Num(n) => {
                    push_u64_dec(&mut out, *n);
                },
                WireValue::Nums(ns) => {
                    push_byte(&mut out, 91);
                    let ghost head = out@;
                    proof {
                        assert(args_bytes(ns@.take(0)) =~= Seq::<u8>::empty());
                        assert(out@ =~= head + args_bytes(ns@.take(0)));
                    }
                    let n = ns.len();
                    let mut i: usize = 0;
                    while i < n
                        invariant
                            i <= n,
                            n == ns@.len(),
                            out@ == head + args_bytes(ns@.take(i as int)),
                            forall|k: int| 0 <= k < out@.len() ==> #[trigger] out@[k] != 10u8,
                        decreases n - i,
                    {
                        if i > 0 {
                            push_byte(&mut out, 44);
                        }
                        push_u64_dec(&mut out, ns[i]);
                        proof {
                            if i == 0 {
                                assert(args_bytes(ns@.take(1)) == dec_bytes(ns@[0] as int));
                                assert(out@ =~= head + args_bytes(ns@.take(1)));
                            } else {
                                assert(ns@.take(i + 1).drop_last() =~= ns@.take(i as int));
                                assert(ns@.take(i + 1).last() == ns@[i as int]);
                                assert(args_bytes(ns@.take(i + 1)) == args_bytes(ns@.take(
                                    i as int,
                                )) + seq![44u8] + dec_bytes(ns@[i as int] as int));
                                assert(out@ =~= head + args_bytes(ns@.take(i + 1)));
                            }
                        }
                        i = i + 1;
                    }
                    proof {
                        assert(ns@.take(n as int) =~= ns@);
                    }
                    push_byte(&mut out, 93);
                },
                WireValue::Str(s) => {
                    push_byte(&mut out, 34);
                    push_plain_or_default(&mut out, s);
                    push_byte(&mut out, 34);
                },
            }
            push_byte(&mut out, 125);
            proof {
                assert(out@ =~= reply_bytes(*reply));
            }
        },
        Err(msg) => {
            push_byte(&mut out, 123);
            push_byte(&mut out, 34);
            push_byte(&mut out, 101);
            push_byte(&mut out, 114);
            push_byte(&mut out, 114);
            push_byte(&mut out, 34);
            push_byte(&mut out, 58);
            push_byte(&mut out, 34);
            push_plain_or_default(&mut out, msg);
            push_byte(&mut out, 34);
            push_byte(&mut out, 125);
            proof {
                assert(out@ =~= reply_bytes(*reply));
            }
        },
    }
    out.push(10);
    out
}

/// Append a string if every byte of it may stand in a quoted token,
/// else a fixed placeholder.
#[verifier::loop_isolation(false)]
fn push_plain_or_default(out: &mut Vec<u8>, s: &String)
    ensures
        final(out)@ == old(out)@ + quoted_or_placeholder(s@),
        final(out)@.len() >= old(out)@.len(),
        forall|i: int| 0 <= i < old(out)@.len() ==> final(out)@[i] == old(out)@[i],
        forall|i: int| old(out)@.len() <= i < final(out)@.len() ==> #[trigger] final(out)@[i] != 10u8,
{
    let st = s.as_str();
    if !st.is_ascii() {
        push_value_placeholder(out);
        return;
    }
    let n = str_len(st);
    let mut ok = true;
    let mut i: usize = 0;
    while i < n
        invariant
            i <= n,
            n == st@.len(),
            st.is_ascii(),
            ok ==> forall|k: int| #![trigger st@[k]] 0 <= k < i ==> plain_byte(st@[k] as u8),
            !ok ==> !plain_token(st@),
        decreases n - i,
    {
        let b = st.get_ascii(i);
        if b < 32 || b > 126 || b == 34 || b == 92 {
            proof {
                assert(!plain_byte(st@[i as int] as u8));
            }
            ok = false;
        }
        i = i + 1;
    }
    if ok {
        proof {
            assert forall|k: int| #![trigger st@[k]] 0 <= k < st@.len() implies plain_byte(
                st@[k] as u8,
            ) && (st@[k] as u32) < 128 by {
                assert(vstd::utf8::is_ascii_chars(st@));
                assert('\u{0}' <= st@[k] <= '\u{7f}');
            }
            assert(plain_token(st@));
        }
        push_literal(out, st);
    } else {
        push_value_placeholder(out);
    }
}

fn push_value_placeholder(out: &mut Vec<u8>)
    ensures
        final(out)@ == old(out)@ + seq![118u8, 97u8, 108u8, 117u8, 101u8],
        final(out)@.len() >= old(out)@.len(),
        forall|i: int| 0 <= i < old(out)@.len() ==> final(out)@[i] == old(out)@[i],
        forall|i: int|
            old(out)@.len() <= i < final(out)@.len() ==> #[trigger] final(out)@[i] != 10u8,
{
    push_byte(out, 118);
    push_byte(out, 97);
    push_byte(out, 108);
    push_byte(out, 117);
    push_byte(out, 101);
    proof {
        assert(final(out)@ =~= old(out)@ + seq![118u8, 97u8, 108u8, 117u8, 101u8]);
    }
}

/// Whether a key's characters spell the operation member.
pub open spec fn is_op_key(key: Seq<char>) -> bool {
    key.len() == 2 && key[0] as u8 == 111 && key[1] as u8 == 112
}

/// Whether a key's characters spell the arguments member.
pub open spec fn is_args_key(key: Seq<char>) -> bool {
    key.len() == 4 && key[0] as u8 == 97 && key[1] as u8 == 114 && key[2] as u8 == 103 && key[3]
        as u8 == 115
}

/// The members of a request object from position `i` (at a key) to the
/// closing brace: the operation name (required) and the arguments.
pub open spec fn spec_request_members(
    s: Seq<char>,
    i: int,
    op: Option<Seq<char>>,
    args: Seq<u64>,
) -> Option<((Seq<char>, Seq<u64>), int)>
    decreases s.len() - i when 0 <= i <= s.len()
{
    if i >= s.len() {
        None
    } else {
        match spec_string_token(s, i) {
            None => None,
            Some((key, jk0)) => {
                let jk = bounded(jk0, 0, s.len() as int);
                let jc = bounded(spec_skip_ws(s, jk), 0, s.len() as int);
                if !(jc < s.len() && s[jc] as u8 == 58) {
                    None
                } else {
                    let jv = bounded(
                        spec_skip_ws(s, bounded(jc + 1, 0, s.len() as int)),
                        0,
                        s.len() as int,
                    );
                    let step: Option<(Option<Seq<char>>, Seq<u64>, int)> = if is_op_key(key) {
                        match spec_string_token(s, jv) {
                            Some((val, jn0)) => Some((Some(val), args, jn0)),
                            None => None,
                        }
                    } else if is_args_key(key) {
                        if !(jv < s.len() && s[jv] as u8 == 91) {
                            None
                        } else {
                            let ji = bounded(
                                spec_skip_ws(s, bounded(jv + 1, 0, s.len() as int)),
                                0,
                                s.len() as int,
                            );
                            if ji < s.len() && s[ji] as u8 == 93 {
                                Some((op, args, ji + 1))
                            } else {
                                match spec_u64_list(s, ji, args) {
                                    Some((args2, jn0)) => Some((op, args2, jn0)),
                                    None => None,
                                }
                            }
                        }
                    } else {
                        None
                    };
                    match step {
                        None => None,
                        Some((op2, args2, jn0)) => {
                            let jn = bounded(jn0, 0, s.len() as int);
                            let ja = bounded(spec_skip_ws(s, jn), 0, s.len() as int);
                            if ja < s.len() && s[ja] as u8 == 44 {
                                let nx = bounded(
                                    spec_skip_ws(s, bounded(ja + 1, 0, s.len() as int)),
                                    i + 1,
                                    s.len() as int,
                                );
                                spec_request_members(s, nx, op2, args2)
                            } else if ja < s.len() && s[ja] as u8 == 125 {
                                match op2 {
                                    Some(o) => Some(((o, args2), ja + 1)),
                                    None => None,
                                }
                            } else {
                                None
                            }
                        },
                    }
                }
            },
        }
    }
}

/// The whole request grammar: optional whitespace, `{`, members with an
/// operation present, `}`, optional whitespace, end of line.
pub open spec fn spec_decode_request(s: Seq<char>) -> Option<(Seq<char>, Seq<u64>)> {
    let i0 = bounded(spec_skip_ws(s, 0), 0, s.len() as int);
    if !(i0 < s.len() && s[i0] as u8 == 123) {
        None
    } else {
        let i1 = bounded(spec_skip_ws(s, bounded(i0 + 1, 0, s.len() as int)), 0, s.len() as int);
        match spec_request_members(s, i1, None, Seq::empty()) {
            Some(((o, a), e)) => if only_ws_from(s, e) {
                Some((o, a))
            } else {
                None
            },
            None => None,
        }
    }
}

/// Decode one request line; `None` when the line is not a well-formed
/// request frame. The line must be ASCII.
#[verifier::loop_isolation(false)]
pub fn decode_request(line: &str) -> (r: Option<Request>)
    ensures
        r is Some <==> (line.is_ascii() && spec_decode_request(line@) is Some),
        r is Some ==> Some((r->0.op@, r->0.args@)) == spec_decode_request(line@),
        !line.is_ascii() ==> r is None,
{
    if !line.is_ascii() {
        return None;
    }
    let n = str_len(line);
    let mut i = skip_ws(line, 0);
    proof {
        assert(bounded(spec_skip_ws(line@, 0), 0, line@.len() as int) == i as int);
    }
    if i >= n || line.get_ascii(i) != 123 {
        return None;
    }
    let mut op: Option<String> = None;
    let mut args: Vec<u64> = Vec::new();
    let ghost iopen = i as int;
    i = skip_ws(line, i + 1);
    proof {
        assert(bounded(iopen + 1, 0, line@.len() as int) == iopen + 1);
        assert(bounded(spec_skip_ws(line@, iopen + 1), 0, line@.len() as int) == i as int);
    }
    let ghost i1 = i as int;
    loop
        invariant
            line.is_ascii(),
            n == line@.len(),
            i <= n,
            spec_request_members(line@, i as int, option_view(op), args@)
                == spec_request_members(line@, i1, None::<Seq<char>>, Seq::<u64>::empty()),
        decreases n - i,
    {
        let ghost jold = i as int;
        let ghost pre_op = option_view(op);
        let ghost pre_args = args@;
        if i >= n {
            return None;
        }
        let (key, jk) = match parse_string_token(line, i) {
            Ok(p) => p,
            Err(_) => {
                proof {
                    assert(spec_request_members(line@, jold, pre_op, pre_args) is None);
                }
                return None;
            },
        };
        proof {
            assert(Some((key@, jk as int)) == spec_string_token(line@, jold));
            assert(bounded(jk as int, 0, line@.len() as int) == jk as int);
        }
        let jc = skip_ws(line, jk);
        proof {
            assert(bounded(spec_skip_ws(line@, jk as int), 0, line@.len() as int) == jc as int);
        }
        if jc >= n || line.get_ascii(jc) != 58 {
            proof {
                assert(spec_request_members(line@, jold, pre_op, pre_args) is None);
            }
            return None;
        }
        let jv = skip_ws(line, jc + 1);
        proof {
            assert(bounded(jc as int + 1, 0, line@.len() as int) == jc + 1);
            assert(bounded(spec_skip_ws(line@, jc as int + 1), 0, line@.len() as int)
                == jv as int);
        }
        let kstr = key.as_str();
        proof {
            assert(kstr.is_ascii());
        }
        let kn = str_len(kstr);
        let is_op = kn == 2 && kstr.get_ascii(0) == 111 && kstr.get_ascii(1) == 112;
        let is_args = kn == 4 && kstr.get_ascii(0) == 97 && kstr.get_ascii(1) == 114
            && kstr.get_ascii(2) == 103 && kstr.get_ascii(3) == 115;
        proof {
            assert(is_op == is_op_key(key@));
            assert(is_args == is_args_key(key@));
        }
        let mut jn: usize = jv;
        if is_op {
            if jv >= n {
                proof {
                    assert(spec_string_token(line@, jv as int) is None);
                    assert(spec_request_members(line@, jold, pre_op, pre_args) is None);
                }
                return None;
            }
            let (val, j2) = match parse_string_token(line, jv) {
                Ok(p) => p,
                Err(_) => {
                    proof {
                        assert(spec_request_members(line@, jold, pre_op, pre_args) is None);
                    }
                    return None;
                },
            };
            op = Some(val);
            jn = j2;
        } else if is_args {
            if jv >= n || line.get_ascii(jv) != 91 {
                proof {
                    assert(spec_request_members(line@, jold, pre_op, pre_args) is None);
                }
                return None;
            }
            let ji = skip_ws(line, jv + 1);
            proof {
                assert(bounded(jv as int + 1, 0, line@.len() as int) == jv + 1);
                assert(bounded(spec_skip_ws(line@, jv as int + 1), 0, line@.len() as int)
                    == ji as int);
            }
            if ji < n && line.get_ascii(ji) == 93 {
                jn = ji + 1;
            } else {
                jn = match parse_u64_list(line, ji, &mut args) {
                    Some(j2) => j2,
                    None => {
                        proof {
                            assert(spec_u64_list(line@, ji as int, pre_args) is None);
                            assert(spec_request_members(line@, jold, pre_op, pre_args) is None);
                        }
                        return None;
                    },
                };
                proof {
                    assert(Some((args@, jn as int)) == spec_u64_list(
                        line@,
                        ji as int,
                        pre_args,
                    ));
                }
            }
        } else {
            proof {
                assert(spec_request_members(line@, jold, pre_op, pre_args) is None);
            }
            return None;
        }
        let ja = skip_ws(line, jn);
        proof {
            assert(bounded(jn as int, 0, line@.len() as int) == jn as int);
            assert(bounded(spec_skip_ws(line@, jn as int), 0, line@.len() as int) == ja as int);
        }
        if ja < n && line.get_ascii(ja) == 44 {
            i = skip_ws(line, ja + 1);
            proof {
                assert(bounded(ja as int + 1, 0, line@.len() as int) == ja + 1);
                assert(bounded(spec_skip_ws(line@, ja as int + 1), jold + 1, line@.len() as int)
                    == i as int);
                assert(spec_request_members(line@, jold, pre_op, pre_args)
                    == spec_request_members(line@, i as int, option_view(op), args@));
            }
        } else if ja < n && line.get_ascii(ja) == 125 {
            proof {
                assert(spec_request_members(line@, jold, pre_op, pre_args) == (match option_view(
                    op,
                ) {
                    Some(o) => Some(((o, args@), ja + 1)),
                    None => None::<((Seq<char>, Seq<u64>), int)>,
                }));
            }
            let iend = skip_ws(line, ja + 1);
            proof {
                assert(bounded(ja as int + 1, 0, line@.len() as int) == ja + 1);
            }
            if iend < n {
                proof {
                    assert(!only_ws_from(line@, ja as int + 1));
                }
                return None;
            }
            proof {
                assert(only_ws_from(line@, ja as int + 1));
            }
            return match op {
                Some(op) => Some(Request { op, args }),
                None => None,
            };
        } else {
            proof {
                assert(spec_request_members(line@, jold, pre_op, pre_args) is None);
            }
            return None;
        }
    }
}

/// Mathematical image of a reply value.
pub ghost enum WireValueView {
    Unit,
    Num(u64),
    Nums(Seq<u64>),
    Str(Seq<char>),
}

impl View for WireValue {
    type V = WireValueView;

    open spec fn view(&self) -> WireValueView {
        match self {
            WireValue::Unit => WireValueView::Unit,
            WireValue::Num(n) => WireValueView::Num(*n),
            WireValue::Nums(ns) => WireValueView::Nums(ns@),
            WireValue::Str(st) => WireValueView::Str(st@),
        }
    }
}

/// Mathematical image of a decoded reply.
pub open spec fn reply_view(r: Result<WireValue, String>) -> Result<WireValueView, Seq<char>> {
    match r {
        Ok(v) => Ok(v@),
        Err(m) => Err(m@),
    }
}

/// Whether a key's characters spell the success member.
pub open spec fn is_ok_key(key: Seq<char>) -> bool {
    key.len() == 2 && key[0] as u8 == 111 && key[1] as u8 == 107
}

/// Whether a key's characters spell the error member.
pub open spec fn is_err_key(key: Seq<char>) -> bool {
    key.len() == 3 && key[0] as u8 == 101 && key[1] as u8 == 114 && key[2] as u8 == 114
}

/// A success value at `jv`: `null`, a quoted string, a bracketed number
/// list, or a bare number.
pub open spec fn spec_reply_value(s: Seq<char>, jv: int) -> Option<(WireValueView, int)> {
    if !(0 <= jv < s.len()) {
        None
    } else if s[jv] as u8 == 110 {
        if jv + 4 <= s.len() && s[jv + 1] as u8 == 117 && s[jv + 2] as u8 == 108 && s[jv + 3]
            as u8 == 108 {
            Some((WireValueView::Unit, jv + 4))
        } else {
            None
        }
    } else if s[jv] as u8 == 34 {
        match spec_string_token(s, jv) {
            Some((v, e)) => Some((WireValueView::Str(v), e)),
            None => None,
        }
    } else if s[jv] as u8 == 91 {
        let ji = bounded(spec_skip_ws(s, bounded(jv + 1, 0, s.len() as int)), 0, s.len() as int);
        if ji < s.len() && s[ji] as u8 == 93 {
            Some((WireValueView::Nums(Seq::empty()), ji + 1))
        } else {
            match spec_u64_list(s, ji, Seq::empty()) {
                Some((ns, e)) => Some((WireValueView::Nums(ns), e)),
                None => None,
            }
        }
    } else {
        let end = bounded(spec_digits_end(s, bounded(jv, 0, s.len() as int)), 0, s.len() as int);
        if end == jv || dec_value(s.subrange(jv, end)) > u64::MAX {
            None
        } else {
            Some((WireValueView::Num(dec_value(s.subrange(jv, end)) as u64), end))
        }
    }
}

/// The whole reply grammar: optional whitespace, `{`, one `ok` or `err`
/// member, `}`, optional whitespace, end of line.
pub open spec fn spec_decode_reply(s: Seq<char>) -> Option<Result<WireValueView, Seq<char>>> {
    let i0 = bounded(spec_skip_ws(s, 0), 0, s.len() as int);
    if !(i0 < s.len() && s[i0] as u8 == 123) {
        None
    } else {
        let i1 = bounded(spec_skip_ws(s, bounded(i0 + 1, 0, s.len() as int)), 0, s.len() as int);
        match spec_string_token(s, i1) {
            None => None,
            Some((key, jk0)) => {
                let jk = bounded(jk0, 0, s.len() as int);
                let jc = bounded(spec_skip_ws(s, jk), 0, s.len() as int);
                if !(jc < s.len() && s[jc] as u8 == 58) {
                    None
                } else {
                    let jv = bounded(
                        spec_skip_ws(s, bounded(jc + 1, 0, s.len() as int)),
                        0,
                        s.len() as int,
                    );
                    let step: Option<(Result<WireValueView, Seq<char>>, int)> = if is_ok_key(
                        key,
                    ) {
                        match spec_reply_value(s, jv) {
                            Some((v, e)) => Some((Ok(v), e)),
                            None => None,
                        }
                    } else if is_err_key(key) {
                        match spec_string_token(s, jv) {
                            Some((m, e)) => Some((Err(m), e)),
                            None => None,
                        }
                    } else {
                        None
                    };
                    match step {
                        None => None,
                        Some((rep, jn0)) => {
                            let jn = bounded(jn0, 0, s.len() as int);
                            let ja = bounded(spec_skip_ws(s, jn), 0, s.len() as int);
                            if !(ja < s.len() && s[ja] as u8 == 125) {
                                None
                            } else if only_ws_from(s, ja + 1) {
                                Some(rep)
                            } else {
                                None
                            }
                        },
                    }
                }
            },
        }
    }
}

/// Decode one reply line: `{"ok": value}` or `{"err": message}`;
/// `None` when the line is not a well-formed reply frame. The line must
/// be ASCII.
#[verifier::loop_isolation(false)]
pub fn decode_reply(line: &str) -> (r: Option<Result<WireValue, String>>)
    ensures
        r is Some <==> (line.is_ascii() && spec_decode_reply(line@) is Some),
        r is Some ==> Some(reply_view(r->0)) == spec_decode_reply(line@),
        !line.is_ascii() ==> r is None,
{
    if !line.is_ascii() {
        return None;
    }
    let n = str_len(line);
    let mut i = skip_ws(line, 0);
    proof {
        assert(bounded(spec_skip_ws(line@, 0), 0, line@.len() as int) == i as int);
    }
    if i >= n || line.get_ascii(i) != 123 {
        return None;
    }
    let ghost iopen = i as int;
    i = skip_ws(line, i + 1);
    proof {
        assert(bounded(iopen + 1, 0, line@.len() as int) == iopen + 1);
        assert(bounded(spec_skip_ws(line@, iopen + 1), 0, line@.len() as int) == i as int);
    }
    if i >= n {
        return None;
    }
    let (key, jk) = match parse_string_token(line, i) {
        Ok(p) => p,
        Err(_) => {
            return None;
        },
    };
    proof {
        assert(Some((key@, jk as int)) == spec_string_token(line@, i as int));
        assert(bounded(jk as int, 0, line@.len() as int) == jk as int);
    }
    let jc = skip_ws(line, jk);
    proof {
        assert(bounded(spec_skip_ws(line@, jk as int), 0, line@.len() as int) == jc as int);
    }
    if jc >= n || line.get_ascii(jc) != 58 {
        return None;
    }
    let jv = skip_ws(line, jc + 1);
    proof {
        assert(bounded(jc as int + 1, 0, line@.len() as int) == jc + 1);
        assert(bounded(spec_skip_ws(line@, jc as int + 1), 0, line@.len() as int) == jv as int);
    }
    let kstr = key.as_str();
    proof {
        assert(kstr.is_ascii());
    }
    let kn = str_len(kstr);
    let is_ok = kn == 2 && kstr.get_ascii(0) == 111 && kstr.get_ascii(1) == 107;
    let is_err = kn == 3 && kstr.get_ascii(0) == 101 && kstr.get_ascii(1) == 114
        && kstr.get_ascii(2) == 114;
    proof {
        assert(is_ok == is_ok_key(key@));
        assert(is_err == is_err_key(key@));
    }
    if jv >= n {
        return None;
    }
    let reply: Result<WireValue, String>;
    let mut jn: usize = jv;
    if is_ok {
        let b = line.get_ascii(jv);
        if b == 110 {
            if n - jv < 4 || line.get_ascii(jv + 1) != 117 || line.get_ascii(jv + 2) != 108
                || line.get_ascii(jv + 3) != 108 {
                return None;
            }
            reply = Ok(WireValue::Unit);
            jn = jv + 4;
        } else if b == 34 {
            let (v, j2) = match parse_string_token(line, jv) {
                Ok(p) => p,
                Err(_) => {
                    return None;
                },
            };
            reply = Ok(WireValue::Str(v));
            jn = j2;
        } else if b == 91 {
            let mut ns: Vec<u64> = Vec::new();
            let ji = skip_ws(line, jv + 1);
            proof {
                assert(bounded(jv as int + 1, 0, line@.len() as int) == jv + 1);
                assert(bounded(spec_skip_ws(line@, jv as int + 1), 0, line@.len() as int)
                    == ji as int);
            }
            if ji < n && line.get_ascii(ji) == 93 {
                jn = ji + 1;
            } else {
                jn = match parse_u64_list(line, ji, &mut ns) {
                    Some(j2) => j2,
                    None => {
                        proof {
                            assert(spec_u64_list(line@, ji as int, Seq::<u64>::empty()) is None);
                        }
                        return None;
                    },
                };
                proof {
                    assert(Some((ns@, jn as int)) == spec_u64_list(
                        line@,
                        ji as int,
                        Seq::<u64>::empty(),
                    ));
                }
            }
            reply = Ok(WireValue::Nums(ns));
        } else {
            let (v, j2) = match parse_u64_dec(line, jv) {
                Ok(p) => p,
                Err(_) => {
                    proof {
                        lemma_digits_end_props(line@, jv as int);
                        assert(spec_reply_value(line@, jv as int) is None);
                    }
                    return None;
                },
            };
            proof {
                assert(bounded(jv as int, 0, line@.len() as int) == jv as int);
                assert(bounded(spec_digits_end(line@, jv as int), 0, line@.len() as int)
                    == j2 as int);
            }
            reply = Ok(WireValue::Num(v));
            jn = j2;
        }
    } else if is_err {
        let (v, j2) = match parse_string_token(line, jv) {
            Ok(p) => p,
            Err(_) => {
                return None;
            },
        };
        reply = Err(v);
        jn = j2;
    } else {
        return None;
    }
    let ja = skip_ws(line, jn);
    proof {
        assert(bounded(jn as int, 0, line@.len() as int) == jn as int);
        assert(bounded(spec_skip_ws(line@, jn as int), 0, line@.len() as int) == ja as int);
    }
    if ja >= n || line.get_ascii(ja) != 125 {
        return None;
    }
    let iend = skip_ws(line, ja + 1);
    proof {
        assert(bounded(ja as int + 1, 0, line@.len() as int) == ja + 1);
    }
    if iend < n {
        proof {
            assert(!only_ws_from(line@, ja as int + 1));
        }
        return None;
    }
    proof {
        assert(only_ws_from(line@, ja as int + 1));
    }
    Some(reply)
}

/// The operation names the server understands.
pub open spec fn known_op(op: Seq<char>) -> bool {
    ||| op == "refresh"@
    ||| op == "boards"@
    ||| op == "model"@
    ||| op == "version"@
    ||| op == "keymap_get"@
    ||| op == "keymap_set"@
    ||| op == "matrix_get"@
    ||| op == "color"@
    ||| op == "set_color"@
    ||| op == "max_brightness"@
    ||| op == "brightness"@
    ||| op == "set_brightness"@
    ||| op == "mode"@
    ||| op == "set_mode"@
    ||| op == "led_save"@
}

/// Full-range decimal number, for decoded wire arguments.
#[verifier::loop_isolation(false)]
fn parse_u64_dec(s: &str, i: usize) -> (r: Result<(u64, usize), ParseError>)
    requires
        s.is_ascii(),
        i <= s@.len(),
    ensures
        r is Ok <==> (spec_digits_end(s@, i as int) > i && dec_value(
            s@.subrange(i as int, spec_digits_end(s@, i as int)),
        ) <= u64::MAX),
        r is Ok ==> ({
            let (v, j) = r->Ok_0;
            &&& i < j <= s@.len()
            &&& j == spec_digits_end(s@, i as int)
            &&& forall|k: int| i <= k < j ==> is_digit_char(#[trigger] s@[k])
            &&& (j < s@.len() ==> !is_digit_char(s@[j as int]))
            &&& v as int == dec_value(s@.subrange(i as int, j as int))
        }),
{
    let ghost end = spec_digits_end(s@, i as int);
    proof {
        lemma_digits_end_props(s@, i as int);
    }
    let n = str_len(s);
    let mut v: u64 = 0;
    let mut j = i;
    while j < n
        invariant
            i <= j <= s@.len(),
            forall|k: int| i <= k < j ==> is_digit_char(#[trigger] s@[k]),
            v as int == dec_value(s@.subrange(i as int, j as int)),
        decreases s@.len() - j,
    {
        let b = s.get_ascii(j);
        if b < 48 || b > 57 {
            break;
        }
        proof {
            lemma_digits_end_at_least(s@, i as int, j + 1);
            assert(s@.subrange(i as int, j + 1).drop_last() =~= s@.subrange(i as int, j as int));
            assert(s@.subrange(i as int, j + 1).last() == s@[j as int]);
        }
        if v > u64::MAX / 10 {
            proof {
                lemma_dec_value_mono(s@, i as int, j + 1, end);
                assert(dec_value(s@.subrange(i as int, j + 1)) > u64::MAX);
            }
            return Err(ParseError::NumberRange);
        }
        v = v * 10;
        let d = (b - 48) as u64;
        if v > u64::MAX - d {
            proof {
                lemma_dec_value_mono(s@, i as int, j + 1, end);
            }
            return Err(ParseError::NumberRange);
        }
        v = v + d;
        j = j + 1;
    }
    proof {
        lemma_spec_digits_end_range(s@, i as int, j as int);
    }
    if j == i {
        return Err(ParseError::Syntax);
    }
    Ok((v, j))
}

/// A comma-separated list of decimal numbers from position `j` (at a
/// number) to the closing bracket: the numbers appended to `acc` and
/// the position after.
pub open spec fn spec_u64_list(s: Seq<char>, j: int, acc: Seq<u64>) -> Option<(Seq<u64>, int)>
    decreases s.len() - j when 0 <= j <= s.len()
{
    if j >= s.len() {
        None
    } else {
        let end = bounded(spec_digits_end(s, j), 0, s.len() as int);
        if end == j || dec_value(s.subrange(j, end)) > u64::MAX {
            None
        } else {
            let acc2 = acc.push(dec_value(s.subrange(j, end)) as u64);
            let ja = bounded(spec_skip_ws(s, end), 0, s.len() as int);
            if ja < s.len() && s[ja] as u8 == 44 {
                let nx = bounded(
                    spec_skip_ws(s, bounded(ja + 1, 0, s.len() as int)),
                    j + 1,
                    s.len() as int,
                );
                spec_u64_list(s, nx, acc2)
            } else if ja < s.len() && s[ja] as u8 == 93 {
                Some((acc2, ja + 1))
            } else {
                None
            }
        }
    }
}

/// Reads a nonempty bracketless number list up to `]`, appending to
/// `args`; yields the position after the bracket.
#[verifier::loop_isolation(false)]
fn parse_u64_list(s: &str, start: usize, args: &mut Vec<u64>) -> (r: Option<usize>)
    requires
        s.is_ascii(),
        start <= s@.len(),
    ensures
        r is Some <==> spec_u64_list(s@, start as int, old(args)@) is Some,
        r is Some ==> Some((final(args)@, r->0 as int)) == spec_u64_list(
            s@,
            start as int,
            old(args)@,
        ),
        r is Some ==> start < r->0 <= s@.len(),
{
    let n = str_len(s);
    let ghost j0 = start as int;
    let mut j = start;
    loop
        invariant
            s.is_ascii(),
            start <= j <= s@.len(),
            spec_u64_list(s@, j as int, args@) == spec_u64_list(s@, j0, old(args)@),
        decreases s@.len() - j,
    {
        let ghost jold = j as int;
        let ghost pre_args = args@;
        let (v, j2) = match parse_u64_dec(s, j) {
            Ok(p) => p,
            Err(_) => {
                proof {
                    if jold < s@.len() {
                        lemma_digits_end_props(s@, jold);
                        assert(spec_u64_list(s@, jold, pre_args) is None);
                    }
                }
                return None;
            },
        };
        args.push(v);
        proof {
            assert(bounded(spec_digits_end(s@, jold), 0, s@.len() as int) == j2 as int);
            assert(args@ =~= pre_args.push(v));
        }
        let ja = skip_ws(s, j2);
        proof {
            assert(bounded(spec_skip_ws(s@, j2 as int), 0, s@.len() as int) == ja as int);
        }
        if ja < n && s.get_ascii(ja) == 44 {
            j = skip_ws(s, ja + 1);
            proof {
                assert(bounded(ja as int + 1, 0, s@.len() as int) == ja + 1);
                assert(bounded(spec_skip_ws(s@, ja as int + 1), jold + 1, s@.len() as int)
                    == j as int);
                assert(spec_u64_list(s@, jold, pre_args) == spec_u64_list(s@, j as int, args@));
            }
        } else if ja < n && s.get_ascii(ja) == 93 {
            proof {
                assert(spec_u64_list(s@, jold, pre_args) == Some((args@, ja + 1)));
            }
            return Some(ja + 1);
        } else {
            proof {
                assert(spec_u64_list(s@, jold, pre_args) is None);
            }
            return None;
        }
    }
}

/// The reply value for a reported board list: each id as a number, in
/// the daemon's order.
pub fn ids_to_nums(ids: &Vec<BoardId>) -> (r: Vec<u64>)
    ensures
        r@.len() == ids@.len(),
        forall|k: int| 0 <= k < ids@.len() ==> r@[k] == (#[trigger] ids@[k]).0,
{
    let mut ns: Vec<u64> = Vec::new();
    let n = ids.len();
    let mut i: usize = 0;
    while i < n
        invariant
            i <= n,
            n == ids@.len(),
            ns@.len() == i,
            forall|k: int| 0 <= k < i ==> ns@[k] == (#[trigger] ids@[k]).0,
        decreases n - i,
    {
        ns.push(ids[i].0);
        i = i + 1;
    }
    ns
}

/// The reply value for a reported matrix: each byte as a number, in the
/// daemon's order.
pub fn bytes_to_nums(m: &Vec<u8>) -> (r: Vec<u64>)
    ensures
        r@.len() == m@.len(),
        forall|k: int| 0 <= k < m@.len() ==> r@[k] == #[trigger] m@[k] as u64,
{
    let mut ns: Vec<u64> = Vec::new();
    let n = m.len();
    let mut i: usize = 0;
    while i < n
        invariant
            i <= n,
            n == m@.len(),
            ns@.len() == i,
            forall|k: int| 0 <= k < i ==> ns@[k] == #[trigger] m@[k] as u64,
        decreases n - i,
    {
        ns.push(m[i] as u64);
        i = i + 1;
    }
    ns
}

fn op_is(op: &String, name: &str) -> (r: bool)
    ensures
        r == (op@ == name@),
{
    let o = String::from_str(name);
    op.eq(&o)
}

fn arg_board(args: &Vec<u64>, k: usize) -> (r: Option<BoardId>)
    ensures
        r is Some <==> k < args@.len(),
        r is Some ==> r->0 == BoardId(args@[k as int]),
{
    if k < args.len() {
        Some(BoardId(args[k]))
    } else {
        None
    }
}

fn arg_u8(args: &Vec<u64>, k: usize) -> (r: Option<u8>)
    ensures
        r is Some <==> (k < args@.len() && args@[k as int] <= 255),
        r is Some ==> r->0 == args@[k as int] as u8,
{
    if k < args.len() && args[k] <= 255 {
        Some(args[k] as u8)
    } else {
        None
    }
}

/// Dispatch one decoded request against a daemon and compute the reply
/// value. Unknown operations and malformed argument lists yield an
/// error reply; daemon errors pass through as error replies.
#[verifier::loop_isolation(false)]
pub fn handle_request<D: Daemon>(daemon: &mut D, req: &Request) -> (r: Result<WireValue, String>) {
    if op_is(&req.op, "refresh") {
        match daemon.refresh() {
            Ok(_) => Ok(WireValue::Unit),
            Err(e) => Err(e),
        }
    } else if op_is(&req.op, "boards") {
        match daemon.boards() {
            Ok(ids) => Ok(WireValue::Nums(ids_to_nums(&ids))),
            Err(e) => Err(e),
        }
    } else if op_is(&req.op, "model") {
        match arg_board(&req.args, 0) {
            Some(b) => match daemon.model(b) {
                Ok(m) => Ok(WireValue::Str(m)),
                Err(e) => Err(e),
            },
            None => Err("missing argument".to_owned()),
        }
    } else if op_is(&req.op, "version") {
        match arg_board(&req.args, 0) {
            Some(b) => match daemon.version(b) {
                Ok(m) => Ok(WireValue::Str(m)),
                Err(e) => Err(e),
            },
            None => Err("missing argument".to_owned()),
        }
    } else if op_is(&req.op, "keymap_get") {
        match (arg_board(&req.args, 0), arg_u8(&req.args, 1), arg_u8(&req.args, 2), arg_u8(
            &req.args,
            3,
        )) {
            (Some(b), Some(layer), Some(output), Some(input)) => {
                match daemon.keymap_get(b, layer, output, input) {
                    Ok(v) => Ok(WireValue::Num(v as u64)),
                    Err(e) => Err(e),
                }
            },
            _ => Err("missing argument".to_owned()),
        }
    } else if op_is(&req.op, "keymap_set") {
        let value = if req.args.len() > 4 && req.args[4] <= 65535 {
            Some(req.args[4] as u16)
        } else {
            None
        };
        match (arg_board(&req.args, 0), arg_u8(&req.args, 1), arg_u8(&req.args, 2), arg_u8(
            &req.args,
            3,
        ), value) {
            (Some(b), Some(layer), Some(output), Some(input), Some(v)) => {
                match daemon.keymap_set(b, layer, output, input, v) {
                    Ok(_) => Ok(WireValue::Unit),
                    Err(e) => Err(e),
                }
            },
            _ => Err("missing argument".to_owned()),
        }
    } else if op_is(&req.op, "matrix_get") {
        match arg_board(&req.args, 0) {
            Some(b) => match daemon.matrix_get(b) {
                Ok(m) => Ok(WireValue::Nums(bytes_to_nums(&m))),
                Err(e) => Err(e),
            },
            None => Err("missing argument".to_owned()),
        }
    } else if op_is(&req.op, "color") {
        match (arg_board(&req.args, 0), arg_u8(&req.args, 1)) {
            (Some(b), Some(index)) => match daemon.color(b, index) {
                Ok(c) => {
                    let mut ns: Vec<u64> = Vec::new();
                    ns.push(c.r as u64);
                    ns.push(c.g as u64);
                    ns.push(c.b as u64);
                    Ok(WireValue::Nums(ns))
                },
                Err(e) => Err(e),
            },
            _ => Err("missing argument".to_owned()),
        }
    } else if op_is(&req.op, "set_color") {
        match (arg_board(&req.args, 0), arg_u8(&req.args, 1), arg_u8(&req.args, 2), arg_u8(
            &req.args,
            3,
        ), arg_u8(&req.args, 4)) {
            (Some(b), Some(index), Some(cr), Some(cg), Some(cb)) => {
                match daemon.set_color(b, index, Rgb { r: cr, g: cg, b: cb }) {
                    Ok(_) => Ok(WireValue::Unit),
                    Err(e) => Err(e),
                }
            },
            _ => Err("missing argument".to_owned()),
        }
    } else if op_is(&req.op, "max_brightness") {
        match arg_board(&req.args, 0) {
            Some(b) => match daemon.max_brightness(b) {
                Ok(v) => Ok(WireValue::Num(if v >= 0 {
                    v as u64
                } else {
                    0
                })),
                Err(e) => Err(e),
            },
            None => Err("missing argument".to_owned()),
        }
    } else if op_is(&req.op, "brightness") {
        match (arg_board(&req.args, 0), arg_u8(&req.args, 1)) {
            (Some(b), Some(index)) => match daemon.brightness(b, index) {
                Ok(v) => Ok(WireValue::Num(if v >= 0 {
                    v as u64
                } else {
                    0
                })),
                Err(e) => Err(e),
            },
            _ => Err("missing argument".to_owned()),
        }
    } else if op_is(&req.op, "set_brightness") {
        let value = if req.args.len() > 2 && req.args[2] <= 0x7fffffff {
            Some(req.args[2] as i32)
        } else {
            None
        };
        match (arg_board(&req.args, 0), arg_u8(&req.args, 1), value) {
            (Some(b), Some(index), Some(v)) => match daemon.set_brightness(b, index, v) {
                Ok(_) => Ok(WireValue::Unit),
                Err(e) => Err(e),
            },
            _ => Err("missing argument".to_owned()),
        }
    } else if op_is(&req.op, "mode") {
        match (arg_board(&req.args, 0), arg_u8(&req.args, 1)) {
            (Some(b), Some(layer)) => match daemon.mode(b, layer) {
                Ok((m, sp)) => {
                    let mut ns: Vec<u64> = Vec::new();
                    ns.push(m as u64);
                    ns.push(sp as u64);
                    Ok(WireValue::Nums(ns))
                },
                Err(e) => Err(e),
            },
            _ => Err("missing argument".to_owned()),
        }
    } else if op_is(&req.op, "set_mode") {
        match (arg_board(&req.args, 0), arg_u8(&req.args, 1), arg_u8(&req.args, 2), arg_u8(
            &req.args,
            3,
        )) {
            (Some(b), Some(layer), Some(m), Some(sp)) => match daemon.set_mode(b, layer, m, sp) {
                Ok(_) => Ok(WireValue::Unit),
                Err(e) => Err(e),
            },
            _ => Err("missing argument".to_owned()),
        }
    } else if op_is(&req.op, "led_save") {
        match arg_board(&req.args, 0) {
            Some(b) => match daemon.led_save(b) {
                Ok(_) => Ok(WireValue::Unit),
                Err(e) => Err(e),
            },
            None => Err("missing argument".to_owned()),
        }
    } else {
        Err("unknown operation".to_owned())
    }
}

} // verus!
