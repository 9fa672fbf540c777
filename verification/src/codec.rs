//! The resource codec: the wire JSON representation of a user record
//! and its verified reader and writer.
//!
//! The accepted bodies are objects with the keys `id` (an integer or
//! null, and optional), `name` and `email` (strings), in any order,
//! each at most once; members under other keys are read and ignored.
//! String literals take the JSON escapes, including `\uXXXX` with
//! surrogate pairs, and refuse raw control characters.
use vstd::prelude::*;
use crate::num::{
    digits_count, dec_val, pow10, is_digit, digit_char, int_digits, count_digits_from,
    dec_value_at, push_nat, lemma_digits_count_le_len, lemma_dec_val_lower, lemma_pow10_le,
    lemma_int_digits_wf, lemma_dec_val_int_digits, lemma_digits_count_concat,
};
use crate::user::{User, UserView};

verus! {

pub open spec fn is_ws(c: char) -> bool {
    c == ' ' || c == '\t' || c == '\n' || c == '\r'
}

/// How many whitespace characters stand at the front of `s`.
pub open spec fn ws_count(s: Seq<char>) -> int
    decreases s.len(),
{
    if s.len() > 0 && is_ws(s[0]) {
        1 + ws_count(s.skip(1))
    } else {
        0
    }
}

/// A control character, which JSON forbids raw inside a string.
pub open spec fn is_ctrl(c: char) -> bool {
    (c as u32) < 0x20
}

pub open spec fn is_hex_digit(c: char) -> bool {
    ('0' <= c && c <= '9') || ('a' <= c && c <= 'f') || ('A' <= c && c <= 'F')
}

pub open spec fn hex_digit_val(c: char) -> int {
    if '0' <= c && c <= '9' {
        c as int - '0' as int
    } else if 'a' <= c && c <= 'f' {
        10 + c as int - 'a' as int
    } else {
        10 + c as int - 'A' as int
    }
}

/// Four hex digits stand at position `i`.
pub open spec fn is_hex4_at(s: Seq<char>, i: int) -> bool {
    &&& i + 4 <= s.len()
    &&& is_hex_digit(s[i])
    &&& is_hex_digit(s[i + 1])
    &&& is_hex_digit(s[i + 2])
    &&& is_hex_digit(s[i + 3])
}

/// The value of the four hex digits at position `i`.
pub open spec fn hex4_at(s: Seq<char>, i: int) -> int {
    4096 * hex_digit_val(s[i]) + 256 * hex_digit_val(s[i + 1]) + 16 * hex_digit_val(s[i + 2])
        + hex_digit_val(s[i + 3])
}

/// The character of a Unicode scalar value.
pub open spec fn cp_char(v: int) -> char {
    (v as u32) as char
}

/// What a single-character backslash escape stands for.
pub open spec fn unescape_char(c: char) -> Option<char> {
    if c == '"' {
        Some('"')
    } else if c == '\\' {
        Some('\\')
    } else if c == '/' {
        Some('/')
    } else if c == 'n' {
        Some('\n')
    } else if c == 't' {
        Some('\t')
    } else if c == 'r' {
        Some('\r')
    } else if c == 'b' {
        Some('\u{8}')
    } else if c == 'f' {
        Some('\u{c}')
    } else {
        None
    }
}

/// The inside of a string literal, read up to and including the
/// closing quote: the content and the count of characters consumed.
pub open spec fn parse_str_body(s: Seq<char>) -> Option<(Seq<char>, int)>
    decreases s.len(),
{
    if s.len() == 0 {
        None
    } else if s[0] == '"' {
        Some((Seq::empty(), 1))
    } else if s[0] == '\\' {
        if s.len() >= 2 && s[1] == 'u' {
            if is_hex4_at(s, 2) {
                let v = hex4_at(s, 2);
                if 0xD800 <= v <= 0xDBFF {
                    // a high surrogate must pair with a following low one
                    if s.len() >= 12 && s[6] == '\\' && s[7] == 'u' && is_hex4_at(s, 8) {
                        let w = hex4_at(s, 8);
                        if 0xDC00 <= w <= 0xDFFF {
                            let cp = 0x10000 + (v - 0xD800) * 0x400 + (w - 0xDC00);
                            match parse_str_body(s.skip(12)) {
                                Some(r) => Some((seq![cp_char(cp)] + r.0, 12 + r.1)),
                                None => None,
                            }
                        } else {
                            None
                        }
                    } else {
                        None
                    }
                } else if 0xDC00 <= v <= 0xDFFF {
                    None
                } else {
                    match parse_str_body(s.skip(6)) {
                        Some(r) => Some((seq![cp_char(v)] + r.0, 6 + r.1)),
                        None => None,
                    }
                }
            } else {
                None
            }
        } else if s.len() >= 2 {
            match unescape_char(s[1]) {
                Some(c) => match parse_str_body(s.skip(2)) {
                    Some(r) => Some((seq![c] + r.0, 2 + r.1)),
                    None => None,
                },
                None => None,
            }
        } else {
            None
        }
    } else if is_ctrl(s[0]) {
        None
    } else {
        match parse_str_body(s.skip(1)) {
            Some(r) => Some((seq![s[0]] + r.0, 1 + r.1)),
            None => None,
        }
    }
}

/// A string literal with both quotes.
pub open spec fn parse_jstring(s: Seq<char>) -> Option<(Seq<char>, int)> {
    if s.len() > 0 && s[0] == '"' {
        match parse_str_body(s.skip(1)) {
            Some(r) => Some((r.0, 1 + r.1)),
            None => None,
        }
    } else {
        None
    }
}

/// An unsigned JSON numeral: digits only, no leading zero unless the
/// numeral is exactly zero.
pub open spec fn parse_jnat(s: Seq<char>) -> Option<(int, int)> {
    let k = digits_count(s);
    if k == 0 {
        None
    } else if s[0] == '0' && k > 1 {
        None
    } else {
        Some((dec_val(s.take(k)), k))
    }
}

/// A JSON integer that fits a signed 32-bit value.
pub open spec fn parse_jint(s: Seq<char>) -> Option<(int, int)> {
    let r = if s.len() > 0 && s[0] == '-' {
        match parse_jnat(s.skip(1)) {
            Some(p) => Some((-p.0, 1 + p.1)),
            None => None,
        }
    } else {
        parse_jnat(s)
    };
    match r {
        Some(p) => if i32::MIN <= p.0 <= i32::MAX {
            Some(p)
        } else {
            None
        },
        None => None,
    }
}

pub open spec fn lit_null() -> Seq<char> {
    seq!['n', 'u', 'l', 'l']
}

pub open spec fn key_id() -> Seq<char> {
    seq!['i', 'd']
}

pub open spec fn key_name() -> Seq<char> {
    seq!['n', 'a', 'm', 'e']
}

pub open spec fn key_email() -> Seq<char> {
    seq!['e', 'm', 'a', 'i', 'l']
}

pub open spec fn lit_true() -> Seq<char> {
    seq!['t', 'r', 'u', 'e']
}

pub open spec fn lit_false() -> Seq<char> {
    seq!['f', 'a', 'l', 's', 'e']
}

/// The length of the optional fraction part at the front of `s`:
/// nothing, or a dot followed by at least one digit.
pub open spec fn frac_len(s: Seq<char>) -> Option<int> {
    if s.len() > 0 && s[0] == '.' {
        let d = digits_count(s.skip(1));
        if d == 0 {
            None
        } else {
            Some(1 + d)
        }
    } else {
        Some(0)
    }
}

/// The length of the optional exponent part at the front of `s`:
/// nothing, or `e`/`E`, an optional sign, and at least one digit.
pub open spec fn exp_len(s: Seq<char>) -> Option<int> {
    if s.len() > 0 && (s[0] == 'e' || s[0] == 'E') {
        let sg: int = if s.len() > 1 && (s[1] == '+' || s[1] == '-') {
            1
        } else {
            0
        };
        let d = digits_count(s.skip(1 + sg));
        if d == 0 {
            None
        } else {
            Some(1 + sg + d)
        }
    } else {
        Some(0)
    }
}

/// How many characters a JSON number occupies at the front of `s`.
pub open spec fn skip_number(s: Seq<char>) -> Option<int> {
    let neg: int = if s.len() > 0 && s[0] == '-' {
        1
    } else {
        0
    };
    let b = s.skip(neg);
    let k = digits_count(b);
    if k == 0 {
        None
    } else if b[0] == '0' && k > 1 {
        None
    } else {
        match frac_len(s.skip(neg + k)) {
            None => None,
            Some(fl) => match exp_len(s.skip(neg + k + fl)) {
                None => None,
                Some(el) => Some(neg + k + fl + el),
            },
        }
    }
}

/// What an unknown member's value occupies.  Opaque so that readers
/// of the user object stay abstract over the general value grammar;
/// the remaining length is always fuel enough.
#[verifier::opaque]
pub open spec fn skip_member_value(s: Seq<char>) -> Option<int> {
    skip_value(s, s.len() as nat)
}

/// How many characters one JSON value of any shape occupies at the
/// front of `s`.  The fuel bounds nesting depth and member counts;
/// each spent unit stands for at least one consumed character, so
/// the remaining length is always fuel enough.
pub open spec fn skip_value(s: Seq<char>, fuel: nat) -> Option<int>
    decreases fuel, 0int,
{
    if fuel == 0 || s.len() == 0 {
        None
    } else if s[0] == '"' {
        match parse_str_body(s.skip(1)) {
            Some(r) => Some(1 + r.1),
            None => None,
        }
    } else if s[0] == '{' {
        let s1 = s.skip(1);
        let w = ws_count(s1);
        let s2 = s1.skip(w);
        if s2.len() > 0 && s2[0] == '}' {
            Some(2 + w)
        } else {
            match skip_obj_items(s1, (fuel - 1) as nat) {
                Some(n) => Some(1 + n),
                None => None,
            }
        }
    } else if s[0] == '[' {
        let s1 = s.skip(1);
        let w = ws_count(s1);
        let s2 = s1.skip(w);
        if s2.len() > 0 && s2[0] == ']' {
            Some(2 + w)
        } else {
            match skip_arr_items(s1, (fuel - 1) as nat) {
                Some(n) => Some(1 + n),
                None => None,
            }
        }
    } else if s.len() >= 4 && s.subrange(0, 4) == lit_null() {
        Some(4)
    } else if s.len() >= 4 && s.subrange(0, 4) == lit_true() {
        Some(4)
    } else if s.len() >= 5 && s.subrange(0, 5) == lit_false() {
        Some(5)
    } else {
        skip_number(s)
    }
}

/// Members of an object, read after its opening brace: how many
/// characters up to and including the closing brace.
pub open spec fn skip_obj_items(s: Seq<char>, fuel: nat) -> Option<int>
    decreases fuel, 1int,
{
    let w = ws_count(s);
    let s1 = s.skip(w);
    match parse_jstring(s1) {
        None => None,
        Some(kr) => {
            let s2 = s1.skip(kr.1);
            let w2 = ws_count(s2);
            let s3 = s2.skip(w2);
            if s3.len() == 0 || s3[0] != ':' {
                None
            } else {
                let s4 = s3.skip(1);
                let w3 = ws_count(s4);
                let s5 = s4.skip(w3);
                match skip_value(s5, fuel) {
                    None => None,
                    Some(n) => {
                        let pre = w + kr.1 + w2 + 1 + w3 + n;
                        let s6 = s5.skip(n);
                        let w4 = ws_count(s6);
                        let s7 = s6.skip(w4);
                        if s7.len() == 0 {
                            None
                        } else if s7[0] == '}' {
                            Some(pre + w4 + 1)
                        } else if s7[0] == ',' && fuel > 0 {
                            match skip_obj_items(s7.skip(1), (fuel - 1) as nat) {
                                Some(m) => Some(pre + w4 + 1 + m),
                                None => None,
                            }
                        } else {
                            None
                        }
                    },
                }
            }
        },
    }
}

/// Elements of an array, read after its opening bracket: how many
/// characters up to and including the closing bracket.
pub open spec fn skip_arr_items(s: Seq<char>, fuel: nat) -> Option<int>
    decreases fuel, 1int,
{
    let w = ws_count(s);
    let s1 = s.skip(w);
    match skip_value(s1, fuel) {
        None => None,
        Some(n) => {
            let s2 = s1.skip(n);
            let w2 = ws_count(s2);
            let s3 = s2.skip(w2);
            if s3.len() == 0 {
                None
            } else if s3[0] == ']' {
                Some(w + n + w2 + 1)
            } else if s3[0] == ',' && fuel > 0 {
                match skip_arr_items(s3.skip(1), (fuel - 1) as nat) {
                    Some(m) => Some(w + n + w2 + 1 + m),
                    None => None,
                }
            } else {
                None
            }
        },
    }
}

/// Relies on the standard library's `char::from_u32`: the character
/// of a Unicode scalar value, and `None` exactly off the scalar
/// range.
pub assume_specification[ char::from_u32 ](v: u32) -> (r: Option<char>)
    ensures
        match r {
            Some(c) => vstd::utf8::is_scalar(v) && c as u32 == v,
            None => !vstd::utf8::is_scalar(v),
        },
;

/// The value of the `id` key: null, or an integer.
pub open spec fn parse_id_value(s: Seq<char>) -> Option<(Option<int>, int)> {
    if s.len() >= 4 && s.subrange(0, 4) == lit_null() {
        Some((None, 4))
    } else {
        match parse_jint(s) {
            Some(p) => Some((Some(p.0), p.1)),
            None => None,
        }
    }
}

/// The fields gathered so far while reading an object; the outer
/// option of `id` says whether the key appeared at all.
pub ghost struct AccView {
    pub id: Option<Option<int>>,
    pub name: Option<Seq<char>>,
    pub email: Option<Seq<char>>,
}

pub open spec fn acc_empty() -> AccView {
    AccView { id: None, name: None, email: None }
}

/// One `"key": value` member, applied to the accumulator.  A known
/// key already seen fails; an unknown key's value is read and
/// ignored, as the original's deserializer ignored unknown fields.
pub open spec fn parse_member(s: Seq<char>, acc: AccView) -> Option<(AccView, int)> {
    let w = ws_count(s);
    let s1 = s.skip(w);
    match parse_jstring(s1) {
        None => None,
        Some(kr) => {
            let s2 = s1.skip(kr.1);
            let w2 = ws_count(s2);
            let s3 = s2.skip(w2);
            if s3.len() == 0 || s3[0] != ':' {
                None
            } else {
                let s4 = s3.skip(1);
                let w3 = ws_count(s4);
                let s5 = s4.skip(w3);
                let pre = w + kr.1 + w2 + 1 + w3;
                if kr.0 == key_id() {
                    if acc.id is Some {
                        None
                    } else {
                        match parse_id_value(s5) {
                            Some(vr) => Some(
                                (AccView { id: Some(vr.0), name: acc.name, email: acc.email }, pre + vr.1),
                            ),
                            None => None,
                        }
                    }
                } else if kr.0 == key_name() {
                    if acc.name is Some {
                        None
                    } else {
                        match parse_jstring(s5) {
                            Some(vr) => Some(
                                (AccView { id: acc.id, name: Some(vr.0), email: acc.email }, pre + vr.1),
                            ),
                            None => None,
                        }
                    }
                } else if kr.0 == key_email() {
                    if acc.email is Some {
                        None
                    } else {
                        match parse_jstring(s5) {
                            Some(vr) => Some(
                                (AccView { id: acc.id, name: acc.name, email: Some(vr.0) }, pre + vr.1),
                            ),
                            None => None,
                        }
                    }
                } else {
                    match skip_member_value(s5) {
                        Some(n) => Some((acc, pre + n)),
                        None => None,
                    }
                }
            }
        },
    }
}

/// The members of an object after the opening brace, up to and
/// including the closing brace.  The fuel bounds how many commas can
/// follow; each one consumes a character, so the remaining length is
/// always fuel enough.
pub open spec fn parse_members(s: Seq<char>, acc: AccView, fuel: nat) -> Option<(AccView, int)>
    decreases fuel,
{
    match parse_member(s, acc) {
        None => None,
        Some(mr) => {
            let s2 = s.skip(mr.1);
            let w = ws_count(s2);
            let s3 = s2.skip(w);
            if s3.len() == 0 {
                None
            } else if s3[0] == '}' {
                Some((mr.0, mr.1 + w + 1))
            } else if s3[0] == ',' && fuel > 0 {
                match parse_members(s3.skip(1), mr.0, (fuel - 1) as nat) {
                    Some(r2) => Some((r2.0, mr.1 + w + 1 + r2.1)),
                    None => None,
                }
            } else {
                None
            }
        },
    }
}

/// A finished object: both `name` and `email` must have appeared.
pub open spec fn acc_finish(acc: AccView) -> Option<UserView> {
    match (acc.name, acc.email) {
        (Some(n), Some(e)) => Some(
            UserView {
                id: match acc.id {
                    Some(v) => v,
                    None => None,
                },
                name: n,
                email: e,
            },
        ),
        _ => None,
    }
}

/// What a body decodes to: one user object, surrounded by nothing
/// but whitespace, or nothing at all.
pub open spec fn spec_decode(s: Seq<char>) -> Option<UserView> {
    let w = ws_count(s);
    let s1 = s.skip(w);
    if s1.len() == 0 || s1[0] != '{' {
        None
    } else {
        match parse_members(s1.skip(1), acc_empty(), s1.skip(1).len()) {
            None => None,
            Some(mr) => {
                let s2 = s1.skip(1).skip(mr.1);
                if ws_count(s2) == s2.len() {
                    acc_finish(mr.0)
                } else {
                    None
                }
            },
        }
    }
}

/// Relies on the standard library's `String::from_iter`: the string
/// holds exactly the characters of the vector, in order.
#[verifier::external_body]
fn chars_to_string(v: Vec<char>) -> (s: String)
    ensures
        s@ == v@,
{
    String::from_iter(v.into_iter())
}

fn ws_count_at(s: &str, len: usize, i: usize) -> (n: usize)
    requires
        len == s@.len(),
        i <= len,
    ensures
        n == ws_count(s@.skip(i as int)),
        i + n <= len,
    decreases len - i,
{
    if i < len {
        let c = s.get_char(i);
        if c == ' ' || c == '\t' || c == '\n' || c == '\r' {
            let rest = ws_count_at(s, len, i + 1);
            proof {
                assert(s@.skip(i as int)[0] == s@[i as int]);
                assert(s@.skip(i as int).skip(1) =~= s@.skip(i as int + 1));
            }
            1 + rest
        } else {
            proof {
                assert(s@.skip(i as int)[0] == s@[i as int]);
            }
            0
        }
    } else {
        proof {
            assert(s@.skip(i as int).len() == 0);
        }
        0
    }
}

/// The value of one hex digit.
fn hex_val_of(c: char) -> (r: Option<u32>)
    ensures
        match r {
            Some(v) => is_hex_digit(c) && v as int == hex_digit_val(c) && v < 16,
            None => !is_hex_digit(c),
        },
{
    if '0' <= c && c <= '9' {
        Some(c as u32 - '0' as u32)
    } else if 'a' <= c && c <= 'f' {
        Some(10 + (c as u32 - 'a' as u32))
    } else if 'A' <= c && c <= 'F' {
        Some(10 + (c as u32 - 'A' as u32))
    } else {
        None
    }
}

/// Read four hex digits at position `j`.
fn read_hex4(s: &str, len: usize, j: usize) -> (r: Option<u32>)
    requires
        len == s@.len(),
        j <= len,
    ensures
        match r {
            Some(v) => {
                &&& j + 4 <= len
                &&& is_hex_digit(s@[j as int]) && is_hex_digit(s@[j as int + 1]) && is_hex_digit(
                    s@[j as int + 2],
                ) && is_hex_digit(s@[j as int + 3])
                &&& v as int == 4096 * hex_digit_val(s@[j as int]) + 256 * hex_digit_val(
                    s@[j as int + 1],
                ) + 16 * hex_digit_val(s@[j as int + 2]) + hex_digit_val(s@[j as int + 3])
                &&& v < 0x10000
            },
            None => !(j + 4 <= len && is_hex_digit(s@[j as int]) && is_hex_digit(s@[j as int + 1])
                && is_hex_digit(s@[j as int + 2]) && is_hex_digit(s@[j as int + 3])),
        },
{
    if len - j < 4 {
        return None;
    }
    let h0 = match hex_val_of(s.get_char(j)) {
        None => {
            return None;
        },
        Some(v) => v,
    };
    let h1 = match hex_val_of(s.get_char(j + 1)) {
        None => {
            return None;
        },
        Some(v) => v,
    };
    let h2 = match hex_val_of(s.get_char(j + 2)) {
        None => {
            return None;
        },
        Some(v) => v,
    };
    let h3 = match hex_val_of(s.get_char(j + 3)) {
        None => {
            return None;
        },
        Some(v) => v,
    };
    Some(4096 * h0 + 256 * h1 + 16 * h2 + h3)
}

/// The character of a Unicode scalar value.
fn char_of_scalar(v: u32) -> (c: char)
    requires
        vstd::utf8::is_scalar(v),
    ensures
        c == cp_char(v as int),
        c as u32 == v,
{
    match char::from_u32(v) {
        Some(c) => {
            proof {
                vstd::utf8::char_u32_cast(c, v);
            }
            c
        },
        None => {
            proof {
                assert(false);
            }
            ' '
        },
    }
}

/// Read a string literal's inside from position `i` (just after the
/// opening quote); give back the content and the position after the
/// closing quote.
fn parse_str_body_at(s: &str, len: usize, i: usize) -> (r: Option<(Vec<char>, usize)>)
    requires
        len == s@.len(),
        i <= len,
    ensures
        match r {
            Some(p) => {
                &&& i <= p.1 <= len
                &&& parse_str_body(s@.skip(i as int)) == Some((p.0@, p.1 - i as int))
            },
            None => parse_str_body(s@.skip(i as int)) is None,
        },
    decreases len - i, 1int,
{
    let ghost w = s@.skip(i as int);
    if i >= len {
        return None;
    }
    let c = s.get_char(i);
    proof {
        assert(w[0] == s@[i as int]);
    }
    if c == '"' {
        let v: Vec<char> = Vec::new();
        proof {
            assert(v@ =~= Seq::<char>::empty());
        }
        Some((v, i + 1))
    } else if c == '\\' {
        if i + 1 >= len {
            proof {
                assert(w.len() < 2);
            }
            return None;
        }
        let e = s.get_char(i + 1);
        proof {
            assert(w[1] == s@[i as int + 1]);
        }
        if e == 'u' {
            return parse_hex_escape(s, len, i);
        }
        let u: Option<char> = if e == '"' {
            Some('"')
        } else if e == '\\' {
            Some('\\')
        } else if e == '/' {
            Some('/')
        } else if e == 'n' {
            Some('\n')
        } else if e == 't' {
            Some('\t')
        } else if e == 'r' {
            Some('\r')
        } else if e == 'b' {
            Some('\u{8}')
        } else if e == 'f' {
            Some('\u{c}')
        } else {
            None
        };
        proof {
            assert(u == unescape_char(s@[i as int + 1]));
        }
        match u {
            None => None,
            Some(uc) => {
                proof {
                    assert(w.skip(2) =~= s@.skip(i as int + 2));
                }
                match parse_str_body_at(s, len, i + 2) {
                    None => None,
                    Some(p) => {
                        let (mut v, j) = p;
                        v.insert(0, uc);
                        proof {
                            let rest = parse_str_body(s@.skip(i as int + 2)).unwrap();
                            assert(v@ =~= seq![uc] + rest.0);
                        }
                        Some((v, j))
                    },
                }
            },
        }
    } else if (c as u32) < 0x20 {
        proof {
            assert(is_ctrl(w[0]));
        }
        None
    } else {
        proof {
            assert(w.skip(1) =~= s@.skip(i as int + 1));
        }
        match parse_str_body_at(s, len, i + 1) {
            None => None,
            Some(p) => {
                let (mut v, j) = p;
                v.insert(0, c);
                proof {
                    let rest = parse_str_body(s@.skip(i as int + 1)).unwrap();
                    assert(v@ =~= seq![c] + rest.0);
                }
                Some((v, j))
            },
        }
    }
}

/// Read a `\u` escape standing at position `i` (at its backslash),
/// and then the rest of the string literal.
#[verifier::rlimit(60)]
fn parse_hex_escape(s: &str, len: usize, i: usize) -> (r: Option<(Vec<char>, usize)>)
    requires
        len == s@.len(),
        i + 1 < len,
        s@[i as int] == '\\',
        s@[i as int + 1] == 'u',
    ensures
        match r {
            Some(p) => {
                &&& i <= p.1 <= len
                &&& parse_str_body(s@.skip(i as int)) == Some((p.0@, p.1 - i as int))
            },
            None => parse_str_body(s@.skip(i as int)) is None,
        },
    decreases len - i, 0int,
{
    let ghost w = s@.skip(i as int);
    proof {
        assert(w[0] == s@[i as int]);
        assert(w[1] == s@[i as int + 1]);
    }
    let v = match read_hex4(s, len, i + 2) {
        None => {
            proof {
                assert(!is_hex4_at(w, 2)) by {
                    if is_hex4_at(w, 2) {
                        assert(w[2] == s@[i as int + 2]);
                        assert(w[3] == s@[i as int + 3]);
                        assert(w[4] == s@[i as int + 4]);
                        assert(w[5] == s@[i as int + 5]);
                    }
                }
            }
            return None;
        },
        Some(v) => v,
    };
    proof {
        assert(w[2] == s@[i as int + 2]);
        assert(w[3] == s@[i as int + 3]);
        assert(w[4] == s@[i as int + 4]);
        assert(w[5] == s@[i as int + 5]);
        assert(is_hex4_at(w, 2));
        assert(hex4_at(w, 2) == v as int);
    }
    if 0xD800 <= v && v <= 0xDBFF {
        // a high surrogate must pair with a following low one
        if len - i < 8 {
            proof {
                assert(w.len() < 12);
            }
            return None;
        }
        if !(s.get_char(i + 6) == '\\' && s.get_char(i + 7) == 'u') {
            proof {
                assert(w[6] == s@[i as int + 6]);
                assert(w[7] == s@[i as int + 7]);
            }
            return None;
        }
        proof {
            assert(w[6] == s@[i as int + 6]);
            assert(w[7] == s@[i as int + 7]);
        }
        let v2 = match read_hex4(s, len, i + 8) {
            None => {
                proof {
                    assert(!is_hex4_at(w, 8)) by {
                        if is_hex4_at(w, 8) {
                            assert(w[8] == s@[i as int + 8]);
                            assert(w[9] == s@[i as int + 9]);
                            assert(w[10] == s@[i as int + 10]);
                            assert(w[11] == s@[i as int + 11]);
                        }
                    }
                }
                return None;
            },
            Some(v2) => v2,
        };
        proof {
            assert(w[8] == s@[i as int + 8]);
            assert(w[9] == s@[i as int + 9]);
            assert(w[10] == s@[i as int + 10]);
            assert(w[11] == s@[i as int + 11]);
            assert(is_hex4_at(w, 8));
            assert(hex4_at(w, 8) == v2 as int);
        }
        if !(0xDC00 <= v2 && v2 <= 0xDFFF) {
            return None;
        }
        let cp: u32 = 0x10000 + (v - 0xD800) * 0x400 + (v2 - 0xDC00);
        proof {
            assert(vstd::utf8::is_scalar(cp));
        }
        let ch = char_of_scalar(cp);
        proof {
            assert(w.skip(12) =~= s@.skip(i as int + 12));
        }
        match parse_str_body_at(s, len, i + 12) {
            None => None,
            Some(p) => {
                let (mut out, j) = p;
                out.insert(0, ch);
                proof {
                    let rest = parse_str_body(s@.skip(i as int + 12)).unwrap();
                    assert(out@ =~= seq![ch] + rest.0);
                }
                Some((out, j))
            },
        }
    } else if 0xDC00 <= v && v <= 0xDFFF {
        None
    } else {
        proof {
            assert(vstd::utf8::is_scalar(v));
        }
        let ch = char_of_scalar(v);
        proof {
            assert(w.skip(6) =~= s@.skip(i as int + 6));
        }
        match parse_str_body_at(s, len, i + 6) {
            None => None,
            Some(p) => {
                let (mut out, j) = p;
                out.insert(0, ch);
                proof {
                    let rest = parse_str_body(s@.skip(i as int + 6)).unwrap();
                    assert(out@ =~= seq![ch] + rest.0);
                }
                Some((out, j))
            },
        }
    }
}

/// Read a whole string literal from position `i`.
fn parse_jstring_at(s: &str, len: usize, i: usize) -> (r: Option<(Vec<char>, usize)>)
    requires
        len == s@.len(),
        i <= len,
    ensures
        match r {
            Some(p) => {
                &&& i <= p.1 <= len
                &&& parse_jstring(s@.skip(i as int)) == Some((p.0@, p.1 - i as int))
            },
            None => parse_jstring(s@.skip(i as int)) is None,
        },
{
    let ghost w = s@.skip(i as int);
    if i >= len {
        return None;
    }
    proof {
        assert(w[0] == s@[i as int]);
    }
    if s.get_char(i) != '"' {
        return None;
    }
    proof {
        assert(w.skip(1) =~= s@.skip(i as int + 1));
    }
    match parse_str_body_at(s, len, i + 1) {
        None => None,
        Some(p) => Some(p),
    }
}

/// Read a 32-bit JSON integer from position `i`.
fn parse_jint_at(s: &str, len: usize, i: usize) -> (r: Option<(i32, usize)>)
    requires
        len == s@.len(),
        i <= len,
    ensures
        match r {
            Some(p) => {
                &&& i <= p.1 <= len
                &&& parse_jint(s@.skip(i as int)) == Some((p.0 as int, p.1 - i as int))
            },
            None => parse_jint(s@.skip(i as int)) is None,
        },
{
    let ghost w = s@.skip(i as int);
    let neg = i < len && s.get_char(i) == '-';
    let start = if neg {
        i + 1
    } else {
        i
    };
    let ghost body = if neg {
        w.skip(1)
    } else {
        w
    };
    proof {
        if i < len {
            assert(w[0] == s@[i as int]);
        }
        assert(body =~= s@.skip(start as int));
    }
    let k = count_digits_from(s, len, start);
    proof {
        lemma_digits_count_le_len(body);
    }
    if k == 0 {
        return None;
    }
    proof {
        assert(body[0] == s@[start as int]);
        assert(forall|m: int| start <= m < start + k ==> is_digit(#[trigger] s@[m])) by {
            assert(forall|m: int| 0 <= m < k ==> is_digit(#[trigger] body[m]));
            assert(forall|m: int| start <= m < start + k ==> s@[m] == body[m - start as int]);
        }
    }
    if s.get_char(start) == '0' && k > 1 {
        return None;
    }
    if k > 10 {
        proof {
            let t = body.take(k as int);
            assert(forall|m: int| 0 <= m < t.len() ==> is_digit(#[trigger] t[m]));
            assert(t[0] == body[0]);
            lemma_dec_val_lower(t);
            lemma_pow10_le(10, t.len() - 1);
            assert(pow10(10) == 10000000000) by {
                reveal_with_fuel(pow10, 11);
            }
        }
        return None;
    }
    let v = dec_value_at(s, len, start, k);
    proof {
        assert(s@.subrange(start as int, (start + k) as int) =~= body.take(k as int));
        assert(pow10(10) == 10000000000) by {
            reveal_with_fuel(pow10, 11);
        }
        lemma_pow10_le(k as int, 10);
    }
    if neg {
        if v > 2147483648 {
            None
        } else {
            Some(((-v) as i32, start + k))
        }
    } else {
        if v > 2147483647 {
            None
        } else {
            Some((v as i32, start + k))
        }
    }
}

/// Read the value of the `id` key from position `i`.
fn parse_id_value_at(s: &str, len: usize, i: usize) -> (r: Option<(Option<i32>, usize)>)
    requires
        len == s@.len(),
        i <= len,
    ensures
        match r {
            Some(p) => {
                &&& i <= p.1 <= len
                &&& parse_id_value(s@.skip(i as int)) == Some(
                    (
                        match p.0 {
                            Some(x) => Some(x as int),
                            None => None,
                        },
                        p.1 - i as int,
                    ),
                )
            },
            None => parse_id_value(s@.skip(i as int)) is None,
        },
{
    let ghost w = s@.skip(i as int);
    if len - i >= 4 && s.get_char(i) == 'n' && s.get_char(i + 1) == 'u' && s.get_char(i + 2) == 'l'
        && s.get_char(i + 3) == 'l' {
        proof {
            assert(w.subrange(0, 4)[0] == s@[i as int]);
            assert(w.subrange(0, 4)[1] == s@[i as int + 1]);
            assert(w.subrange(0, 4)[2] == s@[i as int + 2]);
            assert(w.subrange(0, 4)[3] == s@[i as int + 3]);
            assert(w.subrange(0, 4) =~= lit_null());
        }
        Some((None, i + 4))
    } else {
        proof {
            if w.len() >= 4 && w.subrange(0, 4) == lit_null() {
                assert(s@[i as int] == w.subrange(0, 4)[0]);
                assert(s@[i as int + 1] == w.subrange(0, 4)[1]);
                assert(s@[i as int + 2] == w.subrange(0, 4)[2]);
                assert(s@[i as int + 3] == w.subrange(0, 4)[3]);
            }
        }
        match parse_jint_at(s, len, i) {
            Some(p) => Some((Some(p.0), p.1)),
            None => None,
        }
    }
}


/// Read the optional fraction part at position `i`.
fn frac_len_at(s: &str, len: usize, i: usize) -> (r: Option<usize>)
    requires
        len == s@.len(),
        i <= len,
    ensures
        match r {
            Some(n) => i + n <= len && frac_len(s@.skip(i as int)) == Some(n as int),
            None => frac_len(s@.skip(i as int)) is None,
        },
{
    let ghost w = s@.skip(i as int);
    if i < len && s.get_char(i) == '.' {
        proof {
            assert(w[0] == s@[i as int]);
            assert(w.skip(1) =~= s@.skip(i as int + 1));
        }
        let d = count_digits_from(s, len, i + 1);
        if d == 0 {
            None
        } else {
            Some(1 + d)
        }
    } else {
        proof {
            if i < len {
                assert(w[0] == s@[i as int]);
            }
        }
        Some(0)
    }
}

/// Read the optional exponent part at position `i`.
fn exp_len_at(s: &str, len: usize, i: usize) -> (r: Option<usize>)
    requires
        len == s@.len(),
        i <= len,
    ensures
        match r {
            Some(n) => i + n <= len && exp_len(s@.skip(i as int)) == Some(n as int),
            None => exp_len(s@.skip(i as int)) is None,
        },
{
    let ghost w = s@.skip(i as int);
    if i < len && (s.get_char(i) == 'e' || s.get_char(i) == 'E') {
        proof {
            assert(w[0] == s@[i as int]);
        }
        let sg: usize = if i + 1 < len && (s.get_char(i + 1) == '+' || s.get_char(i + 1) == '-') {
            1
        } else {
            0
        };
        proof {
            if i + 1 < len {
                assert(w[1] == s@[i as int + 1]);
            }
            assert(w.skip(1 + sg as int) =~= s@.skip((i + 1 + sg) as int));
        }
        let d = count_digits_from(s, len, i + 1 + sg);
        if d == 0 {
            None
        } else {
            Some(1 + sg + d)
        }
    } else {
        proof {
            if i < len {
                assert(w[0] == s@[i as int]);
            }
        }
        Some(0)
    }
}

/// Read a whole JSON number at position `i`.
fn skip_number_at(s: &str, len: usize, i: usize) -> (r: Option<usize>)
    requires
        len == s@.len(),
        i <= len,
    ensures
        match r {
            Some(j) => i <= j <= len && skip_number(s@.skip(i as int)) == Some(j - i as int),
            None => skip_number(s@.skip(i as int)) is None,
        },
{
    let ghost w = s@.skip(i as int);
    let neg: usize = if i < len && s.get_char(i) == '-' {
        1
    } else {
        0
    };
    proof {
        if i < len {
            assert(w[0] == s@[i as int]);
        }
        assert(w.skip(neg as int) =~= s@.skip((i + neg) as int));
    }
    let k = count_digits_from(s, len, i + neg);
    if k == 0 {
        return None;
    }
    proof {
        assert(w.skip(neg as int)[0] == s@[(i + neg) as int]);
    }
    if s.get_char(i + neg) == '0' && k > 1 {
        return None;
    }
    let afterint = i + neg + k;
    proof {
        assert(w.skip((neg + k) as int) =~= s@.skip(afterint as int));
    }
    let fl = match frac_len_at(s, len, afterint) {
        None => {
            return None;
        },
        Some(fl) => fl,
    };
    let afterfrac = afterint + fl;
    proof {
        assert(w.skip((neg + k + fl) as int) =~= s@.skip(afterfrac as int));
    }
    match exp_len_at(s, len, afterfrac) {
        None => None,
        Some(el) => Some(afterfrac + el),
    }
}

/// Read one JSON value of any shape at position `i`.
fn skip_value_at(s: &str, len: usize, i: usize, fuel: usize) -> (r: Option<usize>)
    requires
        len == s@.len(),
        i <= len,
    ensures
        match r {
            Some(j) => i <= j <= len && skip_value(s@.skip(i as int), fuel as nat) == Some(
                j - i as int,
            ),
            None => skip_value(s@.skip(i as int), fuel as nat) is None,
        },
    decreases fuel, 0int,
{
    let ghost w = s@.skip(i as int);
    if fuel == 0 || i >= len {
        return None;
    }
    let c = s.get_char(i);
    proof {
        assert(w[0] == s@[i as int]);
    }
    if c == '"' {
        proof {
            assert(w.skip(1) =~= s@.skip(i as int + 1));
        }
        match parse_str_body_at(s, len, i + 1) {
            Some(p) => Some(p.1),
            None => None,
        }
    } else if c == '{' {
        let wsn = ws_count_at(s, len, i + 1);
        let i2 = i + 1 + wsn;
        proof {
            assert(w.skip(1) =~= s@.skip(i as int + 1));
            assert(s@.skip(i as int + 1).skip(wsn as int) =~= s@.skip(i2 as int));
        }
        if i2 < len && s.get_char(i2) == '}' {
            proof {
                assert(s@.skip(i2 as int)[0] == s@[i2 as int]);
            }
            Some(i2 + 1)
        } else {
            proof {
                if i2 < len {
                    assert(s@.skip(i2 as int)[0] == s@[i2 as int]);
                } else {
                    assert(s@.skip(i2 as int).len() == 0);
                }
            }
            match skip_obj_items_at(s, len, i + 1, fuel - 1) {
                Some(j) => Some(j),
                None => None,
            }
        }
    } else if c == '[' {
        let wsn = ws_count_at(s, len, i + 1);
        let i2 = i + 1 + wsn;
        proof {
            assert(w.skip(1) =~= s@.skip(i as int + 1));
            assert(s@.skip(i as int + 1).skip(wsn as int) =~= s@.skip(i2 as int));
        }
        if i2 < len && s.get_char(i2) == ']' {
            proof {
                assert(s@.skip(i2 as int)[0] == s@[i2 as int]);
            }
            Some(i2 + 1)
        } else {
            proof {
                if i2 < len {
                    assert(s@.skip(i2 as int)[0] == s@[i2 as int]);
                } else {
                    assert(s@.skip(i2 as int).len() == 0);
                }
            }
            match skip_arr_items_at(s, len, i + 1, fuel - 1) {
                Some(j) => Some(j),
                None => None,
            }
        }
    } else if c == 'n' {
        if len - i >= 4 && s.get_char(i + 1) == 'u' && s.get_char(i + 2) == 'l' && s.get_char(i + 3)
            == 'l' {
            proof {
                assert(w.subrange(0, 4)[0] == s@[i as int]);
                assert(w.subrange(0, 4)[1] == s@[i as int + 1]);
                assert(w.subrange(0, 4)[2] == s@[i as int + 2]);
                assert(w.subrange(0, 4)[3] == s@[i as int + 3]);
                assert(w.subrange(0, 4) =~= lit_null());
            }
            Some(i + 4)
        } else {
            proof {
                if w.len() >= 4 && w.subrange(0, 4) == lit_null() {
                    assert(s@[i as int + 1] == w.subrange(0, 4)[1]);
                    assert(s@[i as int + 2] == w.subrange(0, 4)[2]);
                    assert(s@[i as int + 3] == w.subrange(0, 4)[3]);
                }
                if w.len() >= 4 && w.subrange(0, 4) == lit_true() {
                    assert(w.subrange(0, 4)[0] == w[0]);
                }
                if w.len() >= 5 && w.subrange(0, 5) == lit_false() {
                    assert(w.subrange(0, 5)[0] == w[0]);
                }
            }
            None
        }
    } else if c == 't' {
        if len - i >= 4 && s.get_char(i + 1) == 'r' && s.get_char(i + 2) == 'u' && s.get_char(i + 3)
            == 'e' {
            proof {
                assert(w.subrange(0, 4)[0] == s@[i as int]);
                assert(w.subrange(0, 4)[1] == s@[i as int + 1]);
                assert(w.subrange(0, 4)[2] == s@[i as int + 2]);
                assert(w.subrange(0, 4)[3] == s@[i as int + 3]);
                assert(w.subrange(0, 4) =~= lit_true());
                if w.len() >= 4 && w.subrange(0, 4) == lit_null() {
                    assert(w.subrange(0, 4)[0] == w[0]);
                }
            }
            Some(i + 4)
        } else {
            proof {
                if w.len() >= 4 && w.subrange(0, 4) == lit_null() {
                    assert(w.subrange(0, 4)[0] == w[0]);
                }
                if w.len() >= 4 && w.subrange(0, 4) == lit_true() {
                    assert(s@[i as int + 1] == w.subrange(0, 4)[1]);
                    assert(s@[i as int + 2] == w.subrange(0, 4)[2]);
                    assert(s@[i as int + 3] == w.subrange(0, 4)[3]);
                }
                if w.len() >= 5 && w.subrange(0, 5) == lit_false() {
                    assert(w.subrange(0, 5)[0] == w[0]);
                }
            }
            None
        }
    } else if c == 'f' {
        if len - i >= 5 && s.get_char(i + 1) == 'a' && s.get_char(i + 2) == 'l' && s.get_char(i + 3)
            == 's' && s.get_char(i + 4) == 'e' {
            proof {
                assert(w.subrange(0, 5)[0] == s@[i as int]);
                assert(w.subrange(0, 5)[1] == s@[i as int + 1]);
                assert(w.subrange(0, 5)[2] == s@[i as int + 2]);
                assert(w.subrange(0, 5)[3] == s@[i as int + 3]);
                assert(w.subrange(0, 5)[4] == s@[i as int + 4]);
                assert(w.subrange(0, 5) =~= lit_false());
                if w.len() >= 4 && w.subrange(0, 4) == lit_null() {
                    assert(w.subrange(0, 4)[0] == w[0]);
                }
                if w.len() >= 4 && w.subrange(0, 4) == lit_true() {
                    assert(w.subrange(0, 4)[0] == w[0]);
                }
            }
            Some(i + 5)
        } else {
            proof {
                if w.len() >= 4 && w.subrange(0, 4) == lit_null() {
                    assert(w.subrange(0, 4)[0] == w[0]);
                }
                if w.len() >= 4 && w.subrange(0, 4) == lit_true() {
                    assert(w.subrange(0, 4)[0] == w[0]);
                }
                if w.len() >= 5 && w.subrange(0, 5) == lit_false() {
                    assert(s@[i as int + 1] == w.subrange(0, 5)[1]);
                    assert(s@[i as int + 2] == w.subrange(0, 5)[2]);
                    assert(s@[i as int + 3] == w.subrange(0, 5)[3]);
                    assert(s@[i as int + 4] == w.subrange(0, 5)[4]);
                }
            }
            None
        }
    } else {
        proof {
            if w.len() >= 4 && w.subrange(0, 4) == lit_null() {
                assert(w.subrange(0, 4)[0] == w[0]);
            }
            if w.len() >= 4 && w.subrange(0, 4) == lit_true() {
                assert(w.subrange(0, 4)[0] == w[0]);
            }
            if w.len() >= 5 && w.subrange(0, 5) == lit_false() {
                assert(w.subrange(0, 5)[0] == w[0]);
            }
        }
        skip_number_at(s, len, i)
    }
}

/// Read the members of an object at position `i`, just inside its
/// opening brace.
#[verifier::rlimit(60)]
fn skip_obj_items_at(s: &str, len: usize, i: usize, fuel: usize) -> (r: Option<usize>)
    requires
        len == s@.len(),
        i <= len,
    ensures
        match r {
            Some(j) => i <= j <= len && skip_obj_items(s@.skip(i as int), fuel as nat) == Some(
                j - i as int,
            ),
            None => skip_obj_items(s@.skip(i as int), fuel as nat) is None,
        },
    decreases fuel, 1int,
{
    let ghost w = s@.skip(i as int);
    let n0 = ws_count_at(s, len, i);
    let i1 = i + n0;
    proof {
        assert(w.skip(ws_count(w)) =~= s@.skip(i1 as int));
    }
    let kp = match parse_jstring_at(s, len, i1) {
        None => {
            return None;
        },
        Some(kp) => kp,
    };
    let i2 = kp.1;
    proof {
        assert(s@.skip(i1 as int).skip(i2 - i1 as int) =~= s@.skip(i2 as int));
    }
    let n1 = ws_count_at(s, len, i2);
    let i3 = i2 + n1;
    proof {
        assert(s@.skip(i2 as int).skip(n1 as int) =~= s@.skip(i3 as int));
    }
    if i3 >= len {
        proof {
            assert(s@.skip(i3 as int).len() == 0);
        }
        return None;
    }
    proof {
        assert(s@.skip(i3 as int)[0] == s@[i3 as int]);
    }
    if s.get_char(i3) != ':' {
        return None;
    }
    let n2 = ws_count_at(s, len, i3 + 1);
    let i4 = i3 + 1 + n2;
    proof {
        assert(s@.skip(i3 as int).skip(1) =~= s@.skip(i3 as int + 1));
        assert(s@.skip(i3 as int + 1).skip(n2 as int) =~= s@.skip(i4 as int));
    }
    let i5 = match skip_value_at(s, len, i4, fuel) {
        None => {
            return None;
        },
        Some(j) => j,
    };
    proof {
        assert(s@.skip(i4 as int).skip(i5 - i4 as int) =~= s@.skip(i5 as int));
    }
    let n3 = ws_count_at(s, len, i5);
    let i6 = i5 + n3;
    proof {
        assert(s@.skip(i5 as int).skip(n3 as int) =~= s@.skip(i6 as int));
    }
    if i6 >= len {
        proof {
            assert(s@.skip(i6 as int).len() == 0);
        }
        return None;
    }
    proof {
        assert(s@.skip(i6 as int)[0] == s@[i6 as int]);
    }
    let c = s.get_char(i6);
    if c == '}' {
        Some(i6 + 1)
    } else if c == ',' && fuel > 0 {
        proof {
            assert(s@.skip(i6 as int).skip(1) =~= s@.skip(i6 as int + 1));
        }
        match skip_obj_items_at(s, len, i6 + 1, fuel - 1) {
            Some(j) => Some(j),
            None => None,
        }
    } else {
        None
    }
}

/// Read the elements of an array at position `i`, just inside its
/// opening bracket.
fn skip_arr_items_at(s: &str, len: usize, i: usize, fuel: usize) -> (r: Option<usize>)
    requires
        len == s@.len(),
        i <= len,
    ensures
        match r {
            Some(j) => i <= j <= len && skip_arr_items(s@.skip(i as int), fuel as nat) == Some(
                j - i as int,
            ),
            None => skip_arr_items(s@.skip(i as int), fuel as nat) is None,
        },
    decreases fuel, 1int,
{
    let ghost w = s@.skip(i as int);
    let n0 = ws_count_at(s, len, i);
    let i1 = i + n0;
    proof {
        assert(w.skip(ws_count(w)) =~= s@.skip(i1 as int));
    }
    let i2 = match skip_value_at(s, len, i1, fuel) {
        None => {
            return None;
        },
        Some(j) => j,
    };
    proof {
        assert(s@.skip(i1 as int).skip(i2 - i1 as int) =~= s@.skip(i2 as int));
    }
    let n1 = ws_count_at(s, len, i2);
    let i3 = i2 + n1;
    proof {
        assert(s@.skip(i2 as int).skip(n1 as int) =~= s@.skip(i3 as int));
    }
    if i3 >= len {
        proof {
            assert(s@.skip(i3 as int).len() == 0);
        }
        return None;
    }
    proof {
        assert(s@.skip(i3 as int)[0] == s@[i3 as int]);
    }
    let c = s.get_char(i3);
    if c == ']' {
        Some(i3 + 1)
    } else if c == ',' && fuel > 0 {
        proof {
            assert(s@.skip(i3 as int).skip(1) =~= s@.skip(i3 as int + 1));
        }
        match skip_arr_items_at(s, len, i3 + 1, fuel - 1) {
            Some(j) => Some(j),
            None => None,
        }
    } else {
        None
    }
}

/// The fields gathered so far, as the reader carries them.
struct Acc {
    id: Option<Option<i32>>,
    name: Option<Vec<char>>,
    email: Option<Vec<char>>,
}

impl View for Acc {
    type V = AccView;

    closed spec fn view(&self) -> AccView {
        AccView {
            id: match self.id {
                Some(v) => Some(
                    match v {
                        Some(x) => Some(x as int),
                        None => None,
                    },
                ),
                None => None,
            },
            name: match self.name {
                Some(ref v) => Some(v@),
                None => None,
            },
            email: match self.email {
                Some(ref v) => Some(v@),
                None => None,
            },
        }
    }
}

/// Does this key read `id`, `name` or `email`?
fn key_kind(v: &Vec<char>) -> (r: u8)
    ensures
        r == 0 ==> v@ == key_id(),
        r == 1 ==> v@ == key_name(),
        r == 2 ==> v@ == key_email(),
        r == 3 ==> v@ != key_id() && v@ != key_name() && v@ != key_email(),
        r <= 3,
{
    if v.len() == 2 && v[0] == 'i' && v[1] == 'd' {
        proof {
            assert(v@ =~= key_id());
        }
        0
    } else if v.len() == 4 && v[0] == 'n' && v[1] == 'a' && v[2] == 'm'
        && v[3] == 'e' {
        proof {
            assert(v@ =~= key_name());
        }
        1
    } else if v.len() == 5 && v[0] == 'e' && v[1] == 'm' && v[2] == 'a'
        && v[3] == 'i' && v[4] == 'l' {
        proof {
            assert(v@ =~= key_email());
        }
        2
    } else {
        proof {
            if v@ == key_id() {
                assert(v@.len() == 2 && v@[0] == 'i' && v@[1] == 'd');
            }
            if v@ == key_name() {
                assert(v@.len() == 4 && v@[0] == 'n' && v@[1] == 'a' && v@[2] == 'm' && v@[3] == 'e');
            }
            if v@ == key_email() {
                assert(v@.len() == 5 && v@[0] == 'e' && v@[1] == 'm' && v@[2] == 'a' && v@[3] == 'i'
                    && v@[4] == 'l');
            }
        }
        3
    }
}

/// Read one member from position `i` into the accumulator.
#[verifier::rlimit(100)]
#[verifier::spinoff_prover]
fn parse_member_at(s: &str, len: usize, i: usize, acc: Acc) -> (r: Option<(Acc, usize)>)
    requires
        len == s@.len(),
        i <= len,
    ensures
        match r {
            Some(p) => {
                &&& i <= p.1 <= len
                &&& parse_member(s@.skip(i as int), acc@) == Some((p.0@, p.1 - i as int))
            },
            None => parse_member(s@.skip(i as int), acc@) is None,
        },
{
    let ghost w = s@.skip(i as int);
    let n0 = ws_count_at(s, len, i);
    let i1 = i + n0;
    proof {
        assert(w.skip(ws_count(w)) =~= s@.skip(i1 as int));
    }
    let kp = match parse_jstring_at(s, len, i1) {
        None => {
            return None;
        },
        Some(kp) => kp,
    };
    let (key, i2) = kp;
    proof {
        assert(s@.skip(i1 as int).skip(i2 - i1 as int) =~= s@.skip(i2 as int));
    }
    let n1 = ws_count_at(s, len, i2);
    let i3 = i2 + n1;
    proof {
        assert(s@.skip(i2 as int).skip(n1 as int) =~= s@.skip(i3 as int));
    }
    if i3 >= len {
        proof {
            assert(s@.skip(i3 as int).len() == 0);
        }
        return None;
    }
    proof {
        assert(s@.skip(i3 as int)[0] == s@[i3 as int]);
    }
    if s.get_char(i3) != ':' {
        return None;
    }
    let n2 = ws_count_at(s, len, i3 + 1);
    let i4 = i3 + 1 + n2;
    proof {
        assert(s@.skip(i3 as int).skip(1) =~= s@.skip(i3 as int + 1));
        assert(s@.skip(i3 as int + 1).skip(n2 as int) =~= s@.skip(i4 as int));
    }
    let kind = key_kind(&key);
    if kind == 0 {
        if acc.id.is_some() {
            return None;
        }
        match parse_id_value_at(s, len, i4) {
            None => None,
            Some(p) => {
                let out = Acc { id: Some(p.0), name: acc.name, email: acc.email };
                Some((out, p.1))
            },
        }
    } else if kind == 1 {
        if acc.name.is_some() {
            return None;
        }
        match parse_jstring_at(s, len, i4) {
            None => None,
            Some(p) => {
                let out = Acc { id: acc.id, name: Some(p.0), email: acc.email };
                Some((out, p.1))
            },
        }
    } else if kind == 2 {
        if acc.email.is_some() {
            return None;
        }
        match parse_jstring_at(s, len, i4) {
            None => None,
            Some(p) => {
                let out = Acc { id: acc.id, name: acc.name, email: Some(p.0) };
                Some((out, p.1))
            },
        }
    } else {
        match skip_unknown_value(s, len, i4) {
            None => None,
            Some(j) => Some((acc, j)),
        }
    }
}

/// Read and discard the value of an unknown member at position `i`.
fn skip_unknown_value(s: &str, len: usize, i: usize) -> (r: Option<usize>)
    requires
        len == s@.len(),
        i <= len,
    ensures
        match r {
            Some(j) => i <= j <= len && skip_member_value(s@.skip(i as int)) == Some(j - i as int),
            None => skip_member_value(s@.skip(i as int)) is None,
        },
{
    proof {
        reveal(crate::codec::skip_member_value);
        assert(s@.skip(i as int).len() == len - i);
    }
    let sv = skip_value_at(s, len, i, len - i);
    proof {
        reveal(crate::codec::skip_member_value);
        assert(skip_member_value(s@.skip(i as int)) == skip_value(
            s@.skip(i as int),
            (len - i) as nat,
        ));
    }
    sv
}

/// Read members up to and past the closing brace, from position `i`.
fn parse_members_at(s: &str, len: usize, i: usize, acc: Acc, fuel: usize) -> (r: Option<(Acc, usize)>)
    requires
        len == s@.len(),
        i <= len,
    ensures
        match r {
            Some(p) => {
                &&& i <= p.1 <= len
                &&& parse_members(s@.skip(i as int), acc@, fuel as nat) == Some((p.0@, p.1 - i as int))
            },
            None => parse_members(s@.skip(i as int), acc@, fuel as nat) is None,
        },
    decreases fuel,
{
    let mp = match parse_member_at(s, len, i, acc) {
        None => {
            return None;
        },
        Some(mp) => mp,
    };
    let (acc2, i2) = mp;
    proof {
        assert(s@.skip(i as int).skip(i2 - i as int) =~= s@.skip(i2 as int));
    }
    let n = ws_count_at(s, len, i2);
    let i3 = i2 + n;
    proof {
        assert(s@.skip(i2 as int).skip(n as int) =~= s@.skip(i3 as int));
    }
    if i3 >= len {
        proof {
            assert(s@.skip(i3 as int).len() == 0);
        }
        return None;
    }
    proof {
        assert(s@.skip(i3 as int)[0] == s@[i3 as int]);
    }
    let c = s.get_char(i3);
    if c == '}' {
        Some((acc2, i3 + 1))
    } else if c == ',' && fuel > 0 {
        proof {
            assert(s@.skip(i3 as int).skip(1) =~= s@.skip(i3 as int + 1));
        }
        match parse_members_at(s, len, i3 + 1, acc2, fuel - 1) {
            None => None,
            Some(p) => Some(p),
        }
    } else {
        None
    }
}

/// Decode a body into a user record; anything that is not one
/// well-formed user object is refused.
pub fn decode_user(body: &str) -> (r: Option<User>)
    ensures
        match spec_decode(body@) {
            Some(u) => r matches Some(x) && x@ == u,
            None => r is None,
        },
{
    let len = body.unicode_len();
    let n = ws_count_at(body, len, 0);
    proof {
        assert(body@.skip(0) =~= body@);
        assert(body@.skip(0).skip(n as int) =~= body@.skip(n as int));
    }
    if n >= len {
        proof {
            assert(body@.skip(n as int).len() == 0);
        }
        return None;
    }
    proof {
        assert(body@.skip(n as int)[0] == body@[n as int]);
    }
    if body.get_char(n) != '{' {
        return None;
    }
    proof {
        assert(body@.skip(n as int).skip(1) =~= body@.skip(n as int + 1));
    }
    let acc = Acc { id: None, name: None, email: None };
    proof {
        assert(body@.skip(n as int + 1).len() == len - (n + 1));
    }
    let mp = match parse_members_at(body, len, n + 1, acc, len - (n + 1)) {
        None => {
            return None;
        },
        Some(mp) => mp,
    };
    let (acc2, i2) = mp;
    proof {
        assert(body@.skip(n as int + 1).skip(i2 - (n as int + 1)) =~= body@.skip(i2 as int));
    }
    let n2 = ws_count_at(body, len, i2);
    if i2 + n2 != len {
        proof {
            let tail = body@.skip(i2 as int);
            assert(ws_count(tail) != tail.len());
        }
        return None;
    }
    proof {
        let tail = body@.skip(i2 as int);
        assert(ws_count(tail) == tail.len());
    }
    let name = match acc2.name {
        Some(v) => v,
        None => {
            return None;
        },
    };
    let email = match acc2.email {
        Some(v) => v,
        None => {
            return None;
        },
    };
    let id: Option<i32> = match acc2.id {
        Some(v) => v,
        None => None,
    };
    let name_s = chars_to_string(name);
    let email_s = chars_to_string(email);
    Some(User { id, name: name_s, email: email_s })
}

/// The lower-case hex digit of a value below sixteen.
pub open spec fn hex_char(d: int) -> char {
    if d < 10 {
        digit_char(d)
    } else if d == 10 {
        'a'
    } else if d == 11 {
        'b'
    } else if d == 12 {
        'c'
    } else if d == 13 {
        'd'
    } else if d == 14 {
        'e'
    } else {
        'f'
    }
}

/// A hex digit reads back as its value.
pub proof fn lemma_hex_char(d: int)
    requires
        0 <= d < 16,
    ensures
        is_hex_digit(hex_char(d)),
        hex_digit_val(hex_char(d)) == d,
{
}

/// What one character becomes inside an encoded string literal: the
/// short escapes, `\u00XX` for the other control characters, and
/// everything else as it is.
#[verifier::opaque]
pub open spec fn escape1(c: char) -> Seq<char> {
    if c == '"' {
        seq!['\\', '"']
    } else if c == '\\' {
        seq!['\\', '\\']
    } else if c == '\u{8}' {
        seq!['\\', 'b']
    } else if c == '\u{c}' {
        seq!['\\', 'f']
    } else if c == '\n' {
        seq!['\\', 'n']
    } else if c == '\r' {
        seq!['\\', 'r']
    } else if c == '\t' {
        seq!['\\', 't']
    } else if is_ctrl(c) {
        seq!['\\', 'u', '0', '0', hex_char((c as u32) as int / 16), hex_char((c as u32) as int % 16)]
    } else {
        seq![c]
    }
}

/// An encoded string literal's content: quote and backslash escaped,
/// everything else as it is.
pub open spec fn spec_escape(t: Seq<char>) -> Seq<char>
    decreases t.len(),
{
    if t.len() == 0 {
        Seq::empty()
    } else {
        escape1(t[0]) + spec_escape(t.skip(1))
    }
}

/// Escaping one more character appends its escape.
pub proof fn lemma_escape_snoc(t: Seq<char>, c: char)
    ensures
        spec_escape(t.push(c)) == spec_escape(t) + escape1(c),
    decreases t.len(),
{
    reveal(crate::codec::escape1);
    if t.len() == 0 {
        assert(t.push(c)[0] == c);
        assert(t.push(c).skip(1) =~= Seq::<char>::empty());
        assert(spec_escape(t) == Seq::<char>::empty());
        assert(spec_escape(t.push(c)) == escape1(c) + spec_escape(t.push(c).skip(1)));
        assert(spec_escape(Seq::<char>::empty()) == Seq::<char>::empty());
        assert(spec_escape(t.push(c)) =~= spec_escape(t) + escape1(c));
    } else {
        assert(t.push(c).skip(1) =~= t.skip(1).push(c));
        lemma_escape_snoc(t.skip(1), c);
        assert(t.push(c)[0] == t[0]);
        assert(spec_escape(t.push(c)) == escape1(t[0]) + (spec_escape(t.skip(1)) + escape1(c)));
        assert(escape1(t[0]) + (spec_escape(t.skip(1)) + escape1(c)) =~= (escape1(t[0])
            + spec_escape(t.skip(1))) + escape1(c));
    }
}

/// The canonical characters of a signed integer.
pub open spec fn spec_int_chars(v: int) -> Seq<char> {
    if v < 0 {
        seq!['-'] + int_digits(-v)
    } else {
        int_digits(v)
    }
}

/// The encoded `id` value: null when absent.
pub open spec fn spec_id_chars(id: Option<int>) -> Seq<char> {
    match id {
        None => lit_null(),
        Some(v) => spec_int_chars(v),
    }
}

pub open spec fn enc_p1() -> Seq<char> {
    seq!['{', '"', 'i', 'd', '"', ':']
}

pub open spec fn enc_p2() -> Seq<char> {
    seq![',', '"', 'n', 'a', 'm', 'e', '"', ':', '"']
}

pub open spec fn enc_p3() -> Seq<char> {
    seq!['"', ',', '"', 'e', 'm', 'a', 'i', 'l', '"', ':', '"']
}

pub open spec fn enc_p4() -> Seq<char> {
    seq!['"', '}']
}

/// The canonical encoding of a user record: the `id` first, then
/// `name` and `email` as escaped string literals.
pub open spec fn spec_encode_user(u: UserView) -> Seq<char> {
    enc_p1() + spec_id_chars(u.id) + enc_p2() + spec_escape(u.name) + enc_p3() + spec_escape(u.email)
        + enc_p4()
}

/// The encoded records joined with commas.
pub open spec fn spec_join_users(users: Seq<UserView>) -> Seq<char>
    decreases users.len(),
{
    if users.len() == 0 {
        Seq::empty()
    } else if users.len() == 1 {
        spec_encode_user(users[0])
    } else {
        spec_encode_user(users[0]) + seq![','] + spec_join_users(users.skip(1))
    }
}

/// The canonical encoding of a list of records.
pub open spec fn spec_encode_list(users: Seq<UserView>) -> Seq<char> {
    seq!['['] + spec_join_users(users) + seq![']']
}

/// Joining one more record appends a comma and its encoding.
pub proof fn lemma_join_snoc(users: Seq<UserView>, u: UserView)
    ensures
        spec_join_users(users.push(u)) == if users.len() == 0 {
            spec_encode_user(u)
        } else {
            spec_join_users(users) + seq![','] + spec_encode_user(u)
        },
    decreases users.len(),
{
    let p = users.push(u);
    if users.len() == 0 {
        assert(p.len() == 1);
        assert(p[0] == u);
    } else if users.len() == 1 {
        assert(p.len() == 2);
        assert(p[0] == users[0]);
        assert(p.skip(1) =~= seq![u]);
        assert(spec_join_users(seq![u]) == spec_encode_user(u));
    } else {
        assert(p[0] == users[0]);
        assert(p.skip(1) =~= users.skip(1).push(u));
        lemma_join_snoc(users.skip(1), u);
        assert(spec_encode_user(p[0]) + seq![','] + (spec_join_users(users.skip(1)) + seq![',']
            + spec_encode_user(u)) =~= (spec_encode_user(users[0]) + seq![',']
            + spec_join_users(users.skip(1))) + seq![','] + spec_encode_user(u));
    }
}

/// The lower-case hex digit of a value below sixteen.
fn hex_char_of(d: u32) -> (c: char)
    requires
        d < 16,
    ensures
        c == hex_char(d as int),
{
    if d == 0 { '0' }
    else if d == 1 { '1' }
    else if d == 2 { '2' }
    else if d == 3 { '3' }
    else if d == 4 { '4' }
    else if d == 5 { '5' }
    else if d == 6 { '6' }
    else if d == 7 { '7' }
    else if d == 8 { '8' }
    else if d == 9 { '9' }
    else if d == 10 { 'a' }
    else if d == 11 { 'b' }
    else if d == 12 { 'c' }
    else if d == 13 { 'd' }
    else if d == 14 { 'e' }
    else { 'f' }
}

/// Write the escaped content of `t` onto the end of `out`.
fn push_escaped(out: &mut Vec<char>, t: &str)
    ensures
        final(out)@ == old(out)@ + spec_escape(t@),
{
    let len = t.unicode_len();
    let ghost pre = out@;
    let mut i: usize = 0;
    proof {
        assert(t@.take(0) =~= Seq::<char>::empty());
        assert(out@ =~= pre + spec_escape(t@.take(0)));
    }
    while i < len
        invariant
            0 <= i <= len,
            len == t@.len(),
            out@ == pre + spec_escape(t@.take(i as int)),
        decreases len - i,
    {
        let c = t.get_char(i);
        if c == '"' {
            out.push('\\');
            out.push('"');
        } else if c == '\\' {
            out.push('\\');
            out.push('\\');
        } else if c == '\u{8}' {
            out.push('\\');
            out.push('b');
        } else if c == '\u{c}' {
            out.push('\\');
            out.push('f');
        } else if c == '\n' {
            out.push('\\');
            out.push('n');
        } else if c == '\r' {
            out.push('\\');
            out.push('r');
        } else if c == '\t' {
            out.push('\\');
            out.push('t');
        } else if (c as u32) < 0x20 {
            out.push('\\');
            out.push('u');
            out.push('0');
            out.push('0');
            let cu = c as u32;
            out.push(hex_char_of(cu / 16));
            out.push(hex_char_of(cu % 16));
            proof {
                assert((cu / 16) as int == (c as u32) as int / 16);
                assert((cu % 16) as int == (c as u32) as int % 16);
            }
        } else {
            out.push(c);
        }
        proof {
            reveal(crate::codec::escape1);
            lemma_escape_snoc(t@.take(i as int), t@[i as int]);
            assert(t@.take(i as int + 1) =~= t@.take(i as int).push(t@[i as int]));
            assert(out@ =~= pre + spec_escape(t@.take(i as int + 1)));
        }
        i = i + 1;
    }
    proof {
        assert(t@.take(len as int) =~= t@);
    }
}

/// Write a signed 32-bit integer onto the end of `out`.
fn push_i32(out: &mut Vec<char>, n: i32)
    ensures
        final(out)@ == old(out)@ + spec_int_chars(n as int),
{
    let ghost pre = out@;
    let m: i64 = n as i64;
    if m < 0 {
        out.push('-');
        push_nat(out, (-m) as u64);
        proof {
            assert(out@ =~= pre + (seq!['-'] + int_digits(-(n as int))));
        }
    } else {
        push_nat(out, m as u64);
    }
}

/// Write the opening brace, the `id` key and its value onto the end
/// of `out`.
fn push_id_part(out: &mut Vec<char>, id: Option<i32>)
    ensures
        final(out)@ == old(out)@ + enc_p1() + spec_id_chars(
            match id {
                Some(n) => Some(n as int),
                None => None,
            },
        ),
{
    let ghost gid: Option<int> = match id {
        Some(n) => Some(n as int),
        None => None,
    };
    let ghost pre = out@;
    out.push('{');
    out.push('"');
    out.push('i');
    out.push('d');
    out.push('"');
    out.push(':');
    proof {
        assert(out@ =~= pre + enc_p1());
    }
    let ghost c1 = out@;
    match id {
        Some(n) => {
            push_i32(out, n);
        },
        None => {
            out.push('n');
            out.push('u');
            out.push('l');
            out.push('l');
            proof {
                assert(out@ =~= c1 + lit_null());
            }
        },
    }
    proof {
        assert(out@ == c1 + spec_id_chars(gid));
        assert(out@ =~= pre + enc_p1() + spec_id_chars(gid));
    }
}

/// Write the `name` key and its escaped value onto the end of `out`.
fn push_name_part(out: &mut Vec<char>, t: &str)
    ensures
        final(out)@ == old(out)@ + enc_p2() + spec_escape(t@),
{
    let ghost pre = out@;
    out.push(',');
    out.push('"');
    out.push('n');
    out.push('a');
    out.push('m');
    out.push('e');
    out.push('"');
    out.push(':');
    out.push('"');
    proof {
        assert(out@ =~= pre + enc_p2());
    }
    push_escaped(out, t);
    proof {
        assert(out@ =~= pre + enc_p2() + spec_escape(t@));
    }
}

/// Write the `email` key, its escaped value and the closing braces
/// onto the end of `out`.
fn push_email_part(out: &mut Vec<char>, t: &str)
    ensures
        final(out)@ == old(out)@ + enc_p3() + spec_escape(t@) + enc_p4(),
{
    let ghost pre = out@;
    out.push('"');
    out.push(',');
    out.push('"');
    out.push('e');
    out.push('m');
    out.push('a');
    out.push('i');
    out.push('l');
    out.push('"');
    out.push(':');
    out.push('"');
    proof {
        assert(out@ =~= pre + enc_p3());
    }
    push_escaped(out, t);
    let ghost c1 = out@;
    out.push('"');
    out.push('}');
    proof {
        assert(out@ =~= c1 + enc_p4());
        assert(out@ =~= pre + enc_p3() + spec_escape(t@) + enc_p4());
    }
}

/// Write the canonical encoding of one record onto the end of `out`.
fn push_user(out: &mut Vec<char>, u: &User)
    ensures
        final(out)@ == old(out)@ + spec_encode_user(u@),
{
    let ghost pre = out@;
    push_id_part(out, u.id);
    proof {
        assert((match u.id {
            Some(n) => Some(n as int),
            None => None,
        }) == u@.id);
    }
    push_name_part(out, self_name(u));
    push_email_part(out, self_email(u));
    proof {
        assert(out@ =~= pre + spec_encode_user(u@));
    }
}

/// The name field as a borrowed string.
fn self_name(u: &User) -> (r: &str)
    ensures
        r@ == u@.name,
{
    u.name.as_str()
}

/// The email field as a borrowed string.
fn self_email(u: &User) -> (r: &str)
    ensures
        r@ == u@.email,
{
    u.email.as_str()
}

/// Encode one record as its wire JSON object.
pub fn encode_user(u: &User) -> (s: String)
    ensures
        s@ == spec_encode_user(u@),
{
    let mut out: Vec<char> = Vec::new();
    proof {
        assert(out@ =~= Seq::<char>::empty());
    }
    push_user(&mut out, u);
    proof {
        assert(out@ =~= spec_encode_user(u@));
    }
    chars_to_string(out)
}

/// Encode a list of records as a wire JSON array.
pub fn encode_users(users: &Vec<User>) -> (s: String)
    ensures
        s@ == spec_encode_list(users@.map_values(|x: User| x@)),
{
    let ghost views = users@.map_values(|x: User| x@);
    let mut out: Vec<char> = Vec::new();
    out.push('[');
    proof {
        assert(views.take(0) =~= Seq::<UserView>::empty());
        assert(out@ =~= seq!['['] + spec_join_users(views.take(0)));
    }
    let mut i: usize = 0;
    while i < users.len()
        invariant
            0 <= i <= users.len(),
            views == users@.map_values(|x: User| x@),
            views.len() == users@.len(),
            out@ == seq!['['] + spec_join_users(views.take(i as int)),
        decreases users.len() - i,
    {
        let ghost c0 = out@;
        if i > 0 {
            out.push(',');
        }
        push_user(&mut out, &users[i]);
        proof {
            assert(views[i as int] == users@[i as int]@);
            lemma_join_snoc(views.take(i as int), views[i as int]);
            assert(views.take(i as int + 1) =~= views.take(i as int).push(views[i as int]));
            if i > 0 {
                assert(out@ =~= c0 + seq![','] + spec_encode_user(views[i as int]));
                assert(out@ =~= seq!['['] + spec_join_users(views.take(i as int + 1)));
            } else {
                assert(out@ =~= seq!['['] + spec_join_users(views.take(i as int + 1)));
            }
        }
        i = i + 1;
    }
    out.push(']');
    proof {
        assert(views.take(users@.len() as int) =~= views);
        assert(out@ =~= spec_encode_list(views));
    }
    chars_to_string(out)
}

/// Escaping changes nothing in text without quotes or backslashes.
pub proof fn lemma_escape_plain(t: Seq<char>)
    requires
        forall|k: int| 0 <= k < t.len() ==> t[k] != '"' && #[trigger] t[k] != '\\' && !is_ctrl(
            t[k],
        ),
    ensures
        spec_escape(t) == t,
    decreases t.len(),
{
    reveal(crate::codec::escape1);
    if t.len() > 0 {
        lemma_escape_plain(t.skip(1));
        assert(escape1(t[0]) =~= seq![t[0]]);
        assert(seq![t[0]] + t.skip(1) =~= t);
    }
}

/// Reading back escaped content stops at the closing quote and
/// recovers the content, whatever follows.
pub proof fn lemma_str_body_roundtrip(t: Seq<char>, rest: Seq<char>)
    ensures
        parse_str_body(spec_escape(t) + seq!['"'] + rest) == Some((t, spec_escape(t).len() as int + 1)),
    decreases t.len(),
{
    reveal(crate::codec::escape1);
    let s = spec_escape(t) + seq!['"'] + rest;
    if t.len() == 0 {
        assert(spec_escape(t) == Seq::<char>::empty());
        assert(s =~= seq!['"'] + rest);
        assert(s[0] == '"');
        assert(t =~= Seq::<char>::empty());
        assert(parse_str_body(s) == Some((t, spec_escape(t).len() as int + 1)));
    } else {
        let c = t[0];
        let t2 = t.skip(1);
        assert(spec_escape(t) == escape1(c) + spec_escape(t2));
        lemma_str_body_roundtrip(t2, rest);
        if c == '"' || c == '\\' {
            assert(escape1(c) =~= seq!['\\', c]);
            assert(s[0] == '\\');
            assert(s[1] == c);
            assert(s[1] != 'u');
            assert(unescape_char(c) == Some(c));
            assert(s.skip(2) =~= spec_escape(t2) + seq!['"'] + rest);
            assert(seq![c] + t2 =~= t);
            assert(spec_escape(t).len() == 2 + spec_escape(t2).len());
            assert(parse_str_body(s) == Some((t, spec_escape(t).len() as int + 1)));
        } else if c == '\u{8}' || c == '\u{c}' || c == '\n' || c == '\r' || c == '\t' {
            let e = escape1(c)[1];
            assert(escape1(c) =~= seq!['\\', e]);
            assert(s[0] == '\\');
            assert(s[1] == e);
            assert(e != 'u');
            assert(unescape_char(e) == Some(c));
            assert(s.skip(2) =~= spec_escape(t2) + seq!['"'] + rest);
            assert(seq![c] + t2 =~= t);
            assert(spec_escape(t).len() == 2 + spec_escape(t2).len());
            assert(parse_str_body(s) == Some((t, spec_escape(t).len() as int + 1)));
        } else if is_ctrl(c) {
            let cu = (c as u32) as int;
            assert(0 <= cu < 0x20);
            lemma_hex_char(cu / 16);
            lemma_hex_char(cu % 16);
            assert(s[0] == '\\');
            assert(s[1] == 'u');
            assert(s[2] == '0');
            assert(s[3] == '0');
            assert(s[4] == hex_char(cu / 16));
            assert(s[5] == hex_char(cu % 16));
            assert(is_hex_digit('0') && hex_digit_val('0') == 0);
            assert(is_hex4_at(s, 2));
            vstd::arithmetic::div_mod::lemma_fundamental_div_mod(cu, 16);
            assert(hex4_at(s, 2) == cu);
            assert(!(0xD800 <= cu <= 0xDBFF));
            assert(!(0xDC00 <= cu <= 0xDFFF));
            assert(cp_char(cu) == c) by {
                assert(cu as u32 == c as u32);
                vstd::utf8::char_u32_cast(c, c as u32);
            }
            assert(s.skip(6) =~= spec_escape(t2) + seq!['"'] + rest);
            assert(seq![c] + t2 =~= t);
            assert(spec_escape(t).len() == 6 + spec_escape(t2).len());
            assert(parse_str_body(s) == Some((t, spec_escape(t).len() as int + 1)));
        } else {
            assert(escape1(c) =~= seq![c]);
            assert(s[0] == c);
            assert(!is_ctrl(s[0]));
            assert(s.skip(1) =~= spec_escape(t2) + seq!['"'] + rest);
            assert(seq![c] + t2 =~= t);
            assert(spec_escape(t).len() == 1 + spec_escape(t2).len());
            assert(parse_str_body(s) == Some((t, spec_escape(t).len() as int + 1)));
        }
    }
}

/// A whole encoded string literal reads back as its content.
pub proof fn lemma_jstring_roundtrip(t: Seq<char>, rest: Seq<char>)
    ensures
        parse_jstring(seq!['"'] + spec_escape(t) + seq!['"'] + rest) == Some(
            (t, spec_escape(t).len() as int + 2),
        ),
{
    let s = seq!['"'] + spec_escape(t) + seq!['"'] + rest;
    assert(s[0] == '"');
    assert(s.skip(1) =~= spec_escape(t) + seq!['"'] + rest);
    lemma_str_body_roundtrip(t, rest);
}

/// A canonical integer numeral reads back as its value when what
/// follows is not a digit.
pub proof fn lemma_jint_roundtrip(v: int, rest: Seq<char>)
    requires
        i32::MIN <= v <= i32::MAX,
        rest.len() > 0,
        !is_digit(rest[0]),
    ensures
        parse_jint(spec_int_chars(v) + rest) == Some((v, spec_int_chars(v).len() as int)),
{
    if v >= 0 {
        let d = int_digits(v);
        let s = d + rest;
        assert(s =~= spec_int_chars(v) + rest);
        lemma_int_digits_wf(v);
        lemma_digits_count_concat(d, rest);
        assert(digits_count(s) == d.len());
        assert(s.take(d.len() as int) =~= d);
        lemma_dec_val_int_digits(v);
        assert(s[0] == d[0]);
        if v == 0 {
            assert(d == seq!['0']);
        } else {
            assert(d[0] != '0');
        }
        assert(is_digit(s[0]));
        assert(s[0] != '-');
        assert(parse_jnat(s) == Some((v, d.len() as int)));
        assert(parse_jint(s) == Some((v, d.len() as int)));
    } else {
        let d = int_digits(-v);
        let w = d + rest;
        let s = spec_int_chars(v) + rest;
        assert(s =~= seq!['-'] + d + rest);
        assert(s[0] == '-');
        assert(s.skip(1) =~= w);
        lemma_int_digits_wf(-v);
        lemma_digits_count_concat(d, rest);
        assert(digits_count(w) == d.len());
        assert(w.take(d.len() as int) =~= d);
        lemma_dec_val_int_digits(-v);
        assert(w[0] == d[0]);
        assert(d[0] != '0');
        assert(parse_jnat(w) == Some((-v, d.len() as int)));
        assert(parse_jint(s) == Some((v, 1 + d.len() as int)));
        assert(spec_int_chars(v).len() == 1 + d.len());
    }
}

/// A canonical id value reads back as itself when what follows is
/// not a digit.
pub proof fn lemma_id_value_roundtrip(id: Option<int>, rest: Seq<char>)
    requires
        match id {
            Some(v) => i32::MIN <= v <= i32::MAX,
            None => true,
        },
        rest.len() > 0,
        !is_digit(rest[0]),
    ensures
        parse_id_value(spec_id_chars(id) + rest) == Some((id, spec_id_chars(id).len() as int)),
{
    match id {
        None => {
            let s = lit_null() + rest;
            assert(s.subrange(0, 4) =~= lit_null());
            assert(s.len() >= 4);
            assert(parse_id_value(s) == Some((None::<int>, 4int)));
        },
        Some(v) => {
            let s = spec_int_chars(v) + rest;
            if v >= 0 {
                lemma_int_digits_wf(v);
                assert(s[0] == int_digits(v)[0]);
                assert(is_digit(s[0]));
            } else {
                assert(s[0] == '-');
            }
            if s.len() >= 4 && s.subrange(0, 4) == lit_null() {
                assert(s[0] == s.subrange(0, 4)[0]);
                assert(s[0] == 'n');
                assert(false);
            }
            lemma_jint_roundtrip(v, rest);
        },
    }
}

/// An encoded `id` member reads back into the accumulator.
pub proof fn lemma_member_id(idv: Option<int>, rest: Seq<char>, acc: AccView)
    requires
        acc.id is None,
        match idv {
            Some(v) => i32::MIN <= v <= i32::MAX,
            None => true,
        },
        rest.len() > 0,
        !is_digit(rest[0]),
    ensures
        parse_member(seq!['"', 'i', 'd', '"', ':'] + spec_id_chars(idv) + rest, acc) == Some(
            (AccView { id: Some(idv), name: acc.name, email: acc.email }, 5 + spec_id_chars(idv).len() as int),
        ),
{
    let idc = spec_id_chars(idv);
    let s = seq!['"', 'i', 'd', '"', ':'] + idc + rest;
    assert(s[0] == '"');
    assert(ws_count(s) == 0);
    assert(s.skip(0) =~= s);
    lemma_escape_plain(key_id());
    let tail1 = seq![':'] + idc + rest;
    assert(s =~= seq!['"'] + spec_escape(key_id()) + seq!['"'] + tail1);
    lemma_jstring_roundtrip(key_id(), tail1);
    assert(parse_jstring(s) == Some((key_id(), 4int)));
    let s2 = s.skip(4);
    assert(s2 =~= tail1);
    assert(s2[0] == ':');
    assert(ws_count(s2) == 0);
    assert(s2.skip(0) =~= s2);
    let s4 = s2.skip(1);
    assert(s4 =~= idc + rest);
    match idv {
        None => {
            assert(s4[0] == 'n');
        },
        Some(v) => {
            if v >= 0 {
                lemma_int_digits_wf(v);
                assert(s4[0] == int_digits(v)[0]);
                assert(is_digit(s4[0]));
            } else {
                assert(s4[0] == '-');
            }
        },
    }
    assert(!is_ws(s4[0]));
    assert(ws_count(s4) == 0);
    assert(s4.skip(0) =~= s4);
    lemma_id_value_roundtrip(idv, rest);
    assert(parse_id_value(s4) == Some((idv, idc.len() as int)));
}

/// An encoded `name` member reads back into the accumulator.
pub proof fn lemma_member_name(t: Seq<char>, rest: Seq<char>, acc: AccView)
    requires
        acc.name is None,
    ensures
        parse_member(
            seq!['"', 'n', 'a', 'm', 'e', '"', ':', '"'] + spec_escape(t) + seq!['"'] + rest,
            acc,
        ) == Some((AccView { id: acc.id, name: Some(t), email: acc.email }, 9 + spec_escape(t).len() as int)),
{
    let et = spec_escape(t);
    let s = seq!['"', 'n', 'a', 'm', 'e', '"', ':', '"'] + et + seq!['"'] + rest;
    assert(s[0] == '"');
    assert(ws_count(s) == 0);
    assert(s.skip(0) =~= s);
    lemma_escape_plain(key_name());
    let tail1 = seq![':', '"'] + et + seq!['"'] + rest;
    assert(s =~= seq!['"'] + spec_escape(key_name()) + seq!['"'] + tail1);
    lemma_jstring_roundtrip(key_name(), tail1);
    assert(parse_jstring(s) == Some((key_name(), 6int)));
    let s2 = s.skip(6);
    assert(s2 =~= tail1);
    assert(s2[0] == ':');
    assert(ws_count(s2) == 0);
    assert(s2.skip(0) =~= s2);
    let s4 = s2.skip(1);
    assert(s4 =~= seq!['"'] + et + seq!['"'] + rest);
    assert(s4[0] == '"');
    assert(ws_count(s4) == 0);
    assert(s4.skip(0) =~= s4);
    lemma_jstring_roundtrip(t, rest);
    assert(parse_jstring(s4) == Some((t, et.len() as int + 2)));
    assert(key_name().len() == 4 && key_id().len() == 2);
    assert(key_name() != key_id());
}

/// An encoded `email` member reads back into the accumulator.
pub proof fn lemma_member_email(t: Seq<char>, rest: Seq<char>, acc: AccView)
    requires
        acc.email is None,
    ensures
        parse_member(
            seq!['"', 'e', 'm', 'a', 'i', 'l', '"', ':', '"'] + spec_escape(t) + seq!['"'] + rest,
            acc,
        ) == Some(
            (AccView { id: acc.id, name: acc.name, email: Some(t) }, 10 + spec_escape(t).len() as int),
        ),
{
    let et = spec_escape(t);
    let s = seq!['"', 'e', 'm', 'a', 'i', 'l', '"', ':', '"'] + et + seq!['"'] + rest;
    assert(s[0] == '"');
    assert(ws_count(s) == 0);
    assert(s.skip(0) =~= s);
    lemma_escape_plain(key_email());
    let tail1 = seq![':', '"'] + et + seq!['"'] + rest;
    assert(s =~= seq!['"'] + spec_escape(key_email()) + seq!['"'] + tail1);
    lemma_jstring_roundtrip(key_email(), tail1);
    assert(parse_jstring(s) == Some((key_email(), 7int)));
    let s2 = s.skip(7);
    assert(s2 =~= tail1);
    assert(s2[0] == ':');
    assert(ws_count(s2) == 0);
    assert(s2.skip(0) =~= s2);
    let s4 = s2.skip(1);
    assert(s4 =~= seq!['"'] + et + seq!['"'] + rest);
    assert(s4[0] == '"');
    assert(ws_count(s4) == 0);
    assert(s4.skip(0) =~= s4);
    lemma_jstring_roundtrip(t, rest);
    assert(parse_jstring(s4) == Some((t, et.len() as int + 2)));
    assert(key_email().len() == 5 && key_id().len() == 2 && key_name().len() == 4);
    assert(key_email() != key_id());
    assert(key_email() != key_name());
}

/// Law: decoding the canonical encoding of any record whose id fits
/// gives back exactly that record.
#[verifier::rlimit(100)]
#[verifier::spinoff_prover]
pub proof fn lemma_decode_encode(u: UserView)
    requires
        u.id_in_range(),
    ensures
        spec_decode(spec_encode_user(u)) == Some(u),
{
    let idc = spec_id_chars(u.id);
    let en = spec_escape(u.name);
    let ee = spec_escape(u.email);
    let rest3 = seq!['}'];
    let m3 = seq!['"', 'e', 'm', 'a', 'i', 'l', '"', ':', '"'] + ee + seq!['"'] + rest3;
    let rest2 = seq![','] + m3;
    let m2 = seq!['"', 'n', 'a', 'm', 'e', '"', ':', '"'] + en + seq!['"'] + rest2;
    let rest1 = seq![','] + m2;
    let m1 = seq!['"', 'i', 'd', '"', ':'] + idc + rest1;
    let s = spec_encode_user(u);
    assert(s =~= seq!['{'] + m1);
    assert(s[0] == '{');
    assert(ws_count(s) == 0);
    assert(s.skip(0) =~= s);
    assert(s.skip(1) =~= m1);

    let acc0 = acc_empty();
    let acc1 = AccView { id: Some(u.id), name: None, email: None };
    let acc2 = AccView { id: Some(u.id), name: Some(u.name), email: None };
    let acc3 = AccView { id: Some(u.id), name: Some(u.name), email: Some(u.email) };

    lemma_member_id(u.id, rest1, acc0);
    assert(parse_member(m1, acc0) == Some((acc1, 5 + idc.len() as int)));
    assert(m1.skip(5 + idc.len() as int) =~= rest1);
    assert(rest1[0] == ',');
    assert(ws_count(rest1) == 0);
    assert(rest1.skip(0) =~= rest1);
    assert(rest1.skip(1) =~= m2);

    lemma_member_name(u.name, rest2, acc1);
    assert(parse_member(m2, acc1) == Some((acc2, 9 + en.len() as int)));
    assert(m2.skip(9 + en.len() as int) =~= rest2);
    assert(rest2[0] == ',');
    assert(ws_count(rest2) == 0);
    assert(rest2.skip(0) =~= rest2);
    assert(rest2.skip(1) =~= m3);

    lemma_member_email(u.email, rest3, acc2);
    assert(parse_member(m3, acc2) == Some((acc3, 10 + ee.len() as int)));
    assert(m3.skip(10 + ee.len() as int) =~= rest3);
    assert(rest3[0] == '}');
    assert(ws_count(rest3) == 0);
    assert(rest3.skip(0) =~= rest3);

    let f0 = m1.len();
    assert(f0 >= 3);
    assert(parse_members(m3, acc2, (f0 - 2) as nat) == Some((acc3, 11 + ee.len() as int)));
    assert(m3.len() == 11 + ee.len());
    assert(parse_members(m2, acc1, (f0 - 1) as nat) == Some(
        (acc3, 10 + en.len() as int + m3.len() as int),
    )) by {
        assert(parse_members(m2, acc1, (f0 - 1) as nat) == Some(
            (acc3, 9 + en.len() as int + 0 + 1 + (11 + ee.len() as int)),
        ));
    }
    assert(m2.len() == 10 + en.len() + m3.len());
    assert(parse_members(m1, acc0, f0) == Some((acc3, 6 + idc.len() as int + m2.len() as int))) by {
        assert(parse_members(m1, acc0, f0) == Some(
            (acc3, 5 + idc.len() as int + 0 + 1 + (10 + en.len() as int + m3.len() as int)),
        ));
    }
    assert(m1.len() == 6 + idc.len() + m2.len());

    let tail = s.skip(1).skip(m1.len() as int);
    assert(tail =~= Seq::<char>::empty());
    assert(ws_count(tail) == 0);
    assert(acc_finish(acc3) == Some(UserView { id: u.id, name: u.name, email: u.email }));
    assert(u == UserView { id: u.id, name: u.name, email: u.email });
}

} // verus!
