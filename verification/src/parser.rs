//! Raw-request parsing: the request line, the id segment of the
//! path, and the body after the blank line, exactly as the service
//! reads them off the wire.
use vstd::prelude::*;
use crate::codec::{spec_decode, decode_user};
use crate::user::User;
use crate::num::{
    digits_count, dec_val, pow10, is_digit, count_digits_from, dec_value_at,
    lemma_digits_count_le_len, lemma_dec_val_lower, lemma_dec_val_strip_zero, lemma_pow10_le,
};

verus! {

/// Why a request could not be used.
#[derive(PartialEq, Eq, Structural, Clone, Copy, Debug)]
pub enum ParseError {
    /// The id segment of the path is not an integer.
    InvalidId,
    /// The body is not a well-formed user object.
    InvalidBody,
}

/// The five operations the service knows, plus the unmatched case.
#[derive(PartialEq, Eq, Structural, Clone, Copy, Debug)]
pub enum Route {
    Create,
    ReadOne,
    ReadAll,
    Update,
    Delete,
    NoRoute,
}

/// `p` stands at the front of `s`.
pub open spec fn is_prefix(p: Seq<char>, s: Seq<char>) -> bool {
    p.len() <= s.len() && s.subrange(0, p.len() as int) == p
}

/// First-match routing over method and path prefix; the bare
/// `GET /users` case comes after the `GET /users/` case so that a
/// sub-path reads one record rather than all.
pub open spec fn spec_route(r: Seq<char>) -> Route {
    if is_prefix("POST /users"@, r) {
        Route::Create
    } else if is_prefix("GET /users/"@, r) {
        Route::ReadOne
    } else if is_prefix("GET /users"@, r) {
        Route::ReadAll
    } else if is_prefix("PUT /users"@, r) {
        Route::Update
    } else if is_prefix("DELETE /users"@, r) {
        Route::Delete
    } else {
        Route::NoRoute
    }
}

fn has_prefix(s: &str, len: usize, p: &str) -> (b: bool)
    requires
        len == s@.len(),
    ensures
        b == is_prefix(p@, s@),
{
    let plen = p.unicode_len();
    if plen > len {
        return false;
    }
    let mut i: usize = 0;
    while i < plen
        invariant
            0 <= i <= plen,
            plen == p@.len(),
            len == s@.len(),
            plen <= len,
            forall|k: int| 0 <= k < i ==> s@[k] == p@[k],
        decreases plen - i,
    {
        if s.get_char(i) != p.get_char(i) {
            proof {
                assert(s@.subrange(0, plen as int)[i as int] != p@[i as int]);
            }
            return false;
        }
        i = i + 1;
    }
    proof {
        assert(s@.subrange(0, plen as int) =~= p@);
    }
    true
}

/// Match the request against the route table.
pub fn route_request(request: &str) -> (r: Route)
    ensures
        r == spec_route(request@),
{
    let len = request.unicode_len();
    if has_prefix(request, len, "POST /users") {
        Route::Create
    } else if has_prefix(request, len, "GET /users/") {
        Route::ReadOne
    } else if has_prefix(request, len, "GET /users") {
        Route::ReadAll
    } else if has_prefix(request, len, "PUT /users") {
        Route::Update
    } else if has_prefix(request, len, "DELETE /users") {
        Route::Delete
    } else {
        Route::NoRoute
    }
}

/// Whitespace inside the request line.
pub open spec fn is_line_ws(c: char) -> bool {
    c == ' ' || c == '\t'
}

/// Index of the first newline at or after `i`, or the length.
pub open spec fn line_end(s: Seq<char>, i: int) -> int
    decreases s.len() - i,
{
    if !(0 <= i < s.len()) {
        s.len() as int
    } else if s[i] == '\n' {
        i
    } else {
        line_end(s, i + 1)
    }
}

/// Index of the first non-blank at or after `i`, or the length.
pub open spec fn skip_sp(s: Seq<char>, i: int) -> int
    decreases s.len() - i,
{
    if !(0 <= i < s.len()) {
        s.len() as int
    } else if is_line_ws(s[i]) {
        skip_sp(s, i + 1)
    } else {
        i
    }
}

/// Index of the first blank at or after `i`, or the length.
pub open spec fn token_end(s: Seq<char>, i: int) -> int
    decreases s.len() - i,
{
    if !(0 <= i < s.len()) {
        s.len() as int
    } else if is_line_ws(s[i]) {
        i
    } else {
        token_end(s, i + 1)
    }
}

/// Index of the first `c` at or after `i`, or the length.
pub open spec fn find_char(s: Seq<char>, c: char, i: int) -> int
    decreases s.len() - i,
{
    if !(0 <= i < s.len()) {
        s.len() as int
    } else if s[i] == c {
        i
    } else {
        find_char(s, c, i + 1)
    }
}

/// The first line of the request, its line ending stripped.
pub open spec fn spec_first_line(s: Seq<char>) -> Seq<char> {
    let e = line_end(s, 0);
    let e2 = if e > 0 && s[e - 1] == '\r' {
        e - 1
    } else {
        e
    };
    s.subrange(0, e2)
}

/// The second blank-separated token of the first line: the path.
/// `None` when the line has fewer than two tokens.
pub open spec fn spec_path(s: Seq<char>) -> Option<Seq<char>> {
    let line = spec_first_line(s);
    let a = skip_sp(line, 0);
    if a >= line.len() {
        None
    } else {
        let b = token_end(line, a);
        let c = skip_sp(line, b);
        if c >= line.len() {
            None
        } else {
            Some(line.subrange(c, token_end(line, c)))
        }
    }
}

/// The path segment after `users`: what stands between the second
/// and third slash.  Empty when there is no such segment.
pub open spec fn spec_seg2(p: Seq<char>) -> Seq<char> {
    let p1 = find_char(p, '/', 0);
    if p1 >= p.len() {
        Seq::empty()
    } else {
        let p2 = find_char(p, '/', p1 + 1);
        if p2 >= p.len() {
            Seq::empty()
        } else {
            p.subrange(p2 + 1, find_char(p, '/', p2 + 1))
        }
    }
}

/// A signed 32-bit integer read the way the standard parser reads
/// it: an optional sign, then digits only, rejected on any other
/// character, an empty numeral, or overflow.
pub open spec fn spec_parse_i32_str(s: Seq<char>) -> Option<int> {
    let signed = s.len() > 0 && (s[0] == '+' || s[0] == '-');
    let body = if signed {
        s.skip(1)
    } else {
        s
    };
    if body.len() == 0 || digits_count(body) != body.len() {
        None
    } else {
        let v = if s[0] == '-' {
            -dec_val(body)
        } else {
            dec_val(body)
        };
        if i32::MIN <= v <= i32::MAX {
            Some(v)
        } else {
            None
        }
    }
}

/// The id a request asks for: the `users/` path segment as an
/// integer.  `None` stands for the id parse error: the request line
/// has no path, or the segment is missing or not a number.
pub open spec fn spec_get_id(s: Seq<char>) -> Option<int> {
    match spec_path(s) {
        None => None,
        Some(p) => spec_parse_i32_str(spec_seg2(p)),
    }
}

fn line_end_at(s: &str, len: usize, i: usize) -> (r: usize)
    requires
        len == s@.len(),
        i <= len,
    ensures
        r == line_end(s@, i as int),
        i <= r <= len,
    decreases len - i,
{
    if i < len {
        if s.get_char(i) == '\n' {
            i
        } else {
            line_end_at(s, len, i + 1)
        }
    } else {
        len
    }
}

fn skip_sp_at(s: &str, len: usize, i: usize) -> (r: usize)
    requires
        len == s@.len(),
        i <= len,
    ensures
        r == skip_sp(s@, i as int),
        i <= r <= len,
    decreases len - i,
{
    if i < len {
        let c = s.get_char(i);
        if c == ' ' || c == '\t' {
            skip_sp_at(s, len, i + 1)
        } else {
            i
        }
    } else {
        len
    }
}

fn token_end_at(s: &str, len: usize, i: usize) -> (r: usize)
    requires
        len == s@.len(),
        i <= len,
    ensures
        r == token_end(s@, i as int),
        i <= r <= len,
    decreases len - i,
{
    if i < len {
        let c = s.get_char(i);
        if c == ' ' || c == '\t' {
            i
        } else {
            token_end_at(s, len, i + 1)
        }
    } else {
        len
    }
}

fn find_char_at(s: &str, len: usize, c: char, i: usize) -> (r: usize)
    requires
        len == s@.len(),
        i <= len,
    ensures
        r == find_char(s@, c, i as int),
        i <= r <= len,
    decreases len - i,
{
    if i < len {
        if s.get_char(i) == c {
            i
        } else {
            find_char_at(s, len, c, i + 1)
        }
    } else {
        len
    }
}

/// Read a signed 32-bit integer from the whole of `s`.
fn parse_i32_str(s: &str) -> (r: Option<i32>)
    ensures
        match spec_parse_i32_str(s@) {
            Some(v) => r matches Some(x) && x as int == v,
            None => r is None,
        },
{
    let len = s.unicode_len();
    let signed = len > 0 && (s.get_char(0) == '+' || s.get_char(0) == '-');
    let neg = len > 0 && s.get_char(0) == '-';
    let start: usize = if signed {
        1
    } else {
        0
    };
    let ghost body = if signed {
        s@.skip(1)
    } else {
        s@
    };
    proof {
        assert(s@.skip(0) =~= s@);
    }
    if start >= len {
        return None;
    }
    let k = count_digits_from(s, len, start);
    proof {
        assert(body == s@.skip(start as int));
    }
    if start + k != len {
        proof {
            lemma_digits_count_le_len(body);
        }
        return None;
    }
    // all of `body` is digits
    proof {
        lemma_digits_count_le_len(body);
        assert(forall|m: int| start <= m < len ==> is_digit(#[trigger] s@[m])) by {
            assert(forall|m: int| 0 <= m < body.len() ==> is_digit(#[trigger] body[m]));
            assert(forall|m: int| start <= m < len ==> s@[m] == body[m - start as int]);
        }
    }
    // strip leading zeros so the significant width can be judged
    let mut z: usize = start;
    while z < len && s.get_char(z) == '0'
        invariant
            start <= z <= len,
            len == s@.len(),
            forall|m: int| start <= m < len ==> is_digit(#[trigger] s@[m]),
            dec_val(s@.skip(start as int)) == dec_val(s@.skip(z as int)),
        decreases len - z,
    {
        proof {
            let w = s@.skip(z as int);
            assert(w[0] == s@[z as int]);
            lemma_dec_val_strip_zero(w);
            assert(w.skip(1) =~= s@.skip(z as int + 1));
        }
        z = z + 1;
    }
    let width = len - z;
    let ghost sig = s@.skip(z as int);
    proof {
        assert(forall|m: int| 0 <= m < sig.len() ==> is_digit(#[trigger] sig[m])) by {
            assert(forall|m: int| 0 <= m < sig.len() ==> sig[m] == s@[m + z as int]);
        }
    }
    if width > 10 {
        proof {
            assert(sig[0] == s@[z as int]);
            lemma_dec_val_lower(sig);
            lemma_pow10_le(10, sig.len() - 1);
            assert(pow10(10) == 10000000000) by {
                reveal_with_fuel(pow10, 11);
            }
            assert(dec_val(body) >= 10000000000);
        }
        return None;
    }
    let v = dec_value_at(s, len, z, width);
    proof {
        assert(s@.subrange(z as int, (z + width) as int) =~= sig);
        assert(dec_val(body) == v);
        assert(pow10(10) == 10000000000) by {
            reveal_with_fuel(pow10, 11);
        }
        lemma_pow10_le(width as int, 10);
        assert(v < 10000000000);
    }
    if neg {
        if v > 2147483648 {
            None
        } else {
            Some((-v) as i32)
        }
    } else {
        if v > 2147483647 {
            None
        } else {
            Some(v as i32)
        }
    }
}

/// The id this request asks for; `InvalidId` when the path segment
/// after `users` is not an integer.
pub fn get_id_from_request(request: &str) -> (r: Result<i32, ParseError>)
    ensures
        match spec_get_id(request@) {
            Some(v) => r matches Ok(x) && x as int == v,
            None => r == Err::<i32, ParseError>(ParseError::InvalidId),
        },
{
    let len = request.unicode_len();
    let e = line_end_at(request, len, 0);
    let e2 = if e > 0 && request.get_char(e - 1) == '\r' {
        e - 1
    } else {
        e
    };
    let line = request.substring_char(0, e2);
    let llen = e2;
    proof {
        assert(line@ == spec_first_line(request@));
    }
    let a = skip_sp_at(line, llen, 0);
    if a >= llen {
        return Err(ParseError::InvalidId);
    }
    let b = token_end_at(line, llen, a);
    let c = skip_sp_at(line, llen, b);
    if c >= llen {
        return Err(ParseError::InvalidId);
    }
    let d = token_end_at(line, llen, c);
    let path = line.substring_char(c, d);
    proof {
        assert(spec_path(request@) == Some(path@));
    }
    let plen = d - c;
    let p1 = find_char_at(path, plen, '/', 0);
    if p1 >= plen {
        proof {
            assert(spec_seg2(path@) =~= Seq::<char>::empty());
            assert(spec_parse_i32_str(Seq::<char>::empty()) is None);
        }
        return Err(ParseError::InvalidId);
    }
    let p2 = find_char_at(path, plen, '/', p1 + 1);
    if p2 >= plen {
        proof {
            assert(spec_seg2(path@) =~= Seq::<char>::empty());
            assert(spec_parse_i32_str(Seq::<char>::empty()) is None);
        }
        return Err(ParseError::InvalidId);
    }
    let p3 = find_char_at(path, plen, '/', p2 + 1);
    let seg = path.substring_char(p2 + 1, p3);
    proof {
        assert(seg@ == spec_seg2(path@));
    }
    match parse_i32_str(seg) {
        Some(v) => Ok(v),
        None => Err(ParseError::InvalidId),
    }
}

/// The blank-line separator between headers and body.
pub open spec fn spec_sep() -> Seq<char> {
    seq!['\r', '\n', '\r', '\n']
}

/// Index of the first separator at or after `i`, or the length when
/// none fits.
pub open spec fn find_sep(s: Seq<char>, i: int) -> int
    decreases s.len() - i,
{
    if !(0 <= i) || i + 4 > s.len() {
        s.len() as int
    } else if s.subrange(i, i + 4) == spec_sep() {
        i
    } else {
        find_sep(s, i + 1)
    }
}

/// The body: everything after the first separator.  Empty when
/// there is no separator.
pub open spec fn spec_body(s: Seq<char>) -> Seq<char> {
    let p = find_sep(s, 0);
    if p == s.len() {
        Seq::empty()
    } else {
        s.subrange(p + 4, s.len() as int)
    }
}

fn find_sep_at(s: &str, len: usize, i: usize) -> (r: usize)
    requires
        len == s@.len(),
        i <= len,
    ensures
        r == find_sep(s@, i as int),
        i <= r <= len,
        r == len || r + 4 <= len,
    decreases len - i,
{
    if len - i < 4 {
        len
    } else {
        let hit = s.get_char(i) == '\r' && s.get_char(i + 1) == '\n' && s.get_char(i + 2) == '\r'
            && s.get_char(i + 3) == '\n';
        proof {
            let w = s@.subrange(i as int, i as int + 4);
            assert(w[0] == s@[i as int]);
            assert(w[1] == s@[i as int + 1]);
            assert(w[2] == s@[i as int + 2]);
            assert(w[3] == s@[i as int + 3]);
            if hit {
                assert(w =~= spec_sep());
            } else {
                assert(w != spec_sep());
            }
        }
        if hit {
            i
        } else {
            find_sep_at(s, len, i + 1)
        }
    }
}

/// The body of the request: everything after the blank line.
pub fn get_body<'a>(request: &'a str) -> (b: &'a str)
    ensures
        b@ == spec_body(request@),
{
    let len = request.unicode_len();
    let p = find_sep_at(request, len, 0);
    if p == len {
        let empty = request.substring_char(0, 0);
        proof {
            assert(empty@ =~= spec_body(request@));
        }
        empty
    } else {
        request.substring_char(p + 4, len)
    }
}

/// What a request's body decodes to, if anything.
pub open spec fn spec_parse_user_body(s: Seq<char>) -> Option<crate::user::UserView> {
    spec_decode(spec_body(s))
}

/// The user record carried in the request body; `InvalidBody` when
/// the body is not one well-formed user object.
pub fn parse_user_body(request: &str) -> (r: Result<User, ParseError>)
    ensures
        match spec_parse_user_body(request@) {
            Some(u) => r matches Ok(x) && x@ == u,
            None => r == Err::<User, ParseError>(ParseError::InvalidBody),
        },
{
    let body = get_body(request);
    match decode_user(body) {
        Some(u) => Ok(u),
        None => Err(ParseError::InvalidBody),
    }
}

} // verus!
