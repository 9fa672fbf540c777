//! Decimal numerals: the spec of digit strings and their values, and
//! the verified readers and writers the parser and the codec share.
use vstd::prelude::*;

verus! {

pub open spec fn is_digit(c: char) -> bool {
    '0' <= c && c <= '9'
}

pub open spec fn digit_val(c: char) -> int {
    c as int - '0' as int
}

/// The digit character for a value below ten.
pub open spec fn digit_char(d: int) -> char {
    if d == 0 { '0' }
    else if d == 1 { '1' }
    else if d == 2 { '2' }
    else if d == 3 { '3' }
    else if d == 4 { '4' }
    else if d == 5 { '5' }
    else if d == 6 { '6' }
    else if d == 7 { '7' }
    else if d == 8 { '8' }
    else { '9' }
}

/// How many digits stand at the front of `s`.
pub open spec fn digits_count(s: Seq<char>) -> int
    decreases s.len(),
{
    if s.len() > 0 && is_digit(s[0]) {
        1 + digits_count(s.skip(1))
    } else {
        0
    }
}

/// The value of a digit string read in base ten.
pub open spec fn dec_val(s: Seq<char>) -> int
    decreases s.len(),
{
    if s.len() == 0 {
        0
    } else {
        dec_val(s.drop_last()) * 10 + digit_val(s.last())
    }
}

pub open spec fn pow10(k: int) -> int
    decreases k,
{
    if k <= 0 {
        1
    } else {
        10 * pow10(k - 1)
    }
}

/// The canonical digit string of a nonnegative value, most
/// significant digit first, no leading zeros.
pub open spec fn int_digits(n: int) -> Seq<char>
    decreases n,
{
    if n < 10 {
        seq![digit_char(if n < 0 { 0 } else { n })]
    } else {
        int_digits(n / 10) + seq![digit_char(n % 10)]
    }
}

pub proof fn lemma_digits_count_le_len(s: Seq<char>)
    ensures
        0 <= digits_count(s) <= s.len(),
        forall|k: int| 0 <= k < digits_count(s) ==> is_digit(#[trigger] s[k]),
        digits_count(s) < s.len() ==> !is_digit(s[digits_count(s)]),
    decreases s.len(),
{
    if s.len() > 0 && is_digit(s[0]) {
        lemma_digits_count_le_len(s.skip(1));
        assert forall|k: int| 0 <= k < digits_count(s) implies is_digit(#[trigger] s[k]) by {
            if k > 0 {
                assert(is_digit(s.skip(1)[k - 1]));
            }
        }
        if digits_count(s) < s.len() {
            assert(!is_digit(s.skip(1)[digits_count(s) - 1]));
        }
    }
}

/// A digit string with a nonzero first digit is at least ten to one
/// less than its length.
pub proof fn lemma_dec_val_lower(s: Seq<char>)
    requires
        s.len() > 0,
        forall|k: int| 0 <= k < s.len() ==> is_digit(#[trigger] s[k]),
        s[0] != '0',
    ensures
        dec_val(s) >= pow10(s.len() - 1),
    decreases s.len(),
{
    if s.len() > 1 {
        assert(s.drop_last()[0] == s[0]);
        lemma_dec_val_lower(s.drop_last());
    } else {
        assert(s.len() == 1);
        assert(s.drop_last() =~= Seq::<char>::empty());
        assert(dec_val(s.drop_last()) == 0);
        assert(s.last() == s[0]);
        assert(dec_val(s) == dec_val(s.drop_last()) * 10 + digit_val(s.last()));
        assert(dec_val(s) == digit_val(s[0]));
    }
}

/// A leading zero does not change the value.
pub proof fn lemma_dec_val_strip_zero(s: Seq<char>)
    requires
        s.len() > 0,
        s[0] == '0',
    ensures
        dec_val(s) == dec_val(s.skip(1)),
    decreases s.len(),
{
    if s.len() == 1 {
        assert(s.skip(1) =~= Seq::<char>::empty());
        assert(dec_val(s) == dec_val(s.drop_last()) * 10 + digit_val(s.last()));
    } else {
        assert(s.drop_last()[0] == '0');
        lemma_dec_val_strip_zero(s.drop_last());
        assert(s.drop_last().skip(1) =~= s.skip(1).drop_last());
        assert(s.skip(1).last() == s.last());
    }
}

/// The canonical digit string holds digits only, and starts nonzero
/// unless the value is zero.
pub proof fn lemma_int_digits_wf(n: int)
    requires
        n >= 0,
    ensures
        int_digits(n).len() >= 1,
        forall|k: int| 0 <= k < int_digits(n).len() ==> is_digit(#[trigger] int_digits(n)[k]),
        n >= 1 ==> int_digits(n)[0] != '0',
        n == 0 ==> int_digits(n) == seq!['0'],
    decreases n,
{
    if n >= 10 {
        vstd::arithmetic::div_mod::lemma_div_is_ordered_by_denominator(n, 1, 10);
        vstd::arithmetic::div_mod::lemma_div_pos_is_pos(n, 10);
        vstd::arithmetic::div_mod::lemma_mod_division_less_than_divisor(n, 10);
        lemma_int_digits_wf(n / 10);
        assert(int_digits(n) == int_digits(n / 10) + seq![digit_char(n % 10)]);
        assert(int_digits(n)[0] == int_digits(n / 10)[0]);
        assert(n / 10 >= 1) by {
            vstd::arithmetic::div_mod::lemma_div_non_zero(n, 10);
        }
    }
}

/// Reading the canonical digit string back gives the value.
pub proof fn lemma_dec_val_int_digits(n: int)
    requires
        n >= 0,
    ensures
        dec_val(int_digits(n)) == n,
    decreases n,
{
    if n < 10 {
        assert(int_digits(n) == seq![digit_char(n)]);
        assert(dec_val(seq![digit_char(n)]) == dec_val(seq![digit_char(n)].drop_last()) * 10
            + digit_val(seq![digit_char(n)].last()));
        assert(seq![digit_char(n)].drop_last() =~= Seq::<char>::empty());
    } else {
        vstd::arithmetic::div_mod::lemma_div_pos_is_pos(n, 10);
        vstd::arithmetic::div_mod::lemma_div_is_ordered_by_denominator(n, 1, 10);
        lemma_dec_val_int_digits(n / 10);
        let s = int_digits(n);
        assert(s == int_digits(n / 10) + seq![digit_char(n % 10)]);
        assert(s.drop_last() =~= int_digits(n / 10));
        vstd::arithmetic::div_mod::lemma_mod_division_less_than_divisor(n, 10);
        assert(s.last() == digit_char(n % 10));
        assert(digit_val(digit_char(n % 10)) == n % 10);
        vstd::arithmetic::div_mod::lemma_fundamental_div_mod(n, 10);
    }
}

/// Appending characters that are not digits leaves the digit count
/// of the front part.
pub proof fn lemma_digits_count_concat(a: Seq<char>, b: Seq<char>)
    requires
        forall|k: int| 0 <= k < a.len() ==> is_digit(#[trigger] a[k]),
        b.len() > 0 ==> !is_digit(b[0]),
    ensures
        digits_count(a + b) == a.len(),
    decreases a.len(),
{
    if a.len() == 0 {
        assert(a + b =~= b);
    } else {
        assert((a + b).skip(1) =~= a.skip(1) + b);
        assert(forall|k: int| 0 <= k < a.skip(1).len() ==> is_digit(#[trigger] a.skip(1)[k]));
        lemma_digits_count_concat(a.skip(1), b);
    }
}

/// How many digits stand at and after position `i`.
pub fn count_digits_from(s: &str, len: usize, i: usize) -> (n: usize)
    requires
        len == s@.len(),
        i <= len,
    ensures
        n == digits_count(s@.skip(i as int)),
        i + n <= len,
    decreases len - i,
{
    if i < len {
        let c = s.get_char(i);
        if '0' <= c && c <= '9' {
            let rest = count_digits_from(s, len, i + 1);
            proof {
                assert(s@.skip(i as int)[0] == s@[i as int]);
                assert(s@.skip(i as int).skip(1) =~= s@.skip(i as int + 1));
            }
            1 + rest
        } else {
            0
        }
    } else {
        0
    }
}

/// The exact value of the `k` digits starting at `start`; `k` is
/// small enough that the value fits a 64-bit integer.
pub fn dec_value_at(s: &str, len: usize, start: usize, k: usize) -> (v: i64)
    requires
        len == s@.len(),
        start + k <= len,
        k <= 18,
        forall|m: int| start <= m < start + k ==> is_digit(#[trigger] s@[m]),
    ensures
        v == dec_val(s@.subrange(start as int, (start + k) as int)),
        0 <= v < pow10(k as int),
{
    proof {
        assert(pow10(18) == 1000000000000000000) by {
            reveal_with_fuel(pow10, 19);
        }
        assert(pow10(17) == 100000000000000000) by {
            reveal_with_fuel(pow10, 18);
        }
    }
    let mut acc: i64 = 0;
    let mut m: usize = 0;
    proof {
        assert(s@.subrange(start as int, start as int) =~= Seq::<char>::empty());
    }
    while m < k
        invariant
            0 <= m <= k,
            k <= 18,
            len == s@.len(),
            start + k <= len,
            forall|j: int| start <= j < start + k ==> is_digit(#[trigger] s@[j]),
            acc == dec_val(s@.subrange(start as int, (start + m) as int)),
            0 <= acc < pow10(m as int),
            pow10(17) == 100000000000000000,
        decreases k - m,
    {
        let c = s.get_char(start + m);
        let d: i64 = (c as u32 as i64) - ('0' as u32 as i64);
        proof {
            assert(is_digit(s@[start + m]));
            assert(0 <= d <= 9);
            let a = s@.subrange(start as int, (start + m) as int);
            let b = s@.subrange(start as int, (start + m + 1) as int);
            assert(b.drop_last() =~= a);
            assert(b.last() == s@[start + m]);
            assert(pow10(m as int) <= pow10(17)) by {
                lemma_pow10_le(m as int, 17);
            }
        }
        acc = acc * 10 + d;
        m = m + 1;
    }
    acc
}

/// Ten to a power grows with the exponent.
pub proof fn lemma_pow10_le(a: int, b: int)
    requires
        a <= b,
    ensures
        pow10(a) <= pow10(b),
        pow10(a) >= 1,
    decreases b - a,
{
    if a < b {
        lemma_pow10_le(a, b - 1);
    } else if a == b {
        lemma_pow10_pos(a);
    }
}

pub proof fn lemma_pow10_pos(a: int)
    ensures
        pow10(a) >= 1,
    decreases a,
{
    if a > 0 {
        lemma_pow10_pos(a - 1);
    }
}

/// Write the canonical digit string of a nonnegative value onto the
/// end of `out`.
pub fn push_nat(out: &mut Vec<char>, n: u64)
    ensures
        final(out)@ == old(out)@ + int_digits(n as int),
    decreases n,
{
    if n < 10 {
        let c = digit_char_of(n);
        out.push(c);
        proof {
            assert(out@ =~= old(out)@ + int_digits(n as int));
        }
    } else {
        let ghost pre = out@;
        push_nat(out, n / 10);
        let c = digit_char_of(n % 10);
        out.push(c);
        proof {
            assert(int_digits(n as int) == int_digits(n as int / 10) + seq![digit_char(n as int % 10)]);
            assert(n as int / 10 == (n / 10) as int);
            assert(n as int % 10 == (n % 10) as int);
            assert(out@ =~= pre + int_digits(n as int));
        }
    }
}

/// The digit character of a value below ten.
fn digit_char_of(d: u64) -> (c: char)
    requires
        d <= 9,
    ensures
        c == digit_char(d as int),
{
    if d == 0 { '0' }
    else if d == 1 { '1' }
    else if d == 2 { '2' }
    else if d == 3 { '3' }
    else if d == 4 { '4' }
    else if d == 5 { '5' }
    else if d == 6 { '6' }
    else if d == 7 { '7' }
    else if d == 8 { '8' }
    else { '9' }
}

} // verus!
