//! Verified decimal formatting of byte counts.
//!
//! Sizes are held in bytes and rendered either exactly (value / 2^s as a
//! terminating decimal fraction, used by the JSON export) or rounded to
//! two decimal places with ties rounding up (used by the CSV export and
//! the display view). Parsing counterparts exist at the specification
//! level so that exactness of the rendering can be stated and proved.

use vstd::prelude::*;
use vstd::arithmetic::div_mod::lemma_fundamental_div_mod;

verus! {

/// The character for one decimal digit.
pub open spec fn digit_char(d: nat) -> char {
    if d == 0 {
        '0'
    } else if d == 1 {
        '1'
    } else if d == 2 {
        '2'
    } else if d == 3 {
        '3'
    } else if d == 4 {
        '4'
    } else if d == 5 {
        '5'
    } else if d == 6 {
        '6'
    } else if d == 7 {
        '7'
    } else if d == 8 {
        '8'
    } else {
        '9'
    }
}

/// The value of one decimal digit character.
pub open spec fn char_val(c: char) -> nat {
    if c == '0' {
        0
    } else if c == '1' {
        1
    } else if c == '2' {
        2
    } else if c == '3' {
        3
    } else if c == '4' {
        4
    } else if c == '5' {
        5
    } else if c == '6' {
        6
    } else if c == '7' {
        7
    } else if c == '8' {
        8
    } else {
        9
    }
}

pub open spec fn is_digit_char(c: char) -> bool {
    c == '0' || c == '1' || c == '2' || c == '3' || c == '4' || c == '5' || c == '6' || c == '7'
        || c == '8' || c == '9'
}

/// Decimal digits of `n`, most significant first, no leading zeros
/// (a single zero for `n == 0`).
pub open spec fn dec_digits(n: nat) -> Seq<char>
    decreases n,
{
    if n < 10 {
        seq![digit_char(n)]
    } else {
        dec_digits(n / 10).push(digit_char(n % 10))
    }
}

/// Value of a decimal digit string, most significant first.
pub open spec fn parse_dec(s: Seq<char>) -> nat
    decreases s.len(),
{
    if s.len() == 0 {
        0
    } else {
        parse_dec(s.drop_last()) * 10 + char_val(s.last())
    }
}

/// Rendering an integer and reading it back loses nothing.
pub proof fn lemma_dec_roundtrip(n: nat)
    ensures
        parse_dec(dec_digits(n)) == n,
    decreases n,
{
    if n < 10 {
        let s = dec_digits(n);
        assert(s.drop_last() =~= Seq::<char>::empty());
        assert(parse_dec(Seq::<char>::empty()) == 0);
        assert(s.last() == digit_char(n));
        assert(char_val(digit_char(n)) == n);
        assert(parse_dec(s) == 0 * 10 + char_val(digit_char(n)));
    } else {
        lemma_dec_roundtrip(n / 10);
        let s = dec_digits(n);
        assert(s.drop_last() =~= dec_digits(n / 10));
        assert(s.last() == digit_char(n % 10));
        assert(char_val(digit_char(n % 10)) == n % 10);
        assert(parse_dec(s) == parse_dec(dec_digits(n / 10)) * 10 + char_val(digit_char(n % 10)));
        lemma_fundamental_div_mod(n as int, 10);
    }
}

/// Every character of `dec_digits` is a decimal digit.
pub proof fn lemma_dec_digits_are_digits(n: nat)
    ensures
        forall|i: int| 0 <= i < dec_digits(n).len() ==> is_digit_char(#[trigger] dec_digits(n)[i]),
    decreases n,
{
    if n < 10 {
        assert forall|i: int| 0 <= i < dec_digits(n).len() implies is_digit_char(
            #[trigger] dec_digits(n)[i],
        ) by {
            assert(dec_digits(n)[i] == digit_char(n));
        }
    } else {
        lemma_dec_digits_are_digits(n / 10);
        assert forall|i: int| 0 <= i < dec_digits(n).len() implies is_digit_char(
            #[trigger] dec_digits(n)[i],
        ) by {
            if i < dec_digits(n / 10).len() {
                assert(dec_digits(n)[i] == dec_digits(n / 10)[i]);
            } else {
                assert(dec_digits(n)[i] == digit_char(n % 10));
            }
        }
    }
}

/// Appends one digit character.
fn push_digit(out: &mut String, d: u64)
    requires
        d < 10,
    ensures
        final(out)@ == old(out)@.push(digit_char(d as nat)),
{
    proof {
        reveal_strlit("0");
        reveal_strlit("1");
        reveal_strlit("2");
        reveal_strlit("3");
        reveal_strlit("4");
        reveal_strlit("5");
        reveal_strlit("6");
        reveal_strlit("7");
        reveal_strlit("8");
        reveal_strlit("9");
    }
    if d == 0 {
        out.append("0");
    } else if d == 1 {
        out.append("1");
    } else if d == 2 {
        out.append("2");
    } else if d == 3 {
        out.append("3");
    } else if d == 4 {
        out.append("4");
    } else if d == 5 {
        out.append("5");
    } else if d == 6 {
        out.append("6");
    } else if d == 7 {
        out.append("7");
    } else if d == 8 {
        out.append("8");
    } else {
        out.append("9");
    }
    assert(out@ =~= old(out)@.push(digit_char(d as nat)));
}

/// Appends `n` in decimal.
pub fn push_u64(out: &mut String, n: u64)
    ensures
        final(out)@ == old(out)@ + dec_digits(n as nat),
    decreases n,
{
    if n < 10 {
        push_digit(out, n);
        assert(out@ =~= old(out)@ + dec_digits(n as nat));
    } else {
        push_u64(out, n / 10);
        push_digit(out, n % 10);
        assert(out@ =~= old(out)@ + dec_digits(n as nat));
    }
}

/// Digits after the decimal point of `r / den`, produced by long
/// division, stopping when the remainder is zero or after `fuel` digits.
/// With enough fuel for the divisors used here the remainder always
/// reaches zero, so no trailing zeros are produced and nothing is cut off.
pub open spec fn frac_digits(r: nat, den: nat, fuel: nat) -> Seq<char>
    decreases fuel,
{
    if r == 0 || fuel == 0 || den == 0 {
        Seq::<char>::empty()
    } else {
        seq![digit_char(r * 10 / den)] + frac_digits(r * 10 % den, den, (fuel - 1) as nat)
    }
}

/// Value of a fraction digit string: the numerator over `den` it denotes.
pub open spec fn parse_frac(s: Seq<char>, den: nat) -> nat
    decreases s.len(),
{
    if s.len() == 0 {
        0
    } else {
        (char_val(s.first()) * den + parse_frac(s.drop_first(), den)) / 10
    }
}

/// Rendering a fraction and reading it back loses nothing, given fuel
/// that lets the long division run out: `r * 10^fuel` divisible by `den`.
pub proof fn lemma_frac_roundtrip(r: nat, den: nat, fuel: nat)
    requires
        0 < den,
        r < den,
        (r * pow10(fuel)) % den == 0,
    ensures
        parse_frac(frac_digits(r, den, fuel), den) == r,
    decreases fuel,
{
    if r == 0 {
    } else if fuel == 0 {
        assert(r * pow10(0) == r) by (nonlinear_arith);
        assert(r % den == r) by {
            vstd::arithmetic::div_mod::lemma_small_mod(r, den);
        }
    } else {
        let t = r * 10;
        let d = t / den;
        let r2 = t % den;
        lemma_fundamental_div_mod(t as int, den as int);
        assert(t == den * d + r2);
        assert(den * d == d * den) by (nonlinear_arith);
        // divisibility carries to the next step
        assert((r2 * pow10((fuel - 1) as nat)) % den == 0) by {
            let p = pow10((fuel - 1) as nat);
            assert(pow10(fuel) == 10 * p);
            assert(r * (10 * p) == (r * 10) * p) by (nonlinear_arith);
            vstd::arithmetic::div_mod::lemma_mul_mod_noop_left(t as int, p as int, den as int);
        }
        lemma_frac_roundtrip(r2, den, (fuel - 1) as nat);
        let digits = frac_digits(r, den, fuel);
        assert(digits.first() == digit_char(d));
        assert(digits.drop_first() =~= frac_digits(r2, den, (fuel - 1) as nat));
        assert(d < 10) by (nonlinear_arith)
            requires 0 < den, r < den, d == (r * 10) / den;
        assert(char_val(digit_char(d)) == d);
        assert(parse_frac(digits, den) == (d * den + r2) / 10);
        assert((d * den + r2) / 10 == r) by {
            assert(d * den + r2 == r * 10);
            assert((r * 10) / 10 == r) by (nonlinear_arith);
        }
    }
}

/// Every character of `frac_digits` is a decimal digit.
pub proof fn lemma_frac_digits_are_digits(r: nat, den: nat, fuel: nat)
    ensures
        forall|i: int|
            0 <= i < frac_digits(r, den, fuel).len() ==> is_digit_char(
                #[trigger] frac_digits(r, den, fuel)[i],
            ),
    decreases fuel,
{
    if !(r == 0 || fuel == 0 || den == 0) {
        lemma_frac_digits_are_digits(r * 10 % den, den, (fuel - 1) as nat);
        let rest = frac_digits(r * 10 % den, den, (fuel - 1) as nat);
        assert forall|i: int| 0 <= i < frac_digits(r, den, fuel).len() implies is_digit_char(
            #[trigger] frac_digits(r, den, fuel)[i],
        ) by {
            if i == 0 {
                assert(frac_digits(r, den, fuel)[0] == digit_char(r * 10 / den));
            } else {
                assert(frac_digits(r, den, fuel)[i] == rest[i - 1]);
            }
        }
    }
}

/// Powers of ten.
pub open spec fn pow10(k: nat) -> nat
    decreases k,
{
    if k == 0 {
        1
    } else {
        10 * pow10((k - 1) as nat)
    }
}

/// Appends the fraction digits of `r / den`.
pub fn push_frac(out: &mut String, r: u64, den: u64, fuel: u64)
    requires
        0 < den <= 1073741824,
        r < den,
    ensures
        final(out)@ == old(out)@ + frac_digits(r as nat, den as nat, fuel as nat),
    decreases fuel,
{
    if r == 0 || fuel == 0 {
        assert(out@ =~= old(out)@ + frac_digits(r as nat, den as nat, fuel as nat));
    } else {
        let t = r * 10;
        let d = t / den;
        assert(d < 10) by (nonlinear_arith)
            requires 0 < den, r < den, t == r * 10, d == t / den;
        push_digit(out, d);
        push_frac(out, t % den, den, fuel - 1);
        assert(out@ =~= old(out)@ + frac_digits(r as nat, den as nat, fuel as nat));
    }
}

/// `n / den` rounded to hundredths, ties rounding up, rendered as
/// `<whole>.<two digits>`.
pub open spec fn two_dp_digits(n: nat, den: nat) -> Seq<char> {
    let whole = n / den;
    let h = ((n % den) * 100 + den / 2) / den;
    let w2: nat = if h >= 100 {
        whole + 1
    } else {
        whole
    };
    let h2: nat = if h >= 100 {
        (h - 100) as nat
    } else {
        h
    };
    dec_digits(w2) + seq!['.'] + seq![digit_char(h2 / 10), digit_char(h2 % 10)]
}

/// Appends `n / den` rounded to two decimal places.
pub fn push_2dp(out: &mut String, n: u64, den: u64)
    requires
        1048576 <= den <= 1073741824,
    ensures
        final(out)@ == old(out)@ + two_dp_digits(n as nat, den as nat),
{
    let whole = n / den;
    let rem = n % den;
    let h = (rem * 100 + den / 2) / den;
    assert(h <= 100) by {
        assert(rem * 100 + den / 2 < den * 101) by (nonlinear_arith)
            requires rem < den, 2 <= den;
        vstd::arithmetic::div_mod::lemma_multiply_divide_lt(
            (rem * 100 + den / 2) as int,
            den as int,
            101,
        );
    }
    assert(whole < u64::MAX) by {
        assert(whole * den <= n) by {
            lemma_fundamental_div_mod(n as int, den as int);
            assert(den as int * (n as int / den as int) <= n as int) by (nonlinear_arith)
                requires n as int == den as int * (n as int / den as int) + n as int % den as int,
                    0 <= n as int % den as int;
        }
        assert(whole < u64::MAX) by (nonlinear_arith)
            requires whole * den <= n, n <= u64::MAX, den >= 1048576;
    }
    let (w2, h2) = if h >= 100 {
        (whole + 1, h - 100)
    } else {
        (whole, h)
    };
    push_u64(out, w2);
    proof {
        reveal_strlit(".");
    }
    out.append(".");
    push_digit(out, h2 / 10);
    push_digit(out, h2 % 10);
    assert(out@ =~= old(out)@ + two_dp_digits(n as nat, den as nat));
}

/// The exact decimal rendering of `n / den` used by the JSON export:
/// the whole part, a dot, and either a single zero or the full fraction
/// digits.
pub open spec fn number_digits(n: nat, den: nat, fuel: nat) -> Seq<char> {
    dec_digits(n / den) + seq!['.'] + (if n % den == 0 {
        seq!['0']
    } else {
        frac_digits(n % den, den, fuel)
    })
}

/// Appends the exact decimal rendering of `n / den`.
pub fn push_number(out: &mut String, n: u64, den: u64, fuel: u64)
    requires
        0 < den <= 1073741824,
    ensures
        final(out)@ == old(out)@ + number_digits(n as nat, den as nat, fuel as nat),
{
    push_u64(out, n / den);
    proof {
        reveal_strlit(".");
        reveal_strlit("0");
    }
    out.append(".");
    let rem = n % den;
    if rem == 0 {
        out.append("0");
    } else {
        push_frac(out, rem, den, fuel);
    }
    assert(out@ =~= old(out)@ + number_digits(n as nat, den as nat, fuel as nat));
}

/// Index of the first dot in `s` (its length when there is none).
pub open spec fn first_dot(s: Seq<char>) -> nat
    decreases s.len(),
{
    if s.len() == 0 {
        0
    } else if s[0] == '.' {
        0
    } else {
        1 + first_dot(s.drop_first())
    }
}

/// Value denoted by a rendered number: the digits before the first dot
/// as the whole part, the digits after it as the fraction over `den`.
pub open spec fn parse_number(s: Seq<char>, den: nat) -> nat {
    let d = first_dot(s) as int;
    if d < s.len() {
        parse_dec(s.subrange(0, d)) * den + parse_frac(s.subrange(d + 1, s.len() as int), den)
    } else {
        parse_dec(s) * den
    }
}

proof fn lemma_first_dot_concat(a: Seq<char>, b: Seq<char>)
    requires
        forall|i: int| 0 <= i < a.len() ==> a[i] != '.',
    ensures
        first_dot(a + seq!['.'] + b) == a.len(),
    decreases a.len(),
{
    let s = a + seq!['.'] + b;
    if a.len() == 0 {
        assert(s[0] == '.');
    } else {
        assert(s[0] == a[0]);
        lemma_first_dot_concat(a.drop_first(), b);
        assert(s.drop_first() =~= a.drop_first() + seq!['.'] + b);
    }
}

/// Rendering `n / den` exactly and reading it back recovers `n`: the
/// export format loses no information about sizes.
pub proof fn lemma_number_roundtrip(n: nat, den: nat, fuel: nat)
    requires
        0 < den,
        ((n % den) * pow10(fuel)) % den == 0,
    ensures
        parse_number(number_digits(n, den, fuel), den) == n,
{
    let a = dec_digits(n / den);
    let b: Seq<char> = if n % den == 0 {
        seq!['0']
    } else {
        frac_digits(n % den, den, fuel)
    };
    let s = number_digits(n, den, fuel);
    assert(s =~= a + seq!['.'] + b);
    lemma_dec_digits_are_digits(n / den);
    lemma_first_dot_concat(a, b);
    assert(s.subrange(0, a.len() as int) =~= a);
    assert(s.subrange(a.len() as int + 1, s.len() as int) =~= b);
    lemma_dec_roundtrip(n / den);
    if n % den == 0 {
        assert(b.drop_first() =~= Seq::<char>::empty());
        assert(parse_frac(Seq::<char>::empty(), den) == 0);
        assert(b.first() == '0');
        assert(char_val('0') == 0);
        assert(parse_frac(b, den) == (0 * den + 0) / 10);
        assert(0 * den == 0);
        assert(parse_frac(b, den) == 0);
    } else {
        lemma_frac_roundtrip(n % den, den, fuel);
    }
    lemma_fundamental_div_mod(n as int, den as int);
    assert((n / den) * den == den * (n / den)) by (nonlinear_arith);
}

/// The divisors used by the exports divide the matching power of ten,
/// so the long division always runs out within the fuel given to it.
pub proof fn lemma_export_fuel(m: nat)
    ensures
        (m * pow10(20)) % 1048576 == 0,
        (m * pow10(30)) % 1073741824 == 0,
{
    assert(pow10(20) == 0x56bc75e2d63100000) by {
        reveal_with_fuel(pow10, 21);
    }
    assert(pow10(30) == 1000000000000000000000000000000) by {
        reveal_with_fuel(pow10, 31);
    }
    assert(m * pow10(20) == (m * 95367431640625) * 1048576) by (nonlinear_arith)
        requires pow10(20) == 0x56bc75e2d63100000;
    vstd::arithmetic::div_mod::lemma_mod_multiples_basic(
        (m * 95367431640625) as int,
        1048576 as int,
    );
    assert(m * pow10(30) == (m * 931322574615478515625) * 1073741824) by (nonlinear_arith)
        requires pow10(30) == 1000000000000000000000000000000;
    vstd::arithmetic::div_mod::lemma_mod_multiples_basic(
        (m * 931322574615478515625) as int,
        1073741824 as int,
    );
}

} // verus!
