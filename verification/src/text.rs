//! Small text-building helpers shared by the serialization code: exact
//! decimal rendering of unsigned numbers and of fixed-point numbers.

use vstd::prelude::*;
use crate::fixnum::{SCALE, iabs};

verus! {

/// The one digit character for `d`.
pub open spec fn digit_char(d: nat) -> char {
    if d == 0 {
        '0'
    } else if d == 1 {
        '1'
    } else if d == 2 {
        '2'
    } else if d == 3 {
        '3'
    } else if d == 4 {
        '4'
    } else if d == 5 {
        '5'
    } else if d == 6 {
        '6'
    } else if d == 7 {
        '7'
    } else if d == 8 {
        '8'
    } else {
        '9'
    }
}

/// The decimal digits of `n`, most significant first, no leading zeros
/// (zero itself is the one digit `0`).
pub open spec fn dec_digits(n: nat) -> Seq<char>
    decreases n,
{
    if n < 10 {
        seq![digit_char(n)]
    } else {
        dec_digits(n / 10).push(digit_char(n % 10))
    }
}

/// The number a digit character stands for.
pub open spec fn digit_val(c: char) -> nat {
    if c == '0' {
        0
    } else if c == '1' {
        1
    } else if c == '2' {
        2
    } else if c == '3' {
        3
    } else if c == '4' {
        4
    } else if c == '5' {
        5
    } else if c == '6' {
        6
    } else if c == '7' {
        7
    } else if c == '8' {
        8
    } else {
        9
    }
}

/// The number a digit sequence stands for.
pub open spec fn digits_val(s: Seq<char>) -> nat
    decreases s.len(),
{
    if s.len() == 0 {
        0
    } else {
        digits_val(s.drop_last()) * 10 + digit_val(s.last())
    }
}

/// Reading back the digits of `n` gives `n`: decimal rendering loses
/// nothing.
pub proof fn lemma_digits_roundtrip(n: nat)
    ensures
        digits_val(dec_digits(n)) == n,
    decreases n,
{
    if n < 10 {
        assert(dec_digits(n).len() == 1);
        assert(dec_digits(n).drop_last() =~= Seq::<char>::empty());
        assert(dec_digits(n).last() == digit_char(n));
        assert(digits_val(Seq::<char>::empty()) == 0);
        assert(digit_val(digit_char(n)) == n);
        assert(digits_val(dec_digits(n)) == digits_val(Seq::<char>::empty()) * 10 + digit_val(
            digit_char(n),
        ));
    } else {
        lemma_digits_roundtrip(n / 10);
        assert(dec_digits(n).drop_last() =~= dec_digits(n / 10));
        vstd::arithmetic::div_mod::lemma_fundamental_div_mod(n as int, 10);
        vstd::arithmetic::div_mod::lemma_mod_division_less_than_divisor(n as int, 10);
        assert(dec_digits(n).last() == digit_char(n % 10));
        assert(digit_val(digit_char(n % 10)) == n % 10);
        assert(digits_val(dec_digits(n)) == digits_val(dec_digits(n / 10)) * 10 + digit_val(
            digit_char(n % 10),
        ));
    }
}

/// Distinct numbers have distinct digit sequences.
pub proof fn lemma_dec_digits_injective(a: nat, b: nat)
    requires
        a != b,
    ensures
        dec_digits(a) != dec_digits(b),
{
    lemma_digits_roundtrip(a);
    lemma_digits_roundtrip(b);
}

/// Writes the one digit `d`.
pub fn digit_char_exec(d: u64) -> (c: char)
    requires
        d < 10,
    ensures
        c == digit_char(d as nat),
{
    if d == 0 {
        '0'
    } else if d == 1 {
        '1'
    } else if d == 2 {
        '2'
    } else if d == 3 {
        '3'
    } else if d == 4 {
        '4'
    } else if d == 5 {
        '5'
    } else if d == 6 {
        '6'
    } else if d == 7 {
        '7'
    } else if d == 8 {
        '8'
    } else {
        '9'
    }
}

/// Appends the decimal digits of `n` to `out`.
pub fn push_u64_digits(n: u64, out: &mut String)
    ensures
        final(out)@ == old(out)@ + dec_digits(n as nat),
    decreases n,
{
    if n < 10 {
        push_char(out, digit_char_exec(n));
        proof {
            assert(out@ =~= old(out)@ + dec_digits(n as nat));
        }
    } else {
        push_u64_digits(n / 10, out);
        push_char(out, digit_char_exec(n % 10));
        proof {
            assert(out@ =~= old(out)@ + dec_digits(n as nat));
        }
    }
}

/// `k` zero characters.
pub open spec fn zeros(k: nat) -> Seq<char>
    decreases k,
{
    if k == 0 {
        Seq::<char>::empty()
    } else {
        zeros((k - 1) as nat).push('0')
    }
}

/// Powers of ten.
pub open spec fn pow10(k: nat) -> nat
    decreases k,
{
    if k == 0 {
        1
    } else {
        10 * pow10((k - 1) as nat)
    }
}

/// A number under `10^k` takes at most `k` digits.
pub proof fn lemma_dec_digits_len(n: nat, k: nat)
    requires
        k >= 1,
        n < pow10(k),
    ensures
        dec_digits(n).len() <= k,
    decreases k,
{
    if n >= 10 {
        assert(n / 10 < pow10((k - 1) as nat)) by {
            vstd::arithmetic::div_mod::lemma_fundamental_div_mod(n as int, 10);
        }
        lemma_dec_digits_len(n / 10, (k - 1) as nat);
    }
}

/// The six digits of the micro-unit fraction `n`, zero-padded on the
/// left.
pub open spec fn frac6(n: nat) -> Seq<char> {
    zeros((6 - dec_digits(n).len()) as nat) + dec_digits(n)
}

/// Appends `k` zero characters to `out`.
pub fn push_zeros(k: usize, out: &mut String)
    ensures
        final(out)@ == old(out)@ + zeros(k as nat),
    decreases k,
{
    if k > 0 {
        push_zeros(k - 1, out);
        push_char(out, '0');
        proof {
            assert(out@ =~= old(out)@ + zeros(k as nat));
        }
    } else {
        proof {
            assert(out@ =~= old(out)@ + zeros(0));
        }
    }
}

/// Appends the six zero-padded digits of the micro-unit fraction
/// `n < 1_000_000`.
pub fn push_frac6(n: u64, out: &mut String)
    requires
        n < 1_000_000,
    ensures
        final(out)@ == old(out)@ + frac6(n as nat),
{
    let mut digits = String::new();
    push_u64_digits(n, &mut digits);
    proof {
        assert(digits@ =~= dec_digits(n as nat));
        assert(pow10(6) == 1_000_000) by {
            reveal_with_fuel(pow10, 7);
        }
        lemma_dec_digits_len(n as nat, 6);
    }
    let len = digits.as_str().unicode_len();
    push_zeros(6 - len, out);
    out.append(digits.as_str());
    proof {
        assert(out@ =~= old(out)@ + frac6(n as nat));
    }
}

/// The fixed-point number `v` written with exactly twelve decimal places:
/// sign, whole units, a point, the six micro-unit digits, six zeros.
pub open spec fn fixed12(v: int) -> Seq<char> {
    let sign = if v < 0 {
        seq!['-']
    } else {
        Seq::<char>::empty()
    };
    sign + dec_digits((iabs(v) / (SCALE as int)) as nat) + seq!['.'] + frac6(
        (iabs(v) % (SCALE as int)) as nat,
    ) + zeros(6)
}

/// Appends the twelve-decimal-place text of the fixed-point number `v`.
pub fn push_fixed12(v: i64, out: &mut String)
    requires
        i64::MIN < v,
    ensures
        final(out)@ == old(out)@ + fixed12(v as int),
{
    let m: u64 = if v < 0 {
        push_char(out, '-');
        (-v) as u64
    } else {
        v as u64
    };
    proof {
        assert(m as int == iabs(v as int));
    }
    let units: u64 = m / (SCALE as u64);
    let rem: u64 = m % (SCALE as u64);
    push_u64_digits(units, out);
    push_char(out, '.');
    push_frac6(rem, out);
    push_zeros(6, out);
    proof {
        assert(out@ =~= old(out)@ + fixed12(v as int));
    }
}

/// The trailing zeros of a digit sequence removed.
pub open spec fn trim_zeros(s: Seq<char>) -> Seq<char>
    decreases s.len(),
{
    if s.len() > 0 && s.last() == '0' {
        trim_zeros(s.drop_last())
    } else {
        s
    }
}

/// The fixed-point number `v` written the short way: sign, whole units,
/// and the micro-unit fraction with trailing zeros removed — nothing after
/// the units when the fraction is zero.
pub open spec fn fixed_short(v: int) -> Seq<char> {
    let sign = if v < 0 {
        seq!['-']
    } else {
        Seq::<char>::empty()
    };
    let units = dec_digits((iabs(v) / (SCALE as int)) as nat);
    let rem = (iabs(v) % (SCALE as int)) as nat;
    if rem == 0 {
        sign + units
    } else {
        sign + units + seq!['.'] + trim_zeros(frac6(rem))
    }
}

/// Appends the short decimal text of the fixed-point number `v`.
#[verifier::rlimit(50)]
pub fn push_fixed_short(v: i64, out: &mut String)
    requires
        i64::MIN < v,
    ensures
        final(out)@ == old(out)@ + fixed_short(v as int),
{
    let m: u64 = if v < 0 {
        push_char(out, '-');
        (-v) as u64
    } else {
        v as u64
    };
    proof {
        assert(m as int == iabs(v as int));
    }
    let units: u64 = m / (SCALE as u64);
    let rem: u64 = m % (SCALE as u64);
    push_u64_digits(units, out);
    if rem > 0 {
        push_char(out, '.');
        let mut frac = String::new();
        push_frac6(rem, &mut frac);
        proof {
            assert(frac@ =~= frac6(rem as nat));
        }
        let n = frac.as_str().unicode_len();
        let mut keep: usize = n;
        proof {
            assert(frac@.take(n as int) =~= frac@);
        }
        while keep > 0 && frac.as_str().get_char(keep - 1) == '0'
            invariant
                keep <= n,
                trim_zeros(frac@) == trim_zeros(frac@.take(keep as int)),
            decreases keep,
        {
            keep -= 1;
            proof {
                assert(frac@.take(keep as int + 1).drop_last() =~= frac@.take(keep as int));
            }
        }
        proof {
            if keep > 0 {
                assert(trim_zeros(frac@.take(keep as int)) =~= frac@.take(keep as int));
            } else {
                assert(frac@.take(0) =~= Seq::<char>::empty());
            }
            assert(trim_zeros(frac@) =~= frac@.take(keep as int));
        }
        let trimmed = frac.as_str().substring_char(0, keep);
        out.append(trimmed);
        proof {
            assert(out@ =~= old(out)@ + fixed_short(v as int));
        }
    } else {
        proof {
            assert(out@ =~= old(out)@ + fixed_short(v as int));
        }
    }
}

/// Relies on `String::push`: appends the one character at the end of the
/// string.
#[verifier::external_body]
pub(crate) fn push_char(s: &mut String, c: char)
    ensures
        final(s)@ == old(s)@.push(c),
{
    s.push(c)
}

/// Character-by-character string equality.
pub fn str_eq_str(a: &str, b: &str) -> (r: bool)
    ensures
        r == (a@ == b@),
{
    let na = a.unicode_len();
    let nb = b.unicode_len();
    if na != nb {
        proof {
            if a@ == b@ {
                assert(a@.len() == b@.len());
            }
        }
        return false;
    }
    let mut i: usize = 0;
    while i < na
        invariant
            i <= na,
            na == a@.len(),
            nb == b@.len(),
            na == nb,
            forall|j: int| 0 <= j < i ==> a@[j] == b@[j],
        decreases na - i,
    {
        let ca = a.get_char(i);
        let cb = b.get_char(i);
        if ca != cb {
            proof {
                if a@ == b@ {
                    assert(a@[i as int] == b@[i as int]);
                }
            }
            return false;
        }
        i += 1;
    }
    proof {
        assert(a@ =~= b@);
    }
    true
}

} // verus!

