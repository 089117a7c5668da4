//! Fixed-point decimal numbers.
//!
//! Venue wire formats carry prices and quantities as decimal text.
//! The library holds them as `i64` values scaled by `SCALE` (eight
//! decimal places), so book arithmetic stays exact. `parse_fixed`
//! reads the decimal grammar `-?D{1,10}(.D{0,8})?` and rejects
//! everything else; the bounds keep every accepted value inside
//! `i64` with no rounding.

use vstd::prelude::*;

verus! {

/// One unit in fixed-point representation: eight decimal places.
pub const SCALE: i64 = 100_000_000;

/// Whether the character is a decimal digit.
pub open spec fn is_digit(c: char) -> bool {
    ('0' as u32) <= (c as u32) && (c as u32) <= ('9' as u32)
}

/// The digit's numeric value.
pub open spec fn digit_val(c: char) -> int {
    (c as u32) - ('0' as u32)
}

/// Every character is a decimal digit.
pub open spec fn all_digits(s: Seq<char>) -> bool {
    forall|i: int| 0 <= i < s.len() ==> is_digit(#[trigger] s[i])
}

/// The value of a digit string read most-significant first.
pub open spec fn digits_val(s: Seq<char>) -> int
    decreases s.len(),
{
    if s.len() == 0 {
        0
    } else {
        digits_val(s.drop_last()) * 10 + digit_val(s.last())
    }
}

pub open spec fn pow10(n: nat) -> int
    decreases n,
{
    if n == 0 {
        1
    } else {
        10 * pow10((n - 1) as nat)
    }
}

/// Index of the first dot, or the length when there is none.
pub open spec fn dot_index(s: Seq<char>) -> int
    decreases s.len(),
{
    if s.len() == 0 {
        0
    } else if s[0] == '.' {
        0
    } else {
        1 + dot_index(s.drop_first())
    }
}

/// Value of an unsigned decimal body: up to ten integer digits, an
/// optional dot with up to eight fraction digits; anything else is
/// rejected.
pub open spec fn fixed_body(s: Seq<char>) -> Option<int> {
    let d = dot_index(s);
    let ip = s.take(d);
    if !(1 <= ip.len() <= 10 && all_digits(ip)) {
        None
    } else if d == s.len() {
        Some(digits_val(ip) * (SCALE as int))
    } else {
        let fp = s.skip(d + 1);
        if fp.len() <= 8 && all_digits(fp) {
            Some(digits_val(ip) * (SCALE as int) + digits_val(fp) * pow10((8 - fp.len()) as nat))
        } else {
            None
        }
    }
}

/// Value of decimal text with an optional leading minus sign.
pub open spec fn fixed_of(s: Seq<char>) -> Option<int> {
    if s.len() > 0 && s[0] == '-' {
        match fixed_body(s.drop_first()) {
            Some(v) => Some(-v),
            None => None,
        }
    } else {
        fixed_body(s)
    }
}

/// Where the first dot sits: before it there is none, and it is a
/// dot unless the string has none at all.
pub proof fn lemma_dot_index(s: Seq<char>)
    ensures
        0 <= dot_index(s) <= s.len(),
        dot_index(s) < s.len() ==> s[dot_index(s)] == '.',
        forall|k: int| 0 <= k < dot_index(s) ==> s[k] != '.',
    decreases s.len(),
{
    if s.len() > 0 && s[0] != '.' {
        lemma_dot_index(s.drop_first());
        assert forall|k: int| 0 <= k < dot_index(s) implies s[k] != '.' by {
            if k > 0 {
                assert(s.drop_first()[k - 1] != '.');
            }
        }
    }
}

/// A string whose first dot is known at index m.
pub proof fn lemma_dot_index_at(s: Seq<char>, m: int)
    requires
        0 <= m <= s.len(),
        m < s.len() ==> s[m] == '.',
        forall|k: int| 0 <= k < m ==> s[k] != '.',
        m == s.len() ==> (forall|k: int| 0 <= k < s.len() ==> s[k] != '.'),
    ensures
        dot_index(s) == m,
{
    lemma_dot_index(s);
    let d = dot_index(s);
    if d < m {
        assert(s[d] == '.');
        assert(s[d] != '.');
    } else if d > m {
        assert(m < s.len());
        assert(s[m] != '.');
    }
}

/// Digit strings are non-negative and bounded by the power of ten of
/// their length.
pub proof fn lemma_digits_val_bound(s: Seq<char>)
    requires
        all_digits(s),
    ensures
        0 <= digits_val(s) < pow10(s.len() as nat),
    decreases s.len(),
{
    if s.len() > 0 {
        assert(all_digits(s.drop_last())) by {
            assert(forall|i: int| 0 <= i < s.drop_last().len() ==> is_digit(#[trigger] s.drop_last()[i]));
        }
        lemma_digits_val_bound(s.drop_last());
        assert(is_digit(s.last()));
        assert(0 <= digit_val(s.last()) <= 9);
        assert(pow10(s.len() as nat) == 10 * pow10((s.len() - 1) as nat));
        assert(digits_val(s.drop_last()) * 10 + 9 < 10 * pow10(s.drop_last().len() as nat))
            by (nonlinear_arith)
            requires
                digits_val(s.drop_last()) < pow10(s.drop_last().len() as nat),
        ;
        assert(0 <= digits_val(s.drop_last()) * 10) by (nonlinear_arith)
            requires
                0 <= digits_val(s.drop_last()),
        ;
    }
}

/// pow10 is positive and multiplicative.
pub proof fn lemma_pow10_pos(n: nat)
    ensures
        pow10(n) >= 1,
    decreases n,
{
    if n > 0 {
        lemma_pow10_pos((n - 1) as nat);
    }
}

/// Appending one digit multiplies by ten and adds it.
pub proof fn lemma_digits_val_push(s: Seq<char>, c: char)
    ensures
        digits_val(s.push(c)) == digits_val(s) * 10 + digit_val(c),
{
    assert(s.push(c).drop_last() =~= s);
    assert(s.push(c).last() == c);
}

/// Exec mirror of `is_digit`.
fn is_digit_exec(c: char) -> (r: bool)
    ensures
        r == is_digit(c),
{
    ('0' as u32) <= (c as u32) && (c as u32) <= ('9' as u32)
}

/// The small powers of ten, spelled out.
pub proof fn lemma_pow10_vals()
    ensures
        pow10(0) == 1,
        pow10(1) == 10,
        pow10(2) == 100,
        pow10(3) == 1000,
        pow10(4) == 10000,
        pow10(5) == 100000,
        pow10(6) == 1000000,
        pow10(7) == 10_000_000,
        pow10(8) == 100_000_000,
        pow10(9) == 1_000_000_000,
        pow10(10) == 10_000_000_000,
{
    reveal_with_fuel(pow10, 12);
}

/// Ten to the given power, for exponents up to eight.
fn pow10_exec(n: u64) -> (r: i64)
    requires
        n <= 8,
    ensures
        r as int == pow10(n as nat),
{
    let mut acc: i64 = 1;
    let mut k: u64 = 0;
    while k < n
        invariant
            0 <= k <= n <= 8,
            acc as int == pow10(k as nat),
        decreases n - k,
    {
        proof {
            lemma_pow10_pos(k as nat);
            assert(pow10((k + 1) as nat) == 10 * pow10(k as nat));
            lemma_pow10_vals();
            lemma_pow10_mono(k as nat, 7 as nat);
        }
        acc = acc * 10;
        k = k + 1;
    }
    acc
}

/// pow10 grows with the exponent.
pub proof fn lemma_pow10_mono(a: nat, b: nat)
    requires
        a <= b,
    ensures
        pow10(a) <= pow10(b),
    decreases b,
{
    if a < b {
        lemma_pow10_mono(a, (b - 1) as nat);
        lemma_pow10_pos((b - 1) as nat);
    }
}

/// Parse fixed-point decimal text: an optional minus sign, one to
/// ten integer digits, then optionally a dot and up to eight
/// fraction digits. Returns the scaled value exactly when the text
/// fits that grammar, and nothing otherwise.
#[verifier::rlimit(100)]
pub fn parse_fixed(s: &str) -> (r: Option<i64>)
    ensures
        (r is Some) == (fixed_of(s@) is Some),
        r matches Some(v) ==> Some(v as int) == fixed_of(s@),
{
    let n = s.unicode_len();
    let neg = n > 0 && s.get_char(0) == '-';
    let start: usize = if neg {
        1
    } else {
        0
    };
    let ghost body = s@.skip(start as int);
    proof {
        if neg {
            assert(body =~= s@.drop_first());
        } else {
            assert(body =~= s@);
        }
        lemma_dot_index(body);
    }
    // scan the integer digits
    let mut i = start;
    let mut int_val: i64 = 0;
    while i < n && is_digit_exec(s.get_char(i)) && i - start < 10
        invariant
            start <= i <= n,
            n == s@.len(),
            i - start <= 10,
            body == s@.skip(start as int),
            forall|k: int| 0 <= k < i - start ==> is_digit(#[trigger] body[k]),
            all_digits(body.take(i - start)),
            int_val as int == digits_val(body.take(i - start)),
            0 <= int_val < 10_000_000_000,
        decreases n - i,
    {
        proof {
            lemma_digits_val_bound(body.take(i - start));
            lemma_pow10_vals();
            lemma_pow10_mono((i - start) as nat, 9 as nat);
            lemma_digits_val_push(body.take(i - start), body[i - start]);
            assert(body.take(i - start).push(body[i - start]) =~= body.take(i - start + 1));
        }
        let c = s.get_char(i);
        proof {
            assert(body[i - start] == s@[i as int]);
        }
        int_val = int_val * 10 + ((c as u32) - ('0' as u32)) as i64;
        i += 1;
    }
    let int_len = i - start;
    // the integer part must be 1..=10 digits and stop at the end or a dot
    if int_len == 0 {
        proof {
            if body.len() > 0 && body[0] != '.' {
                lemma_dot_index(body);
                if dot_index(body) > 0 {
                    assert(!is_digit(body.take(dot_index(body))[0]));
                }
                assert(fixed_body(body) is None);
            } else {
                assert(body.take(dot_index(body)).len() == 0);
                assert(fixed_body(body) is None);
            }
        }
        return None;
    }
    if i < n && is_digit_exec(s.get_char(i)) {
        // an eleventh integer digit: out of range
        proof {
            assert(body[i - start] == s@[i as int]);
            assert forall|k: int| 0 <= k < i - start + 1 implies body[k] != '.' by {
                assert(is_digit(body[k]));
            }
            lemma_dot_index(body);
            let d = dot_index(body);
            if d <= i - start {
                if d < body.len() {
                    assert(body[d] == '.');
                    assert(is_digit(body[d]));
                    assert(false);
                } else {
                    assert(false);
                }
            }
            assert(body.take(d).len() > 10);
            assert(fixed_body(body) is None);
        }
        return None;
    }
    if i == n {
        // digits only: an integer
        proof {
            lemma_dot_index_at(body, i - start);
            assert(body.take(i - start) =~= body);
            lemma_digits_val_bound(body);
            lemma_pow10_vals();
            lemma_pow10_mono(body.len() as nat, 10 as nat);
        }
        let v = int_val * SCALE;
        if neg {
            return Some(-v);
        }
        return Some(v);
    }
    let c = s.get_char(i);
    proof {
        assert(body[i - start] == s@[i as int]);
    }
    if c != '.' {
        proof {
            lemma_dot_index(body);
            let d = dot_index(body);
            if d <= i - start {
                assert(body[d] == '.');
                assert(is_digit(body[d]) || body[d] == body[i - start]);
                if d < i - start {
                    assert(is_digit(body[d]));
                }
                assert(false);
            }
            assert(!is_digit(body.take(d)[i - start]));
            assert(fixed_body(body) is None);
        }
        return None;
    }
    // fraction digits after the dot
    proof {
        lemma_dot_index_at(body, i - start);
    }
    let dot = i;
    let mut j = i + 1;
    let mut frac_val: i64 = 0;
    let ghost fp = body.skip(dot as int - start as int + 1);
    proof {
        assert(fp.len() == n - dot - 1);
    }
    while j < n && is_digit_exec(s.get_char(j)) && j - dot - 1 < 8
        invariant
            dot < j <= n,
            n == s@.len(),
            start <= dot,
            j - dot - 1 <= 8,
            body == s@.skip(start as int),
            fp == body.skip(dot as int - start as int + 1),
            fp.len() == n - dot - 1,
            forall|k: int| 0 <= k < j - dot - 1 ==> is_digit(#[trigger] fp[k]),
            all_digits(fp.take(j - dot - 1)),
            frac_val as int == digits_val(fp.take(j - dot - 1)),
            0 <= frac_val < 100_000_000,
        decreases n - j,
    {
        proof {
            lemma_digits_val_bound(fp.take(j - dot - 1));
            lemma_pow10_vals();
            lemma_pow10_mono((j - dot - 1) as nat, 7 as nat);
            lemma_digits_val_push(fp.take(j - dot - 1), fp[j - dot - 1]);
            assert(fp.take(j - dot - 1).push(fp[j - dot - 1]) =~= fp.take(j - dot));
        }
        let c2 = s.get_char(j);
        proof {
            assert(fp[j - dot - 1] == s@[j as int]);
        }
        frac_val = frac_val * 10 + ((c2 as u32) - ('0' as u32)) as i64;
        j += 1;
    }
    if j < n {
        // a ninth fraction digit, or a character that is no digit
        proof {
            assert(fp[j - dot - 1] == s@[j as int]);
            if is_digit(s@[j as int]) {
                assert(fp.len() > 8);
            } else {
                assert(!is_digit(fp[j - dot - 1]));
            }
            assert(fixed_body(body) is None);
        }
        return None;
    }
    proof {
        assert(fp.take(j - dot - 1) =~= fp);
        lemma_digits_val_bound(fp);
        lemma_pow10_pos((8 - fp.len()) as nat);
        lemma_pow10_vals();
        lemma_pow10_mul(fp.len() as nat, (8 - fp.len()) as nat);
        assert(digits_val(fp) * pow10((8 - fp.len()) as nat) < 100_000_000) by (nonlinear_arith)
            requires
                0 <= digits_val(fp) < pow10(fp.len() as nat),
                pow10(fp.len() as nat) * pow10((8 - fp.len()) as nat) <= 100_000_000,
                pow10((8 - fp.len()) as nat) >= 1,
        ;
        assert(0 <= digits_val(fp) * pow10((8 - fp.len()) as nat)) by (nonlinear_arith)
            requires
                0 <= digits_val(fp),
                pow10((8 - fp.len()) as nat) >= 1,
        ;
    }
    let scaled_frac = frac_val * pow10_exec(8 - ((j - dot - 1) as u64));
    let v = int_val * SCALE + scaled_frac;
    if neg {
        Some(-v)
    } else {
        Some(v)
    }
}

/// pow10 of a sum is the product of the pow10s.
pub proof fn lemma_pow10_mul(a: nat, b: nat)
    ensures
        pow10(a) * pow10(b) == pow10(a + b),
    decreases a,
{
    if a == 0 {
        assert(pow10(0) == 1);
        assert(1 * pow10(b) == pow10(b)) by (nonlinear_arith);
    } else {
        lemma_pow10_mul((a - 1) as nat, b);
        assert(pow10(a) == 10 * pow10((a - 1) as nat));
        assert((10 * pow10((a - 1) as nat)) * pow10(b) == 10 * (pow10((a - 1) as nat) * pow10(b)))
            by (nonlinear_arith);
        assert(pow10(a + b) == 10 * pow10((a + b - 1) as nat));
    }
}

} // verus!
