//! Fixed-point decimal values: text such as `-12.5` stands for the integer
//! `-12_500_000`, a count of millionths. Parsing is exact, and rendering gives
//! the canonical text: no leading zeros and no trailing zeros after the point.

use vstd::prelude::*;

verus! {

/// Millionths in one unit.
pub const SCALE: i64 = 1_000_000;

pub open spec fn is_digit(c: u8) -> bool {
    48 <= c <= 57
}

/// The number that a run of decimal digits spells.
pub open spec fn digits_value(s: Seq<u8>) -> int
    decreases s.len(),
{
    if s.len() == 0 {
        0
    } else {
        digits_value(s.drop_last()) * 10 + (s.last() - 48)
    }
}

/// How many digits the text starts with.
pub open spec fn leading_digits(s: Seq<u8>) -> nat
    decreases s.len(),
{
    if s.len() > 0 && is_digit(s[0]) {
        1 + leading_digits(s.drop_first())
    } else {
        0
    }
}

pub open spec fn pow10(n: nat) -> int
    decreases n,
{
    if n == 0 {
        1
    } else {
        10 * pow10((n - 1) as nat)
    }
}

/// The value in millionths of unsigned text `digits` or `digits.fraction`,
/// with one to six fraction digits.
pub open spec fn magnitude_spec(b: Seq<u8>) -> Option<int> {
    let k = leading_digits(b) as int;
    if k == 0 {
        None
    } else if k == b.len() {
        Some(digits_value(b) * SCALE)
    } else if b[k] != 46u8 {
        None
    } else {
        let f = b.subrange(k + 1, b.len() as int);
        if 1 <= f.len() <= 6 && (forall|j: int| 0 <= j < f.len() ==> is_digit(#[trigger] f[j])) {
            Some(digits_value(b.subrange(0, k)) * SCALE + digits_value(f) * pow10(
                (6 - f.len()) as nat,
            ))
        } else {
            None
        }
    }
}

/// The value in millionths of the text: an optional `+` or `-`, then digits,
/// then optionally a point and one to six digits; none when the text is not of
/// that form or the value does not fit in an `i64`.
pub open spec fn parse_fixed_spec(b: Seq<u8>) -> Option<int> {
    let neg = b.len() > 0 && b[0] == 45u8;
    let signed = b.len() > 0 && (b[0] == 45u8 || b[0] == 43u8);
    let body = if signed {
        b.drop_first()
    } else {
        b
    };
    match magnitude_spec(body) {
        Some(m) => {
            let v = if neg {
                -m
            } else {
                m
            };
            if i64::MIN <= v <= i64::MAX {
                Some(v)
            } else {
                None
            }
        },
        None => None,
    }
}

proof fn lemma_digits_value_nonneg(s: Seq<u8>)
    requires
        forall|j: int| 0 <= j < s.len() ==> is_digit(#[trigger] s[j]),
    ensures
        digits_value(s) >= 0,
    decreases s.len(),
{
    if s.len() > 0 {
        lemma_digits_value_nonneg(s.drop_last());
    }
}

proof fn lemma_digits_value_grows(s: Seq<u8>, i: int, j: int)
    requires
        0 <= i <= j <= s.len(),
        forall|t: int| 0 <= t < j ==> is_digit(#[trigger] s[t]),
    ensures
        digits_value(s.subrange(0, i)) <= digits_value(s.subrange(0, j)),
    decreases j - i,
{
    if i < j {
        lemma_digits_value_grows(s, i, j - 1);
        assert(s.subrange(0, j).drop_last() =~= s.subrange(0, j - 1));
        lemma_digits_value_nonneg(s.subrange(0, j - 1));
    }
}

proof fn lemma_leading_digits_exact(s: Seq<u8>, k: int)
    requires
        0 <= k <= s.len(),
        forall|t: int| 0 <= t < k ==> is_digit(#[trigger] s[t]),
        k == s.len() || !is_digit(s[k]),
    ensures
        leading_digits(s) == k,
    decreases k,
{
    if k > 0 {
        lemma_leading_digits_exact(s.drop_first(), k - 1);
    }
}

proof fn lemma_leading_digits_at_least(s: Seq<u8>, m: int)
    requires
        0 <= m <= s.len(),
        forall|t: int| 0 <= t < m ==> is_digit(#[trigger] s[t]),
    ensures
        leading_digits(s) >= m,
        leading_digits(s) <= s.len(),
        forall|t: int| 0 <= t < leading_digits(s) ==> is_digit(#[trigger] s[t]),
    decreases s.len(),
{
    if s.len() > 0 && is_digit(s[0]) {
        lemma_leading_digits_at_least(s.drop_first(), if m > 0 { m - 1 } else { 0 });
        assert forall|t: int| 0 <= t < leading_digits(s) implies is_digit(#[trigger] s[t]) by {
            if t > 0 {
                assert(s[t] == s.drop_first()[t - 1]);
            }
        }
    }
}

proof fn lemma_pow10_small(n: nat)
    requires
        n <= 6,
    ensures
        1 <= pow10(n) <= 1_000_000,
{
    reveal_with_fuel(pow10, 7);
}

proof fn lemma_pow10_positive(n: nat)
    ensures
        pow10(n) >= 1,
    decreases n,
{
    if n > 0 {
        lemma_pow10_positive((n - 1) as nat);
    }
}

/// Parses fixed-point decimal text into millionths.
pub fn parse_fixed(b: &[u8]) -> (r: Option<i64>)
    ensures
        match r {
            Some(v) => parse_fixed_spec(b@) == Some(v as int),
            None => parse_fixed_spec(b@) is None,
        },
{
    let n = b.len();
    let mut start: usize = 0;
    let mut neg = false;
    if n > 0 && b[0] == 45u8 {
        neg = true;
        start = 1;
    } else if n > 0 && b[0] == 43u8 {
        start = 1;
    }
    let ghost body = b@.subrange(start as int, n as int);
    assert(body =~= (if start == 1 { b@.drop_first() } else { b@ }));
    // Whole part.
    let mut i: usize = start;
    let mut whole: u64 = 0;
    while i < n && 48u8 <= b[i] && b[i] <= 57u8
        invariant
            start <= i <= n,
            n == b@.len(),
            body == b@.subrange(start as int, n as int),
            forall|t: int| 0 <= t < i - start ==> is_digit(#[trigger] body[t]),
            whole == digits_value(body.subrange(0, i - start)),
            whole <= 100_000_000_000_009,
            body == (if b@.len() > 0 && (b@[0] == 45u8 || b@[0] == 43u8) {
                b@.drop_first()
            } else {
                b@
            }),
            neg == (b@.len() > 0 && b@[0] == 45u8),
        decreases n - i,
    {
        let ghost k = i - start;
        assert(body[k] == b@[i as int]);
        assert(body.subrange(0, k + 1).drop_last() =~= body.subrange(0, k));
        // One more digit after this would put the value beyond any `i64`.
        if whole > 10_000_000_000_000 {
            proof {
                lemma_leading_digits_at_least(body, k + 1);
                let kk = leading_digits(body) as int;
                lemma_digits_value_grows(body, k + 1, kk);
                lemma_digits_value_nonneg(body.subrange(0, k));
                assert(is_digit(body[k]));
                assert(digits_value(body.subrange(0, k + 1)) > 100_000_000_000_000);
                assert(digits_value(body.subrange(0, kk)) > 100_000_000_000_000);
                if kk == body.len() {
                    assert(body.subrange(0, kk) =~= body);
                } else if body[kk] == 46u8 {
                    let f = body.subrange(kk + 1, body.len() as int);
                    if 1 <= f.len() <= 6 && (forall|j: int|
                        0 <= j < f.len() ==> is_digit(#[trigger] f[j])) {
                        lemma_digits_value_nonneg(f);
                        lemma_pow10_positive((6 - f.len()) as nat);
                        assert(digits_value(f) * pow10((6 - f.len()) as nat) >= 0)
                            by (nonlinear_arith)
                            requires
                                digits_value(f) >= 0,
                                pow10((6 - f.len()) as nat) >= 1,
                        ;
                    }
                }
                assert(magnitude_spec(body) is None || magnitude_spec(body).unwrap() > 100_000_000_000_000_000_000);
                assert(parse_fixed_spec(b@) is None);
            }
            return None;
        }
        whole = whole * 10 + (b[i] - 48u8) as u64;
        i = i + 1;
    }
    proof {
        lemma_leading_digits_exact(body, i - start);
    }
    if i == start {
        return None;
    }
    let mut frac: u64 = 0;
    let mut scale_up: u64 = 1;
    if i < n {
        if b[i] != 46u8 {
            return None;
        }
        let dot = i;
        let mut j: usize = i + 1;
        while j < n && j - dot <= 6 && 48u8 <= b[j] && b[j] <= 57u8
            invariant
                dot < j <= n,
                j - dot <= 7,
                n == b@.len(),
                forall|t: int| dot < t < j ==> is_digit(#[trigger] b@[t]),
                frac == digits_value(b@.subrange(dot + 1, j as int)),
                frac < pow10((j - dot - 1) as nat),
                start <= dot,
                body == b@.subrange(start as int, n as int),
                body == (if b@.len() > 0 && (b@[0] == 45u8 || b@[0] == 43u8) {
                    b@.drop_first()
                } else {
                    b@
                }),
                neg == (b@.len() > 0 && b@[0] == 45u8),
            decreases n - j,
        {
            assert(b@.subrange(dot + 1, j + 1).drop_last() =~= b@.subrange(dot + 1, j as int));
            proof {
                lemma_pow10_small((j - dot - 1) as nat);
            }
            frac = frac * 10 + (b[j] - 48u8) as u64;
            j = j + 1;
        }
        let ghost f = body.subrange(dot - start + 1, body.len() as int);
        assert(f =~= b@.subrange(dot + 1, n as int));
        if j < n || j == dot + 1 {
            proof {
                if j < n && j - dot <= 6 {
                    assert(!is_digit(f[j - dot - 1]));
                }
            }
            return None;
        }
        assert(body.subrange(0, i - start) =~= b@.subrange(start as int, i as int));
        assert forall|t: int| 0 <= t < f.len() implies is_digit(#[trigger] f[t]) by {
            assert(f[t] == b@[dot + 1 + t]);
        }
        proof {
            lemma_pow10_small((j - dot - 1) as nat);
        }
        let mut width: usize = j - dot - 1;
        while width < 6
            invariant
                1 <= j - dot - 1 <= width <= 6,
                scale_up == pow10((width - (j - dot - 1)) as nat),
                frac < 1_000_000,
            decreases 6 - width,
        {
            proof {
                lemma_pow10_small((width - (j - dot - 1)) as nat);
            }
            scale_up = scale_up * 10;
            width = width + 1;
        }
    }
    proof {
        if i == n {
            assert(body.subrange(0, i - start) =~= body);
        }
        assert(scale_up <= 1_000_000) by {
            if i < n {
                lemma_pow10_small((6 - (n - i - 1)) as nat);
            }
        }
        assert(frac * scale_up <= 1_000_000_000_000) by (nonlinear_arith)
            requires
                frac <= 1_000_000,
                scale_up <= 1_000_000,
        ;
    }
    let magnitude: i128 = whole as i128 * SCALE as i128 + frac as i128 * scale_up as i128;
    let v: i128 = if neg {
        -magnitude
    } else {
        magnitude
    };
    if v < i64::MIN as i128 || v > i64::MAX as i128 {
        None
    } else {
        Some(v as i64)
    }
}

/// The character of a decimal digit.
pub open spec fn digit_char(d: int) -> char {
    ((d + 48) as u8) as char
}

/// The decimal digits of a natural number, without leading zeros.
pub open spec fn nat_text(n: nat) -> Seq<char>
    decreases n,
{
    if n < 10 {
        seq![digit_char(n as int)]
    } else {
        nat_text(n / 10).push(digit_char((n % 10) as int))
    }
}

/// The last `w` decimal digits of `f`, leading zeros included.
pub open spec fn padded_text(f: nat, w: nat) -> Seq<char>
    decreases w,
{
    if w == 0 {
        Seq::empty()
    } else {
        padded_text(f / 10, (w - 1) as nat).push(digit_char((f % 10) as int))
    }
}

/// The text without its trailing `0` characters.
pub open spec fn strip_zeros(s: Seq<char>) -> Seq<char>
    decreases s.len(),
{
    if s.len() > 0 && s.last() == '0' {
        strip_zeros(s.drop_last())
    } else {
        s
    }
}

/// The canonical text of a value in millionths: a `-` for a negative value, the
/// whole part, and, when the value is not whole, a point and the fraction
/// digits without trailing zeros.
pub open spec fn fixed_text(v: int) -> Seq<char> {
    let a = if v < 0 {
        -v
    } else {
        v
    };
    let sign = if v < 0 {
        seq!['-']
    } else {
        Seq::empty()
    };
    let whole = nat_text((a / SCALE as int) as nat);
    if a % SCALE as int == 0 {
        sign + whole
    } else {
        sign + whole + seq!['.'] + strip_zeros(padded_text((a % SCALE as int) as nat, 6))
    }
}

/// Relies on `String::push`: appends one character.
#[verifier::external_body]
pub(crate) fn push_char(s: &mut String, c: char)
    ensures
        final(s)@ == old(s)@.push(c),
{
    s.push(c);
}

fn digit(d: u64) -> (c: char)
    requires
        d < 10,
    ensures
        c == digit_char(d as int),
{
    ((d as u8) + 48u8) as char
}

fn push_nat(out: &mut String, n: u64)
    ensures
        final(out)@ == old(out)@ + nat_text(n as nat),
    decreases n,
{
    if n >= 10 {
        push_nat(out, n / 10);
    }
    push_char(out, digit(n % 10));
    assert(nat_text(n as nat) =~= if n < 10 {
        seq![digit_char(n as int)]
    } else {
        nat_text((n / 10) as nat).push(digit_char((n % 10) as int))
    });
}

fn push_padded(out: &mut String, f: u64, w: u64)
    ensures
        final(out)@ == old(out)@ + padded_text(f as nat, w as nat),
    decreases w,
{
    if w > 0 {
        push_padded(out, f / 10, w - 1);
        push_char(out, digit(f % 10));
    }
}

/// Appends the canonical text of a value in millionths.
pub fn push_fixed(out: &mut String, v: i64)
    ensures
        final(out)@ == old(out)@ + fixed_text(v as int),
{
    let ghost start = out@;
    let a: u64 = if v < 0 {
        (0i128 - v as i128) as u64
    } else {
        v as u64
    };
    if v < 0 {
        push_char(out, '-');
    }
    let ghost signed = out@;
    push_nat(out, a / SCALE as u64);
    let ghost with_whole = out@;
    let mut f = a % SCALE as u64;
    if f != 0 {
        push_char(out, '.');
        let ghost f0 = f;
        let mut w: u64 = 6;
        while w > 0 && f % 10 == 0
            invariant
                w <= 6,
                strip_zeros(padded_text(f as nat, w as nat)) == strip_zeros(
                    padded_text(f0 as nat, 6),
                ),
            decreases w,
        {
            assert(padded_text(f as nat, w as nat).drop_last() == padded_text(
                (f / 10) as nat,
                (w - 1) as nat,
            ));
            f = f / 10;
            w = w - 1;
        }
        assert(strip_zeros(padded_text(f as nat, w as nat)) == padded_text(f as nat, w as nat));
        push_padded(out, f, w);
    }
    assert(out@ =~= start + fixed_text(v as int));
}

/// The canonical text of a value in millionths.
pub fn render_fixed(v: i64) -> (r: String)
    ensures
        r@ == fixed_text(v as int),
{
    let mut out = String::new();
    push_fixed(&mut out, v);
    assert(out@ =~= fixed_text(v as int));
    out
}

} // verus!
