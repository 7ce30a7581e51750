//! Numbers as a user writes them in a size token, and their value scaled by
//! a whole factor.
use vstd::prelude::*;
use vstd::string::*;
use crate::units::BYTES_PER_GB;

verus! {

pub open spec fn is_digit(c: char) -> bool {
    '0' <= c && c <= '9'
}

pub open spec fn digit_of(c: char) -> nat {
    (c as u32 - '0' as u32) as nat
}

pub open spec fn all_digits(s: Seq<char>) -> bool {
    forall|i: int| 0 <= i < s.len() ==> is_digit(#[trigger] s[i])
}

/// The value of a string of decimal digits, most significant first.
pub open spec fn digits_value(s: Seq<char>) -> nat
    decreases s.len(),
{
    if s.len() == 0 {
        0
    } else {
        digits_value(s.drop_last()) * 10 + digit_of(s.last())
    }
}

pub open spec fn pow10(e: nat) -> nat
    decreases e,
{
    if e == 0 {
        1
    } else {
        10 * pow10((e - 1) as nat)
    }
}

/// The index just past the run of digits that starts at `i`.
pub open spec fn digit_run_end(s: Seq<char>, i: int) -> int
    decreases s.len() - i,
{
    if 0 <= i < s.len() && is_digit(s[i]) {
        digit_run_end(s, i + 1)
    } else {
        i
    }
}

/// `n` is a decimal number: a run of digits, optionally followed by a point
/// and a second run of digits, with at least one digit in all (`"5"`, `"5."`,
/// `".5"`, `"0.25"`).
pub open spec fn is_decimal(n: Seq<char>) -> bool {
    let p = digit_run_end(n, 0);
    &&& n.len() > 0
    &&& (p == n.len() || (n[p] == '.' && all_digits(n.skip(p + 1)) && n.len() > 1))
}

/// The digits of a decimal number before its point.
pub open spec fn whole_digits(n: Seq<char>) -> Seq<char> {
    n.take(digit_run_end(n, 0))
}

/// The digits of a decimal number after its point (none if it has no point).
pub open spec fn fraction_digits(n: Seq<char>) -> Seq<char> {
    let p = digit_run_end(n, 0);
    if p < n.len() {
        n.skip(p + 1)
    } else {
        Seq::empty()
    }
}

/// `x`, or the largest `u64` where `x` is larger.
pub open spec fn saturate(x: nat) -> u64 {
    if x > u64::MAX {
        u64::MAX
    } else {
        x as u64
    }
}

pub proof fn lemma_pow10_positive(e: nat)
    ensures
        pow10(e) > 0,
    decreases e,
{
    if e > 0 {
        lemma_pow10_positive((e - 1) as nat);
    }
}

/// Reading digits from the front: the first digit counts `10^(len - 1)` times.
pub proof fn lemma_digits_value_first(s: Seq<char>)
    requires
        s.len() > 0,
    ensures
        digits_value(s) == digit_of(s[0]) * pow10((s.len() - 1) as nat) + digits_value(
            s.drop_first(),
        ),
    decreases s.len(),
{
    if s.len() == 1 {
        assert(s.drop_last().len() == 0);
        assert(s.drop_first().len() == 0);
        assert(s.last() == s[0]);
        assert(digits_value(s.drop_last()) == 0);
        assert(digits_value(s.drop_first()) == 0);
        assert(digits_value(s) == digit_of(s[0]));
        assert(pow10(0) == 1);
        let d0 = digit_of(s[0]);
        let p1 = pow10(0);
        assert(d0 * p1 == d0) by (nonlinear_arith)
            requires
                p1 == 1,
        ;
        assert((s.len() - 1) as nat == 0);
    } else {
        let dl = s.drop_last();
        lemma_digits_value_first(dl);
        assert(dl.drop_first() =~= s.drop_first().drop_last());
        assert(s.drop_first().last() == s.last());
        assert(dl[0] == s[0]);
        assert(digits_value(s) == digits_value(dl) * 10 + digit_of(s.last()));
        assert(digits_value(s.drop_first()) == digits_value(s.drop_first().drop_last()) * 10
            + digit_of(s.last()));
        let d0 = digit_of(s[0]);
        let p = pow10((s.len() - 2) as nat);
        let x = digits_value(dl.drop_first());
        assert(pow10((s.len() - 1) as nat) == 10 * p);
        assert(digits_value(dl) == d0 * p + x);
        assert(digits_value(s.drop_first()) == x * 10 + digit_of(s.last()));
        assert((d0 * p + x) * 10 == d0 * (10 * p) + x * 10) by (nonlinear_arith);
        assert(digits_value(s) == d0 * (10 * p) + x * 10 + digit_of(s.last()));
    }
}

/// One step of reading a fraction from its last digit back to its first.
proof fn lemma_fraction_step(t: Seq<char>, k: nat)
    requires
        t.len() > 0,
    ensures
        (digits_value(t) * k) / pow10(t.len()) == (digit_of(t[0]) * k + (digits_value(
            t.drop_first(),
        ) * k) / pow10(t.drop_first().len())) / 10,
{
    let m = t.drop_first().len();
    let p = pow10(m);
    lemma_pow10_positive(m);
    lemma_digits_value_first(t);
    let d = digit_of(t[0]);
    let y = digits_value(t.drop_first()) * k;
    assert(digits_value(t) * k == y + (d * k) * p) by (nonlinear_arith)
        requires
            digits_value(t) == d * p + digits_value(t.drop_first()),
            y == digits_value(t.drop_first()) * k,
    ;
    assert(pow10(t.len()) == p * 10);
    vstd::arithmetic::div_mod::lemma_div_denominator((y + (d * k) * p) as int, p as int, 10);
    vstd::arithmetic::div_mod::lemma_hoist_over_denominator(y as int, (d * k) as int, p);
}

/// Every character of the run of digits that starts at `i` is a digit.
pub proof fn lemma_digit_run(s: Seq<char>, i: int)
    requires
        0 <= i,
    ensures
        i <= digit_run_end(s, i) <= s.len() || digit_run_end(s, i) == i,
        forall|j: int| i <= j < digit_run_end(s, i) ==> is_digit(#[trigger] s[j]),
        digit_run_end(s, i) < s.len() ==> !is_digit(s[digit_run_end(s, i)]),
    decreases s.len() - i,
{
    if 0 <= i < s.len() && is_digit(s[i]) {
        lemma_digit_run(s, i + 1);
    }
}

/// A decimal number ends in a digit or in its point.
pub proof fn lemma_decimal_last(n: Seq<char>)
    requires
        is_decimal(n),
    ensures
        is_digit(n.last()) || n.last() == '.',
{
    lemma_digit_run(n, 0);
    let p = digit_run_end(n, 0);
    if p < n.len() && p + 1 < n.len() {
        assert(n.skip(p + 1)[n.len() - p - 2] == n.last());
    }
}

pub proof fn lemma_pow10_add(a: nat, b: nat)
    ensures
        pow10(a + b) == pow10(a) * pow10(b),
    decreases b,
{
    if b > 0 {
        lemma_pow10_add(a, (b - 1) as nat);
        assert(pow10(a + b) == 10 * pow10((a + b - 1) as nat));
        assert(pow10(b) == 10 * pow10((b - 1) as nat));
        assert(pow10(a) * (10 * pow10((b - 1) as nat)) == 10 * (pow10(a) * pow10((b - 1) as nat)))
            by (nonlinear_arith);
    } else {
        let x = pow10(a);
        assert(a + b == a);
        assert(x * pow10(0) == x) by (nonlinear_arith)
            requires
                pow10(0) == 1,
        ;
    }
}

pub proof fn lemma_pow10_monotone(a: nat, b: nat)
    requires
        a <= b,
    ensures
        pow10(a) <= pow10(b),
{
    lemma_pow10_add(a, (b - a) as nat);
    lemma_pow10_positive((b - a) as nat);
    assert(pow10(a) * pow10((b - a) as nat) >= pow10(a)) by (nonlinear_arith)
        requires
            pow10((b - a) as nat) >= 1,
    ;
}

/// Ten to the tenth exceeds any factor a size is scaled by, and ten to the
/// twentieth exceeds every `u64`.
pub proof fn lemma_pow10_landmarks()
    ensures
        pow10(10) == 10000000000,
        pow10(20) == 100000000000000000000,
{
    reveal_with_fuel(pow10, 21);
}

/// Digits written one after the other: the value of the first string counts
/// ten to the power of the second's length times.
pub proof fn lemma_digits_concat(a: Seq<char>, b: Seq<char>)
    ensures
        digits_value(a + b) == digits_value(a) * pow10(b.len()) + digits_value(b),
    decreases b.len(),
{
    if b.len() == 0 {
        assert(a + b =~= a);
        assert(digits_value(a) * pow10(0) == digits_value(a)) by (nonlinear_arith)
            requires
                pow10(0) == 1,
        ;
    } else {
        lemma_digits_concat(a, b.drop_last());
        assert((a + b).drop_last() =~= a + b.drop_last());
        assert((a + b).last() == b.last());
        let x = digits_value(a);
        let p = pow10((b.len() - 1) as nat);
        let y = digits_value(b.drop_last());
        assert(pow10(b.len()) == 10 * p);
        assert((x * p + y) * 10 == x * (10 * p) + y * 10) by (nonlinear_arith);
    }
}

/// Marks the start of an exponent.
pub open spec fn is_exp_mark(c: char) -> bool {
    c == 'e' || c == 'E'
}

/// The index of the first exponent mark at or after `i` (the length if none).
pub open spec fn exp_mark_index(n: Seq<char>, i: int) -> int
    decreases n.len() - i,
{
    if 0 <= i < n.len() && !is_exp_mark(n[i]) {
        exp_mark_index(n, i + 1)
    } else {
        i
    }
}

pub open spec fn has_exponent(n: Seq<char>) -> bool {
    exp_mark_index(n, 0) < n.len()
}

/// What comes before the exponent mark.
pub open spec fn mantissa_of(n: Seq<char>) -> Seq<char> {
    n.take(exp_mark_index(n, 0))
}

/// What comes after the exponent mark.
pub open spec fn exponent_text(n: Seq<char>) -> Seq<char> {
    n.skip(exp_mark_index(n, 0) + 1)
}

/// The digits of an exponent, without its sign.
pub open spec fn exponent_digits(t: Seq<char>) -> Seq<char> {
    if t.len() > 0 && (t[0] == '+' || t[0] == '-') {
        t.drop_first()
    } else {
        t
    }
}

/// An exponent: an optional sign and at least one digit.
pub open spec fn is_exponent(t: Seq<char>) -> bool {
    exponent_digits(t).len() > 0 && all_digits(exponent_digits(t))
}

pub open spec fn exponent_value(t: Seq<char>) -> int {
    if t.len() > 0 && t[0] == '-' {
        -(digits_value(exponent_digits(t)) as int)
    } else {
        digits_value(exponent_digits(t)) as int
    }
}

/// `n` is a number without a sign: a decimal number, optionally followed by
/// `e` or `E` and an exponent (`"1.5e3"`, `"2E-1"`).
pub open spec fn is_unsigned_number(n: Seq<char>) -> bool {
    is_decimal(mantissa_of(n)) && (has_exponent(n) ==> is_exponent(exponent_text(n)))
}

/// All the digits of a decimal number, without its point.
pub open spec fn decimal_digits(m: Seq<char>) -> Seq<char> {
    whole_digits(m) + fraction_digits(m)
}

/// All the digits of a number's mantissa, without its point.
pub open spec fn significand(n: Seq<char>) -> Seq<char> {
    decimal_digits(mantissa_of(n))
}

/// How many places the point stands left of the significand's end, net of
/// the exponent: the number is `significand / 10^shift`.
pub open spec fn point_shift(n: Seq<char>) -> int {
    fraction_digits(mantissa_of(n)).len() - (if has_exponent(n) {
        exponent_value(exponent_text(n))
    } else {
        0
    })
}

/// `d * k / 10^m`, rounded down, for a shift `m` of either sign.
pub open spec fn shifted_floor(d: nat, k: nat, m: int) -> nat {
    if m <= 0 {
        d * k * pow10((-m) as nat)
    } else {
        (d * k) / pow10(m as nat)
    }
}

/// The number `n` times `k`, rounded down.
pub open spec fn number_times_floor(n: Seq<char>, k: nat) -> nat {
    shifted_floor(digits_value(significand(n)), k, point_shift(n))
}

/// A string of `len` digits is worth less than `10^len`.
pub proof fn lemma_digits_value_bound(s: Seq<char>)
    requires
        all_digits(s),
    ensures
        digits_value(s) < pow10(s.len()),
    decreases s.len(),
{
    if s.len() > 0 {
        assert(all_digits(s.drop_last()));
        lemma_digits_value_bound(s.drop_last());
        assert(is_digit(s[s.len() - 1]));
        assert(digits_value(s.drop_last()) * 10 + digit_of(s.last()) < 10 * pow10(
            (s.len() - 1) as nat,
        )) by (nonlinear_arith)
            requires
                digits_value(s.drop_last()) < pow10((s.len() - 1) as nat),
                digit_of(s.last()) <= 9,
        ;
    }
}

/// Shifts so far out that the result no longer depends on them: far enough
/// right, nothing is left; far enough left, any digit but zero saturates.
pub proof fn lemma_far_shifts(d: nat, k: nat, l: nat, m1: int, m2: int)
    requires
        d < pow10(l),
        1 <= k <= 0x4000_0000,
        (m1 <= -20 && m2 <= -20) || (m1 >= l + 10 && m2 >= l + 10),
    ensures
        saturate(shifted_floor(d, k, m1)) == saturate(shifted_floor(d, k, m2)),
{
    lemma_pow10_landmarks();
    if m1 <= -20 {
        if d == 0 {
            let p1 = pow10((-m1) as nat);
            let p2 = pow10((-m2) as nat);
            assert(d * k * p1 == 0 && d * k * p2 == 0) by (nonlinear_arith)
                requires
                    d == 0,
            ;
        } else {
            lemma_pow10_monotone(20, (-m1) as nat);
            lemma_pow10_monotone(20, (-m2) as nat);
            assert(d * k * pow10((-m1) as nat) >= pow10(20)) by (nonlinear_arith)
                requires
                    d >= 1,
                    k >= 1,
                    pow10((-m1) as nat) >= pow10(20),
            ;
            assert(d * k * pow10((-m2) as nat) >= pow10(20)) by (nonlinear_arith)
                requires
                    d >= 1,
                    k >= 1,
                    pow10((-m2) as nat) >= pow10(20),
            ;
        }
    } else {
        lemma_pow10_add(l, 10);
        lemma_pow10_monotone(l + 10, m1 as nat);
        lemma_pow10_monotone(l + 10, m2 as nat);
        assert(d * k < pow10(l) * pow10(10)) by (nonlinear_arith)
            requires
                d < pow10(l),
                k < pow10(10),
        ;
        vstd::arithmetic::div_mod::lemma_basic_div((d * k) as int, pow10(m1 as nat) as int);
        vstd::arithmetic::div_mod::lemma_basic_div((d * k) as int, pow10(m2 as nat) as int);
    }
}

/// The index just past the first exponent mark in the first `end` characters
/// of `s`, or `end` where there is none.
fn exp_mark_position(s: &str, end: usize) -> (r: usize)
    requires
        end <= s@.len(),
    ensures
        r as int == exp_mark_index(s@.take(end as int), 0),
        r <= end,
{
    let ghost n = s@.take(end as int);
    let mut i: usize = 0;
    while i < end && s.get_char(i) != 'e' && s.get_char(i) != 'E'
        invariant
            i <= end,
            end <= s@.len(),
            n == s@.take(end as int),
            exp_mark_index(n, i as int) == exp_mark_index(n, 0),
        decreases end - i,
    {
        proof {
            assert(n[i as int] == s@[i as int]);
        }
        i = i + 1;
    }
    proof {
        if i < end {
            assert(n[i as int] == s@[i as int]);
        }
    }
    i
}

/// Where the first `end` characters of `s` are a decimal number, the length
/// of its run of leading digits.
fn decimal_point(s: &str, end: usize) -> (r: Option<usize>)
    requires
        end <= s@.len(),
    ensures
        r == (if is_decimal(s@.take(end as int)) {
            Some(digit_run_end(s@.take(end as int), 0) as usize)
        } else {
            None
        }),
{
    let ghost n = s@.take(end as int);
    if end == 0 {
        return None;
    }
    let mut p: usize = 0;
    while p < end && '0' <= s.get_char(p) && s.get_char(p) <= '9'
        invariant
            p <= end,
            end <= s@.len(),
            n == s@.take(end as int),
            digit_run_end(n, p as int) == digit_run_end(n, 0),
        decreases end - p,
    {
        proof {
            assert(n[p as int] == s@[p as int]);
        }
        p = p + 1;
    }
    proof {
        if p < end {
            assert(n[p as int] == s@[p as int]);
        }
        assert(digit_run_end(n, p as int) == p);
    }
    if p < end {
        if s.get_char(p) != '.' || end == 1 {
            return None;
        }
        let mut q: usize = p + 1;
        while q < end
            invariant
                p < q <= end,
                end <= s@.len(),
                n == s@.take(end as int),
                forall|i: int| p < i < q ==> is_digit(#[trigger] n[i]),
                digit_run_end(n, 0) == p,
            decreases end - q,
        {
            let c = s.get_char(q);
            if c < '0' || c > '9' {
                proof {
                    assert(n[q as int] == c);
                    assert(n.skip(p + 1)[q - p - 1] == n[q as int]);
                }
                return None;
            }
            q = q + 1;
        }
        proof {
            assert forall|i: int| 0 <= i < n.skip(p + 1).len() implies is_digit(
                #[trigger] n.skip(p + 1)[i],
            ) by {
                assert(n.skip(p + 1)[i] == n[p + 1 + i]);
            }
        }
    }
    Some(p)
}

/// The largest magnitude at which an exponent is read; any beyond shifts a
/// number out of every `u64`.
pub const EXPONENT_CAP: u128 = 0x1_0000_0000_0000_0000_0000;

pub open spec fn clamp_exponent(v: int) -> int {
    if v > EXPONENT_CAP {
        EXPONENT_CAP as int
    } else if v < -EXPONENT_CAP {
        -EXPONENT_CAP
    } else {
        v
    }
}

/// Reads the exponent held in characters `from` to `end` of `s`, its
/// magnitude held at `EXPONENT_CAP`; `None` where they are no exponent.
fn exponent_at(s: &str, from: usize, end: usize) -> (r: Option<i128>)
    requires
        from <= end <= s@.len(),
    ensures
        r.is_some() == is_exponent(s@.subrange(from as int, end as int)),
        r.is_some() ==> r->0 as int == clamp_exponent(
            exponent_value(s@.subrange(from as int, end as int)),
        ),
{
    let ghost t = s@.subrange(from as int, end as int);
    let mut i: usize = from;
    let mut negative = false;
    if from < end {
        let c = s.get_char(from);
        proof {
            assert(t[0] == c);
        }
        if c == '+' || c == '-' {
            negative = c == '-';
            i = from + 1;
        }
    }
    let ghost u = s@.subrange(i as int, end as int);
    proof {
        assert(exponent_digits(t) =~= u);
    }
    if i == end {
        return None;
    }
    let start = i;
    let mut acc: u128 = 0;
    while i < end
        invariant
            start <= i <= end,
            end <= s@.len(),
            u == s@.subrange(start as int, end as int),
            t == s@.subrange(from as int, end as int),
            exponent_digits(t) == u,
            u.len() > 0,
            forall|j: int| 0 <= j < i - start ==> is_digit(#[trigger] u[j]),
            acc == (if digits_value(u.take(i - start)) < EXPONENT_CAP {
                digits_value(u.take(i - start))
            } else {
                EXPONENT_CAP as nat
            }),
        decreases end - i,
    {
        let c = s.get_char(i);
        proof {
            assert(u[i - start] == c);
        }
        if c < '0' || c > '9' {
            proof {
                assert(!is_digit(u[i - start]));
            }
            return None;
        }
        proof {
            assert(u.take(i - start + 1).drop_last() =~= u.take(i - start));
            assert(u.take(i - start + 1).last() == c);
        }
        let d = (c as u32 - '0' as u32) as u128;
        proof {
            assert(digit_of(c) == d);
        }
        let next = acc * 10 + d;
        acc = if next >= EXPONENT_CAP { EXPONENT_CAP } else { next };
        i = i + 1;
    }
    proof {
        assert(u.take(i - start) =~= u);
    }
    if negative {
        Some(-(acc as i128))
    } else {
        Some(acc as i128)
    }
}

/// The digits of a decimal number are its characters with the point left out.
pub proof fn lemma_decimal_digits(m: Seq<char>)
    requires
        is_decimal(m),
    ensures
        ({
            let p = digit_run_end(m, 0);
            let dd = decimal_digits(m);
            &&& 0 <= p <= m.len()
            &&& dd.len() == (if p < m.len() {
                m.len() - 1
            } else {
                m.len() as int
            })
            &&& forall|i: int|
                0 <= i < dd.len() ==> #[trigger] dd[i] == (if i < p {
                    m[i]
                } else {
                    m[i + 1]
                })
            &&& all_digits(dd)
        }),
{
    lemma_digit_run(m, 0);
    let p = digit_run_end(m, 0);
    let dd = decimal_digits(m);
    assert forall|i: int| 0 <= i < dd.len() implies is_digit(#[trigger] dd[i]) by {
        if i >= p {
            assert(fraction_digits(m)[i - p] == m[i + 1]);
        }
    }
}

/// The value of digit `i` of the decimal number in the first `ei` characters
/// of `s`, whose leading run of digits ends at `p`.
fn significand_digit(s: &str, p: usize, ei: usize, i: usize) -> (d: u64)
    requires
        ei <= s@.len(),
        is_decimal(s@.take(ei as int)),
        p as int == digit_run_end(s@.take(ei as int), 0),
        i < decimal_digits(s@.take(ei as int)).len(),
    ensures
        d as nat == digit_of(decimal_digits(s@.take(ei as int))[i as int]),
        d <= 9,
{
    let ghost m = s@.take(ei as int);
    proof {
        lemma_decimal_digits(m);
        assert(is_digit(decimal_digits(m)[i as int]));
    }
    let c = if i < p {
        s.get_char(i)
    } else {
        s.get_char(i + 1)
    };
    (c as u32 - '0' as u32) as u64
}

/// Above this, a count of whole units times any factor no longer fits a `u64`.
pub const WHOLE_CAP: u128 = 0x1_0000_0000_0000_0000;

pub open spec fn capped(x: nat) -> nat {
    if x < WHOLE_CAP {
        x
    } else {
        WHOLE_CAP as nat
    }
}

/// The value of the first `w` significand digits, held at `WHOLE_CAP`.
fn leading_value(s: &str, p: usize, ei: usize, w: usize) -> (r: u128)
    requires
        ei <= s@.len(),
        is_decimal(s@.take(ei as int)),
        p as int == digit_run_end(s@.take(ei as int), 0),
        w <= decimal_digits(s@.take(ei as int)).len(),
    ensures
        r as nat == capped(digits_value(decimal_digits(s@.take(ei as int)).take(w as int))),
{
    let ghost dd = decimal_digits(s@.take(ei as int));
    let mut acc: u128 = 0;
    let mut i: usize = 0;
    while i < w
        invariant
            i <= w,
            w <= dd.len(),
            ei <= s@.len(),
            is_decimal(s@.take(ei as int)),
            p as int == digit_run_end(s@.take(ei as int), 0),
            dd == decimal_digits(s@.take(ei as int)),
            acc as nat == capped(digits_value(dd.take(i as int))),
        decreases w - i,
    {
        let d = significand_digit(s, p, ei, i);
        proof {
            assert(dd.take(i + 1).drop_last() =~= dd.take(i as int));
            assert(dd.take(i + 1).last() == dd[i as int]);
        }
        let next = acc * 10 + d as u128;
        acc = if next >= WHOLE_CAP {
            WHOLE_CAP
        } else {
            next
        };
        i = i + 1;
    }
    acc
}

/// The significand digits from `w` on, read as a fraction, times `k` and
/// rounded down.
fn trailing_scaled(s: &str, p: usize, ei: usize, w: usize, len: usize, k: u64) -> (r: u64)
    requires
        ei <= s@.len(),
        is_decimal(s@.take(ei as int)),
        p as int == digit_run_end(s@.take(ei as int), 0),
        len == decimal_digits(s@.take(ei as int)).len(),
        w <= len,
        0 < k <= BYTES_PER_GB,
    ensures
        r as nat == (digits_value(decimal_digits(s@.take(ei as int)).skip(w as int)) * (k as nat))
            / pow10((len - w) as nat),
        r < k,
{
    let ghost dd = decimal_digits(s@.take(ei as int));
    let mut part: u64 = 0;
    let mut j: usize = len;
    proof {
        assert(dd.subrange(len as int, len as int).len() == 0);
        assert(digits_value(dd.subrange(len as int, len as int)) == 0);
        assert(pow10(0) == 1);
    }
    while j > w
        invariant
            w <= j <= len,
            len == dd.len(),
            ei <= s@.len(),
            is_decimal(s@.take(ei as int)),
            p as int == digit_run_end(s@.take(ei as int), 0),
            dd == decimal_digits(s@.take(ei as int)),
            part < k,
            0 < k <= BYTES_PER_GB,
            part as nat == (digits_value(dd.subrange(j as int, len as int)) * (k as nat)) / pow10(
                (len - j) as nat,
            ),
        decreases j,
    {
        j = j - 1;
        let d = significand_digit(s, p, ei, j);
        let ghost t = dd.subrange(j as int, len as int);
        proof {
            assert(t[0] == dd[j as int]);
            assert(t.drop_first() =~= dd.subrange(j + 1, len as int));
            lemma_fraction_step(t, k as nat);
        }
        assert(d * k + part < 10 * k) by (nonlinear_arith)
            requires
                d <= 9,
                part < k,
        ;
        part = (d * k + part) / 10;
    }
    proof {
        assert(dd.subrange(w as int, len as int) =~= dd.skip(w as int));
    }
    part
}

/// The significand of the decimal number in the first `ei` characters of `s`,
/// times `k`, divided by `10^shift` (multiplied, for a shift below zero),
/// rounded down and held at the largest `u64`.
fn scale_significand(s: &str, p: usize, ei: usize, len: usize, shift: i128, k: u64) -> (r: u64)
    requires
        ei <= s@.len(),
        is_decimal(s@.take(ei as int)),
        p as int == digit_run_end(s@.take(ei as int), 0),
        len == decimal_digits(s@.take(ei as int)).len(),
        -0x2_0000_0000_0000_0000_0000 <= shift <= 0x2_0000_0000_0000_0000_0000,
        0 < k <= BYTES_PER_GB,
    ensures
        r == saturate(
            shifted_floor(digits_value(decimal_digits(s@.take(ei as int))), k as nat, shift as int),
        ),
{
    let ghost dd = decimal_digits(s@.take(ei as int));
    let ghost big_d = digits_value(dd);
    proof {
        assert(dd.take(len as int) =~= dd);
    }
    if shift <= 0 {
        let whole = leading_value(s, p, ei, len);
        if whole == 0 {
            proof {
                let pw = pow10((-shift) as nat);
                assert(big_d * k * pw == 0) by (nonlinear_arith)
                    requires
                        big_d == 0,
                ;
            }
            return 0;
        }
        assert(whole * (k as u128) <= WHOLE_CAP * 0x4000_0000) by (nonlinear_arith)
            requires
                whole <= WHOLE_CAP,
                k <= 0x4000_0000,
        ;
        let mut t: u128 = whole * (k as u128);
        let neg: u128 = (-shift) as u128;
        let mut j: u128 = 0;
        proof {
            assert(pow10(0) == 1);
            if whole == WHOLE_CAP {
                assert(t >= WHOLE_CAP) by (nonlinear_arith)
                    requires
                        t == whole * k,
                        whole == WHOLE_CAP,
                        k >= 1,
                ;
                assert(big_d * k * pow10(0) >= WHOLE_CAP) by (nonlinear_arith)
                    requires
                        big_d >= WHOLE_CAP,
                        k >= 1,
                        pow10(0) == 1,
                ;
            } else {
                assert(t == big_d * k * pow10(0)) by (nonlinear_arith)
                    requires
                        t == big_d * k,
                        pow10(0) == 1,
                ;
            }
        }
        while j < neg && t < WHOLE_CAP
            invariant
                j <= neg,
                t <= WHOLE_CAP * 0x4000_0000,
                t < WHOLE_CAP ==> t == big_d * k * pow10(j as nat),
                t >= WHOLE_CAP ==> big_d * k * pow10(j as nat) >= WHOLE_CAP,
            decreases neg - j,
        {
            proof {
                assert(pow10((j + 1) as nat) == 10 * pow10(j as nat));
                assert(big_d * k * (10 * pow10(j as nat)) == (big_d * k * pow10(j as nat)) * 10)
                    by (nonlinear_arith);
            }
            t = t * 10;
            j = j + 1;
        }
        if t >= WHOLE_CAP {
            proof {
                lemma_pow10_monotone(j as nat, neg as nat);
                assert(big_d * k * pow10(neg as nat) >= big_d * k * pow10(j as nat))
                    by (nonlinear_arith)
                    requires
                        pow10(neg as nat) >= pow10(j as nat),
                ;
            }
            u64::MAX
        } else {
            t as u64
        }
    } else {
        let w: usize = if shift < len as i128 {
            len - shift as usize
        } else {
            0
        };
        let whole = leading_value(s, p, ei, w);
        let part = trailing_scaled(s, p, ei, w, len, k);
        let ghost lo = digits_value(dd.take(w as int));
        let ghost hi = digits_value(dd.skip(w as int));
        let ghost pw = pow10((len - w) as nat);
        proof {
            assert(dd =~= dd.take(w as int) + dd.skip(w as int));
            lemma_digits_concat(dd.take(w as int), dd.skip(w as int));
            lemma_pow10_positive((len - w) as nat);
            assert(big_d * k == (lo * k) * pw + hi * k) by (nonlinear_arith)
                requires
                    big_d == lo * pw + hi,
            ;
            vstd::arithmetic::div_mod::lemma_hoist_over_denominator(
                (hi * k) as int,
                (lo * k) as int,
                pw,
            );
        }
        if shift <= len as i128 {
            assert(whole * (k as u128) <= WHOLE_CAP * 0x4000_0000) by (nonlinear_arith)
                requires
                    whole <= WHOLE_CAP,
                    k <= 0x4000_0000,
            ;
            let total: u128 = whole * (k as u128) + part as u128;
            proof {
                if whole == WHOLE_CAP {
                    assert(lo * k >= WHOLE_CAP) by (nonlinear_arith)
                        requires
                            lo >= WHOLE_CAP,
                            k >= 1,
                    ;
                    assert(total >= WHOLE_CAP) by (nonlinear_arith)
                        requires
                            total == whole * k + part,
                            whole == WHOLE_CAP,
                            k >= 1,
                    ;
                }
            }
            if total > u64::MAX as u128 {
                u64::MAX
            } else {
                total as u64
            }
        } else {
            proof {
                assert(dd.take(0) =~= Seq::<char>::empty());
                assert(lo == 0);
                assert(lo * k == 0) by (nonlinear_arith)
                    requires
                        lo == 0,
                ;
            }
            let e2: u128 = (shift - len as i128) as u128;
            let mut r: u64 = part;
            let mut j: u128 = 0;
            proof {
                assert(pow10(0) == 1);
            }
            while j < e2 && r > 0
                invariant
                    j <= e2,
                    r as nat == part as nat / pow10(j as nat),
                decreases r,
            {
                proof {
                    lemma_pow10_positive(j as nat);
                    vstd::arithmetic::div_mod::lemma_div_denominator(
                        part as int,
                        pow10(j as nat) as int,
                        10,
                    );
                    assert(pow10((j + 1) as nat) == 10 * pow10(j as nat));
                }
                r = r / 10;
                j = j + 1;
            }
            proof {
                lemma_pow10_positive(j as nat);
                lemma_pow10_positive(e2 as nat);
                lemma_pow10_positive(len as nat);
                if j < e2 {
                    vstd::arithmetic::div_mod::lemma_fundamental_div_mod(
                        part as int,
                        pow10(j as nat) as int,
                    );
                    vstd::arithmetic::div_mod::lemma_mod_bound(part as int, pow10(j as nat) as int);
                    let pj = pow10(j as nat);
                    assert(pj * (part as nat / pj) == 0) by (nonlinear_arith)
                        requires
                            part as nat / pj == 0,
                    ;
                    assert(part < pj);
                    lemma_pow10_monotone(j as nat, e2 as nat);
                    vstd::arithmetic::div_mod::lemma_basic_div(part as int, pow10(e2 as nat) as int);
                }
                vstd::arithmetic::div_mod::lemma_div_denominator(
                    (big_d * k) as int,
                    pow10(len as nat) as int,
                    pow10(e2 as nat) as int,
                );
                lemma_pow10_add(len as nat, e2 as nat);
                assert(len + e2 == shift);
            }
            r
        }
    }
}

/// Reads the number without a sign held in the first `end` characters of
/// `s` (a decimal number with an optional exponent), times `k`, rounded down
/// and held at the largest `u64`; `None` where those characters are no such
/// number.
pub fn number_times(s: &str, end: usize, k: u64) -> (r: Option<u64>)
    requires
        end <= s@.len(),
        0 < k <= BYTES_PER_GB,
    ensures
        r == (if is_unsigned_number(s@.take(end as int)) {
            Some(saturate(number_times_floor(s@.take(end as int), k as nat)))
        } else {
            None
        }),
{
    let ghost n = s@.take(end as int);
    let ei = exp_mark_position(s, end);
    proof {
        assert(mantissa_of(n) =~= s@.take(ei as int));
    }
    let p = match decimal_point(s, ei) {
        Some(p) => p,
        None => return None,
    };
    let x: i128 = if ei < end {
        proof {
            assert(exponent_text(n) =~= s@.subrange(ei + 1, end as int));
        }
        match exponent_at(s, ei + 1, end) {
            Some(x) => x,
            None => return None,
        }
    } else {
        0
    };
    let ghost m = s@.take(ei as int);
    proof {
        lemma_decimal_digits(m);
    }
    let f: usize = if p < ei {
        ei - p - 1
    } else {
        0
    };
    let len: usize = if p < ei {
        ei - 1
    } else {
        ei
    };
    proof {
        assert(fraction_digits(m).len() == f);
    }
    let shift: i128 = f as i128 - x;
    let r = scale_significand(s, p, ei, len, shift, k);
    proof {
        let big_d = digits_value(decimal_digits(m));
        let true_shift = point_shift(n);
        if shift != true_shift {
            lemma_digits_value_bound(decimal_digits(m));
            lemma_far_shifts(big_d, k as nat, len as nat, shift as int, true_shift);
        }
    }
    Some(r)
}

/// A number without a sign ends in a digit or in the point of its mantissa.
pub proof fn lemma_unsigned_number_last(n: Seq<char>)
    requires
        is_unsigned_number(n),
    ensures
        is_digit(n.last()) || n.last() == '.',
{
    let ei = exp_mark_index(n, 0);
    lemma_exp_mark(n, 0);
    if has_exponent(n) {
        let t = exponent_text(n);
        let u = exponent_digits(t);
        assert(u[u.len() - 1] == n.last());
        assert(is_digit(u[u.len() - 1]));
    } else {
        assert(mantissa_of(n) =~= n);
        lemma_decimal_last(n);
    }
}

/// The first exponent mark at or after `i` lies within the string or at its end.
pub proof fn lemma_exp_mark(n: Seq<char>, i: int)
    requires
        0 <= i <= n.len(),
    ensures
        i <= exp_mark_index(n, i) <= n.len(),
    decreases n.len() - i,
{
    if i < n.len() && !is_exp_mark(n[i]) {
        lemma_exp_mark(n, i + 1);
    }
}

} // verus!
