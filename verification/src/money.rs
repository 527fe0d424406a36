//! Amounts of money, held in cents and shown in dollars.

use vstd::prelude::*;
use vstd::string::*;

use crate::layout;
use crate::layout::{magnitude, push_digits};

verus! {

/// From this many cents on, a dollar amount is shown as the nearest binary
/// floating-point number in double precision, which may be off by cents. It is
/// one hundred times two to the power of 46.
pub const EXACT_CENTS_LIMIT: u64 = 7_036_874_417_766_400;

/// The integer nearest to `n / d`, the even one of two that are as near.
pub open spec fn half_even(n: int, d: int) -> int {
    let q = n / d;
    let r = n % d;
    if 2 * r > d || (2 * r == d && q % 2 == 1) {
        q + 1
    } else {
        q
    }
}

/// The distance between neighbouring numbers of 53 binary digits around `x`, where
/// `x` has 53 of them or more, and 1 for a smaller `x`.
pub open spec fn spacing(x: int) -> int
    decreases x,
{
    if x < 0x20_0000_0000_0000 {
        1
    } else {
        2 * spacing(x / 2)
    }
}

/// The number of 53 binary digits nearest to `n / d`.
pub open spec fn nearest(n: int, d: int) -> int {
    let u = spacing(n / d);
    u * half_even(n, d * u)
}

/// The cents that are shown for an amount: the amount itself below the limit. From
/// the limit on, the dollars are a double-precision number of sixty-fourths, got
/// by rounding the cents and then the quotient, and are rounded to cents again.
pub open spec fn shown_cents(c: int) -> int {
    if c < EXACT_CENTS_LIMIT {
        c
    } else {
        half_even(100 * nearest(64 * nearest(c, 1), 100), 64)
    }
}

/// Cents as dollars, with two decimals, for an amount that is not negative.
pub open spec fn dollars_text(c: int) -> Seq<char> {
    layout::digits((shown_cents(c) / 100) as nat) + seq![
        '.',
        layout::digit_char(shown_cents(c) / 10 % 10),
        layout::digit_char(shown_cents(c) % 10),
    ]
}

/// An amount in dollars, with two decimals and a sign when it is negative.
pub open spec fn dollars(cents: int) -> Seq<char> {
    if cents < 0 {
        seq!['-'] + dollars_text(-cents)
    } else {
        dollars_text(cents)
    }
}

/// Spacings are positive, and no larger than what they are the spacing of needs.
proof fn lemma_spacing(x: int)
    requires
        0 <= x,
    ensures
        1 <= spacing(x),
        x < 0x20_0000_0000_0000 || spacing(x) * 0x10_0000_0000_0000 <= x,
    decreases x,
{
    if x >= 0x20_0000_0000_0000 {
        lemma_spacing(x / 2);
    }
}

fn exec_spacing(x: u128) -> (u: u128)
    ensures
        u == spacing(x as int),
        1 <= u,
        x < 0x20_0000_0000_0000 || u * 0x10_0000_0000_0000 <= x,
    decreases x,
{
    proof {
        lemma_spacing(x as int);
    }
    if x < 0x20_0000_0000_0000 {
        1
    } else {
        2 * exec_spacing(x / 2)
    }
}

fn exec_half_even(n: u128, d: u128) -> (q: u128)
    requires
        0 < d <= 0xFFFF_FFFF_FFFF_FFFF_FFFF,
    ensures
        q == half_even(n as int, d as int),
        q <= n as int / d as int + 1,
{
    let q: u128 = n / d;
    let r: u128 = n % d;
    if 2 * r > d || (2 * r == d && q % 2 == 1) {
        proof {
            if q == u128::MAX {
                assert(r == 0) by (nonlinear_arith)
                    requires
                        q == n as int / d as int,
                        r == n as int % d as int,
                        d > 0,
                        q == 0xFFFF_FFFF_FFFF_FFFF_FFFF_FFFF_FFFF_FFFF,
                        n <= 0xFFFF_FFFF_FFFF_FFFF_FFFF_FFFF_FFFF_FFFF,
                ;
            }
        }
        q + 1
    } else {
        q
    }
}

fn exec_nearest(n: u128, d: u128) -> (m: u128)
    requires
        n <= 0xFFFF_FFFF_FFFF_FFFF_FFFF,
        0 < d <= 100,
    ensures
        m == nearest(n as int, d as int),
        m <= n as int / d as int + n as int / d as int / 0x10_0000_0000_0000 + 1,
{
    let x: u128 = n / d;
    let u: u128 = exec_spacing(x);
    proof {
        assert(0 <= x <= n) by (nonlinear_arith)
            requires
                x == n as int / d as int,
                d > 0,
                n >= 0,
        ;
        assert(d * u <= 0xFFFF_FFFF_FFFF_FFFF_FFFF && 0 < d * u) by (nonlinear_arith)
            requires
                0 < d <= 100,
                1 <= u,
                u == 1 || u * 0x10_0000_0000_0000 <= 0xFFFF_FFFF_FFFF_FFFF_FFFF,
        ;
    }
    let q: u128 = exec_half_even(n, d * u);
    proof {
        lemma_nearest_bound(n as int, d as int, u as int, q as int);
    }
    u * q
}

proof fn lemma_nearest_bound(n: int, d: int, u: int, q: int)
    requires
        0 <= n,
        0 < d,
        1 <= u,
        u == 1 || u * 0x10_0000_0000_0000 <= n / d,
        0 <= q <= n / (d * u) + 1,
        0 <= n / d,
    ensures
        0 <= u * q <= n / d + n / d / 0x10_0000_0000_0000 + 1,
{
    let p = n / (d * u);
    assert(0 <= u * q <= u * p + u) by (nonlinear_arith)
        requires
            0 <= q <= p + 1,
            u >= 1,
    ;
    assert(u * p <= n / d) by (nonlinear_arith)
        requires
            p == n / (d * u),
            d >= 1,
            u >= 1,
            n >= 0,
    ;
}

fn exec_shown_cents(c: u64) -> (shown: u64)
    requires
        c <= 0x8000_0000_0000_0000,
    ensures
        shown == shown_cents(c as int),
{
    if c < EXACT_CENTS_LIMIT {
        c
    } else {
        let rounded: u128 = exec_nearest(c as u128, 1);
        let quotient: u128 = exec_nearest(64 * rounded, 100);
        exec_half_even(100 * quotient, 64) as u64
    }
}

/// Appends an amount in dollars, with two decimals.
pub fn push_dollars(out: &mut String, cents: i64)
    ensures
        final(out)@ == old(out)@ + dollars(cents as int),
{
    let ghost before = out@;
    let shown: u64 = exec_shown_cents(magnitude(cents));
    if cents < 0 {
        out.push('-');
    }
    push_digits(out, shown / 100);
    out.push('.');
    out.push((0x30 + (shown / 10 % 10) as u8) as char);
    out.push((0x30 + (shown % 10) as u8) as char);
    assert(out@ =~= before + dollars(cents as int));
}

/// An amount in dollars, with two decimals.
pub fn dollars_of(cents: i64) -> (text: String)
    ensures
        text@ == dollars(cents as int),
{
    let mut text = String::new();
    push_dollars(&mut text, cents);
    assert(text@ =~= dollars(cents as int));
    text
}

/// Below the limit no cent is lost: the digits of the shown amount, without the
/// point, stand for the cents.
pub proof fn lemma_dollars_exact(c: int)
    requires
        0 <= c < EXACT_CENTS_LIMIT,
    ensures
        ({
            let s = dollars(c);
            let n = s.len() as int;
            &&& n >= 4
            &&& s[n - 3] == '.'
            &&& layout::number_of(s.take(n - 3)) * 100 + layout::number_of(s.skip(n - 2)) == c
        }),
{
    let s = dollars(c);
    let n = s.len() as int;
    layout::lemma_digits_value((c / 100) as nat);
    assert(s.take(n - 3) =~= layout::digits((c / 100) as nat));
    let t = s.skip(n - 2);
    assert(t =~= seq![layout::digit_char(c / 10 % 10), layout::digit_char(c % 10)]);
    assert(t.drop_last() =~= seq![layout::digit_char(c / 10 % 10)]);
    assert(t.drop_last().drop_last() =~= Seq::<char>::empty());
    reveal_with_fuel(layout::number_of, 3);
}

/// The cents that an amount in dollars says: the number before the point, times one
/// hundred, and the number behind it, less than nothing where a sign stands before them.
pub open spec fn cents_said(s: Seq<char>) -> int {
    if s.len() > 0 && s[0] == '-' {
        -cents_said_unsigned(s.skip(1))
    } else {
        cents_said_unsigned(s)
    }
}

/// The cents that an amount in dollars without a sign says.
pub open spec fn cents_said_unsigned(s: Seq<char>) -> int {
    layout::number_of(s.take(s.len() - 3)) * 100 + layout::number_of(s.skip(s.len() - 2))
}

/// An amount in dollars says its cents, up to some seventy trillion dollars either way.
/// It is made of digits, a point before the last two of them, and a sign before an
/// amount below zero.
pub proof fn lemma_dollars_read_back(c: int)
    requires
        -7_036_874_417_766_400 < c < 7_036_874_417_766_400,
    ensures
        cents_said(dollars(c)) == c,
        dollars(c).len() >= 4,
        dollars(c)[dollars(c).len() - 3] == '.',
        c < 0 <==> dollars(c)[0] == '-',
{
    let m = if c < 0 {
        -c
    } else {
        c
    };
    lemma_dollars_exact(m);
    layout::lemma_digits_value((m / 100) as nat);
    let s = dollars(m);
    assert(s[0] == layout::digits((m / 100) as nat)[0]);
    if c < 0 {
        assert(dollars(c).skip(1) =~= s);
    }
}

/// An amount in dollars is made of digits, a point and a sign.
pub proof fn lemma_dollars_chars(c: int, i: int)
    requires
        0 <= i < dollars(c).len(),
    ensures
        '0' <= dollars(c)[i] <= '9' || dollars(c)[i] == '.' || dollars(c)[i] == '-',
{
    let m = if c < 0 {
        -c
    } else {
        c
    };
    let n = (shown_cents(m) / 100) as nat;
    layout::lemma_digits_value(n);
    let s = dollars_text(m);
    assert forall|j: int| 0 <= j < s.len() implies '0' <= #[trigger] s[j] <= '9' || s[j] == '.' by {
        if j < layout::digits(n).len() {
            assert(s[j] == layout::digits(n)[j]);
        }
    }
    if c < 0 && i > 0 {
        assert(dollars(c)[i] == s[i - 1]);
    }
}

/// Rounding takes the nearest integer, and the even one of two that are as near.
pub proof fn lemma_rounding(n: int, d: int)
    requires
        0 <= n,
        0 < d,
    ensures
        -d <= 2 * (n - half_even(n, d) * d) <= d,
        2 * (n - half_even(n, d) * d) == d || 2 * (n - half_even(n, d) * d) == -d ==> half_even(n, d)
            % 2 == 0,
{
    let q = n / d;
    let r = n % d;
    assert(n == q * d + r && 0 <= r < d) by (nonlinear_arith)
        requires
            q == n / d,
            r == n % d,
            d > 0,
    ;
    assert((q + 1) * d == q * d + d) by (nonlinear_arith);
}

/// The numbers of 53 binary digits around a larger number lie one power of two apart,
/// and dividing by it leaves 53 digits.
pub proof fn lemma_digits_left(x: int)
    requires
        0x20_0000_0000_0000 <= x,
    ensures
        spacing(x) == 2 * spacing(x / 2),
        0x10_0000_0000_0000 * spacing(x) <= x < 0x20_0000_0000_0000 * spacing(x),
    decreases x,
{
    if x / 2 >= 0x20_0000_0000_0000 {
        lemma_digits_left(x / 2);
    } else {
        assert(spacing(x / 2) == 1);
    }
}

/// From some seventy trillion dollars on, an amount is shown as double precision holds
/// it: the cents rounded to 53 binary digits, the dollars rounded again, to
/// sixty-fourths of 53 digits, and those rounded to cents.
pub proof fn lemma_large_amounts(c: int, cents: int, dollars: int)
    requires
        7_036_874_417_766_400 <= c,
        cents == spacing(c) * half_even(c, spacing(c)),
        dollars == spacing(64 * cents / 100) * half_even(
            64 * cents,
            100 * spacing(64 * cents / 100),
        ),
    ensures
        shown_cents(c) == half_even(100 * dollars, 64),
{
    assert(c / 1 == c && 1 * spacing(c) == spacing(c));
}

} // verus!
