//! Sizes of files in a short form.

use crate::number::{decimal, push_decimal};
use vstd::prelude::*;

verus! {

/// `n / d` to the nearest whole number; of two that are as near, the even one.
pub open spec fn rounded(n: nat, d: nat) -> nat
    recommends
        d > 0,
{
    if 2 * (n % d) < d || (2 * (n % d) == d && (n / d) % 2 == 0) {
        n / d
    } else {
        n / d + 1
    }
}

/// The first of `u`, `2 * u`, `4 * u`, ... of which `n` holds fewer than
/// two to the power of 53.
pub open spec fn spacing(n: nat, u: nat) -> nat
    decreases n + 1 - u,
{
    if u == 0 || n < 0x20_0000_0000_0000 * u {
        u
    } else {
        spacing(n, 2 * u)
    }
}

/// `n` rounded to 53 significant bits.
pub open spec fn significant(n: nat) -> nat {
    rounded(n, spacing(n, 1)) * spacing(n, 1)
}

/// A number of tenths with its decimal point.
pub open spec fn tenths_text(t: nat) -> Seq<char> {
    decimal(t / 10) + "."@ + decimal(t % 10)
}

/// A number of bytes in a short form: the bytes themselves below one kibibyte,
/// else kibibytes or mebibytes with one decimal place.
pub open spec fn size_text(bytes: nat) -> Seq<char> {
    if bytes >= 1_048_576 {
        tenths_text(rounded(10 * significant(bytes), 1_048_576)) + "M"@
    } else if bytes >= 1024 {
        tenths_text(rounded(10 * bytes, 1024)) + "K"@
    } else {
        decimal(bytes) + "B"@
    }
}

fn round_div(n: u128, d: u128) -> (r: u128)
    requires
        0 < d <= 0x1_0000_0000_0000_0000,
    ensures
        r == rounded(n as nat, d as nat),
        r * d <= n + d,
{
    let q = n / d;
    let rest = n % d;
    assert(q * d + rest == n && q <= n) by (nonlinear_arith)
        requires
            d > 0,
            q == n / d,
            rest == n % d,
    ;
    assert((q + 1) * d == q * d + d) by (nonlinear_arith);
    if 2 * rest < d || (2 * rest == d && q % 2 == 0) {
        q
    } else {
        assert(q + 1 <= u128::MAX) by {
            if d == 1 {
                assert(rest == 0);
            } else {
                assert(q < u128::MAX) by (nonlinear_arith)
                    requires
                        d >= 2,
                        q * d + rest == n,
                        n <= u128::MAX,
                ;
            }
        }
        q + 1
    }
}

fn push_tenths(out: &mut String, t: u128)
    requires
        t / 10 <= u64::MAX,
    ensures
        final(out)@ == old(out)@ + tenths_text(t as nat),
{
    push_decimal(out, (t / 10) as u64);
    out.append(".");
    push_decimal(out, (t % 10) as u64);
    assert(out@ =~= old(out)@ + tenths_text(t as nat));
}

/// Rounds a number to 53 significant bits.
fn round_significant(n: u64) -> (r: u128)
    ensures
        r == significant(n as nat),
        r <= 0x2_0000_0000_0000_0000,
{
    let mut u: u128 = 1;
    while 0x20_0000_0000_0000 * u <= n as u128
        invariant
            1 <= u <= 0x1000,
            spacing(n as nat, 1) == spacing(n as nat, u as nat),
        decreases 0x1000 - u,
    {
        u = 2 * u;
    }
    let q = round_div(n as u128, u);
    q * u
}

/// Writes a number of bytes in a short form.
pub fn human_size(bytes: u64) -> (r: String)
    ensures
        r@ == size_text(bytes as nat),
{
    let mut out = String::new();
    if bytes >= 1_048_576 {
        let b = round_significant(bytes);
        let t = round_div(10 * b, 1_048_576);
        push_tenths(&mut out, t);
        out.append("M");
    } else if bytes >= 1024 {
        let t = round_div(10 * bytes as u128, 1024);
        push_tenths(&mut out, t);
        out.append("K");
    } else {
        push_decimal(&mut out, bytes);
        out.append("B");
    }
    assert(out@ =~= size_text(bytes as nat));
    out
}

/// A rounded quotient is at most half a unit off.
pub proof fn rounding_is_nearest(n: nat, d: nat)
    requires
        d > 0,
    ensures
        2 * (rounded(n, d) * d) <= 2 * n + d,
        2 * n <= 2 * (rounded(n, d) * d) + d,
{
    let q = n / d;
    let r = n % d;
    assert(q * d + r == n && r < d) by (nonlinear_arith)
        requires
            d > 0,
            q == n / d,
            r == n % d,
    ;
    assert((q + 1) * d == q * d + d) by (nonlinear_arith);
}

/// Below two to the power of 53 no number is changed before it is divided, so
/// that the shown size is the nearest tenth of a unit.
pub proof fn shown_size_is_nearest(bytes: nat)
    requires
        1_048_576 <= bytes < 0x20_0000_0000_0000,
    ensures
        significant(bytes) == bytes,
        size_text(bytes) == tenths_text(rounded(10 * bytes, 1_048_576)) + "M"@,
        2 * (rounded(10 * bytes, 1_048_576) * 1_048_576) <= 20 * bytes + 1_048_576,
        20 * bytes <= 2 * (rounded(10 * bytes, 1_048_576) * 1_048_576) + 1_048_576,
{
    assert(spacing(bytes, 1) == 1);
    assert(rounded(bytes, 1) == bytes);
    rounding_is_nearest(10 * bytes, 1_048_576);
}

/// Rounding keeps the order, so a larger file never shows a smaller number of
/// the same unit.
pub proof fn rounding_keeps_order(m: nat, n: nat, d: nat)
    requires
        d > 0,
        m <= n,
    ensures
        rounded(m, d) <= rounded(n, d),
{
    let (a, r) = (m / d, m % d);
    let (b, s) = (n / d, n % d);
    assert(a * d + r == m && r < d) by (nonlinear_arith)
        requires
            d > 0,
            a == m / d,
            r == m % d,
    ;
    assert(b * d + s == n && s < d) by (nonlinear_arith)
        requires
            d > 0,
            b == n / d,
            s == n % d,
    ;
    assert(a <= b) by (nonlinear_arith)
        requires
            a * d + r == m,
            b * d + s == n,
            r >= 0,
            s < d,
            m <= n,
    ;
    if a == b {
        assert(r <= s);
    }
}

} // verus!
