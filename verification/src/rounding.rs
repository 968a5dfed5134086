//! Binary floating point, computed on integers.
//!
//! Scale factors reach the converter as IEEE 754 numbers. The few places where
//! they meet pixel coordinates are computed here with integers, rounded the way
//! the standard prescribes, so that every coordinate is exactly determined.

use vstd::prelude::*;

#[allow(unused_imports)]
use crate::geometry::{coord_max, least, most};

verus! {

/// Two to the power of `k`.
pub open spec fn two_to(k: nat) -> int
    decreases k,
{
    if k == 0 {
        1
    } else {
        2 * two_to((k - 1) as nat)
    }
}

/// The number of binary digits of `n`.
pub open spec fn digits(n: int) -> nat
    decreases n,
{
    if n <= 0 {
        0
    } else {
        1 + digits(n / 2)
    }
}

/// `n / d` rounded to the nearest integer; halfway, to the even one.
pub open spec fn nearest_even(n: int, d: int) -> int {
    let q = n / d;
    let r = n % d;
    if 2 * r < d {
        q
    } else if 2 * r > d {
        q + 1
    } else {
        q + q % 2
    }
}

/// `n` rounded to `p` significant binary digits; halfway, to the even neighbour.
pub open spec fn to_precision(n: int, p: nat) -> int {
    if digits(n) <= p {
        n
    } else {
        let step = two_to((digits(n) - p) as nat);
        nearest_even(n, step) * step
    }
}

pub proof fn lemma_two_to_positive(k: nat)
    ensures
        two_to(k) >= 1,
    decreases k,
{
    if k > 0 {
        lemma_two_to_positive((k - 1) as nat);
    }
}

pub proof fn lemma_two_to_adds(a: nat, b: nat)
    ensures
        two_to(a + b) == two_to(a) * two_to(b),
    decreases b,
{
    if b == 0 {
        assert(two_to(a) * 1 == two_to(a));
    } else {
        lemma_two_to_adds(a, (b - 1) as nat);
        assert((a + b - 1) as nat == a + (b - 1) as nat);
        let t = two_to(a);
        let u = two_to((b - 1) as nat);
        assert(2 * (t * u) == t * (2 * u)) by (nonlinear_arith);
    }
}

pub proof fn lemma_two_to_monotone(a: nat, b: nat)
    requires
        a <= b,
    ensures
        two_to(a) <= two_to(b),
    decreases b,
{
    if a < b {
        lemma_two_to_monotone(a, (b - 1) as nat);
        lemma_two_to_positive((b - 1) as nat);
    }
}

/// `n` has as many digits as the powers of two around it say.
pub proof fn lemma_digits(n: int)
    requires
        n >= 1,
    ensures
        digits(n) >= 1,
        two_to((digits(n) - 1) as nat) <= n < two_to(digits(n)),
    decreases n,
{
    if n == 1 {
        assert(digits(0) == 0);
        assert(two_to(0) == 1);
        assert(two_to(1) == 2 * two_to(0));
    } else {
        lemma_digits(n / 2);
        assert(digits(n) == 1 + digits(n / 2));
        let k = digits(n / 2);
        assert(two_to(k) == 2 * two_to((k - 1) as nat));
        assert(two_to(k + 1) == 2 * two_to(k));
    }
}

pub proof fn lemma_digits_bounded(n: int, k: nat)
    requires
        0 <= n < two_to(k),
    ensures
        digits(n) <= k,
{
    if n >= 1 && digits(n) > k {
        lemma_digits(n);
        lemma_two_to_monotone(k, (digits(n) - 1) as nat);
    }
}

proof fn lemma_powers()
    ensures
        two_to(24) == 0x100_0000,
        two_to(27) == 0x800_0000,
        two_to(28) == 0x1000_0000,
        two_to(32) == 0x1_0000_0000,
        two_to(52) == 0x10_0000_0000_0000,
        two_to(53) == 0x20_0000_0000_0000,
        two_to(56) == 0x100_0000_0000_0000,
        two_to(63) == 0x8000_0000_0000_0000,
        two_to(64) == 0x1_0000_0000_0000_0000,
        two_to(127) == 0x8000_0000_0000_0000_0000_0000_0000_0000,
{
    reveal_with_fuel(two_to, 33);
    lemma_two_to_adds(24, 28);
    lemma_two_to_adds(25, 28);
    lemma_two_to_adds(28, 28);
    lemma_two_to_adds(32, 31);
    lemma_two_to_adds(32, 32);
    lemma_two_to_adds(64, 63);
    let (a, b) = (two_to(64), two_to(63));
    assert(a * b == 0x8000_0000_0000_0000_0000_0000_0000_0000) by (nonlinear_arith)
        requires
            a == 0x1_0000_0000_0000_0000,
            b == 0x8000_0000_0000_0000,
    ;
}

/// Two to the power of `k`.
fn power_of_two(k: u32) -> (r: u128)
    requires
        k < 128,
    ensures
        r == two_to(k as nat),
{
    proof {
        lemma_powers();
    }
    let mut r: u128 = 1;
    let mut i: u32 = 0;
    while i < k
        invariant
            i <= k < 128,
            r == two_to(i as nat),
            two_to(127) == 0x8000_0000_0000_0000_0000_0000_0000_0000,
        decreases k - i,
    {
        proof {
            lemma_two_to_monotone((i + 1) as nat, 127);
            assert(two_to((i + 1) as nat) == 2 * two_to(i as nat));
        }
        r = r * 2;
        i += 1;
    }
    r
}

/// The number of binary digits.
fn count_digits(n: u128) -> (r: u32)
    ensures
        r == digits(n as int),
        r <= 128,
{
    let mut rest: u128 = n;
    let mut r: u32 = 0;
    proof {
        lemma_powers();
        lemma_two_to_adds(127, 1);
        assert(two_to(1) == 2 * two_to(0));
        lemma_digits_bounded(n as int, 128);
    }
    while rest > 0
        invariant
            r + digits(rest as int) == digits(n as int),
            digits(n as int) <= 128,
        decreases rest,
    {
        rest = rest / 2;
        r += 1;
    }
    r
}

/// Rounds to `p` significant binary digits, ties to even.
fn round_to_digits(n: u128, p: u32) -> (r: u128)
    requires
        1 <= p <= 64,
        n < two_to(127),
    ensures
        r == to_precision(n as int, p as nat),
{
    let count: u32 = count_digits(n);
    if count <= p {
        return n;
    }
    proof {
        lemma_powers();
        lemma_digits(n as int);
        lemma_two_to_monotone((count - p) as nat, (count - 1) as nat);
        lemma_two_to_positive((count - p) as nat);
    }
    let step: u128 = power_of_two(count - p);
    let q: u128 = n / step;
    let rest: u128 = n % step;
    proof {
        let (ni, si, qi) = (n as int, step as int, q as int);
        assert(qi * si <= ni) by (nonlinear_arith)
            requires
                qi == ni / si,
                si > 0,
        ;
        assert((qi + 1) * si == qi * si + si) by (nonlinear_arith);
        assert(0 <= qi * si) by (nonlinear_arith)
            requires
                0 <= qi,
                0 < si,
        ;
        assert(q + 1 <= 2 * n) by (nonlinear_arith)
            requires
                q * step <= n,
                step >= 1,
                n >= 1,
        ;
    }
    if rest * 2 < step {
        q * step
    } else if rest * 2 > step {
        (q + 1) * step
    } else if q % 2 == 0 {
        q * step
    } else {
        (q + 1) * step
    }
}

/// A scale factor: the bits of an IEEE 754 single precision number.
#[derive(Clone, Copy, Debug, PartialEq, Eq, Structural)]
pub struct ScaleFactor {
    pub bits: u32,
}

impl ScaleFactor {
    pub open spec fn negative(self) -> bool {
        self.bits >= 0x8000_0000
    }

    /// The exponent field.
    pub open spec fn field(self) -> int {
        (self.bits as int % 0x8000_0000) / 0x80_0000
    }

    /// The fraction field.
    pub open spec fn fraction(self) -> int {
        self.bits as int % 0x80_0000
    }

    /// Neither infinite nor not-a-number.
    pub open spec fn finite(self) -> bool {
        self.field() < 255
    }

    /// The significand: the magnitude of a finite factor is
    /// `significand() * 2^exponent()`.
    pub open spec fn significand(self) -> int {
        if self.field() == 0 {
            self.fraction()
        } else {
            self.fraction() + 0x80_0000
        }
    }

    pub open spec fn exponent(self) -> int {
        most(self.field(), 1) - 150
    }
}

/// `n * 2^e` rounded to the nearest integer, halves up.
pub open spec fn rounded_shift(n: int, e: int) -> int {
    if e >= 0 {
        n * two_to(e as nat)
    } else {
        (n + two_to((-e - 1) as nat)) / two_to((-e) as nat)
    }
}

/// A coordinate times a scale factor: the product in double precision, rounded
/// to the nearest integer with halves away from zero, held to the coordinates.
pub open spec fn scaled(v: u32, scale: ScaleFactor) -> u32 {
    if scale.negative() {
        0u32
    } else if !scale.finite() {
        if scale.fraction() == 0 && v > 0 {
            u32::MAX
        } else {
            0u32
        }
    } else {
        least(
            rounded_shift(to_precision(v * scale.significand(), 53), scale.exponent()),
            coord_max(),
        ) as u32
    }
}

/// A coordinate times a scale factor.
pub fn scale_coord(v: u32, scale: ScaleFactor) -> (r: u32)
    ensures
        r == scaled(v, scale),
{
    proof {
        lemma_powers();
    }
    if scale.bits >= 0x8000_0000 {
        return 0;
    }
    let field: u32 = scale.bits / 0x80_0000;
    let fraction: u32 = scale.bits % 0x80_0000;
    if field >= 255 {
        return if fraction == 0 && v > 0 {
            0xffff_ffff
        } else {
            0
        };
    }
    let significand: u32 = if field == 0 {
        fraction
    } else {
        fraction + 0x80_0000
    };
    assert(v as int * significand as int <= 0xffff_ffff * 0xff_ffff) by (nonlinear_arith)
        requires
            0 <= v <= 0xffff_ffff,
            0 <= significand <= 0xff_ffff,
    ;
    assert(v as int * significand as int >= 0) by (nonlinear_arith)
        requires
            0 <= v,
            0 <= significand,
    ;
    let exact: u128 = v as u128 * significand as u128;
    let product: u128 = round_to_digits(exact, 53);
    proof {
        lemma_precision_bounded(exact as int, 53, 56);
    }
    let shift: i32 = (if field == 0 {
        1
    } else {
        field as i32
    }) - 150;
    let wide: u128 = if shift >= 0 {
        if product == 0 {
            proof {
                assert(0 * two_to(shift as nat) == 0);
            }
            0
        } else if shift >= 32 {
            proof {
                lemma_two_to_monotone(32, shift as nat);
                let t = two_to(shift as nat);
                assert(product as int * t >= t) by (nonlinear_arith)
                    requires
                        product >= 1,
                        t >= 1,
                ;
            }
            0xffff_ffff
        } else {
            let p: u128 = power_of_two(shift as u32);
            proof {
                lemma_two_to_monotone(shift as nat, 32);
                assert(product as int * p as int <= 0x100_0000_0000_0000 * 0x1_0000_0000)
                    by (nonlinear_arith)
                    requires
                        0 <= product <= 0x100_0000_0000_0000,
                        0 <= p <= 0x1_0000_0000,
                ;
            }
            product * p
        }
    } else {
        let down: u32 = (-shift) as u32;
        if down >= 64 {
            proof {
                let t = two_to(down as nat);
                let half = two_to((down - 1) as nat);
                lemma_two_to_monotone(63, (down - 1) as nat);
                assert(t == 2 * half);
                assert((product + half) / t == 0) by (nonlinear_arith)
                    requires
                        0 <= product < half,
                        t == 2 * half,
                ;
            }
            0
        } else {
            let half: u128 = power_of_two(down - 1);
            let p: u128 = power_of_two(down);
            proof {
                lemma_two_to_monotone((down - 1) as nat, 63);
                lemma_two_to_positive(down as nat);
            }
            (product + half) / p
        }
    };
    if wide > 0xffff_ffff {
        0xffff_ffff
    } else {
        wide as u32
    }
}

/// Rounding does not pass a power of two.
pub proof fn lemma_precision_bounded(n: int, p: nat, k: nat)
    requires
        0 <= n <= two_to(k),
        p >= 1,
    ensures
        0 <= to_precision(n, p) <= two_to(k),
{
    if digits(n) > p {
        lemma_digits(n);
        let e = (digits(n) - p) as nat;
        let step = two_to(e);
        lemma_two_to_positive(e);
        let m = nearest_even(n, step);
        if e > k {
            lemma_two_to_monotone(k, (digits(n) - 1) as nat);
            assert(digits(n) - 1 > k || p == 1);
            lemma_two_to_monotone((k + 1) as nat, e);
            lemma_two_to_monotone(e, (digits(n) - 1) as nat);
            assert(two_to((k + 1) as nat) == 2 * two_to(k));
            lemma_two_to_positive(k);
            assert(false);
        }
        let rest = two_to((k - e) as nat);
        lemma_two_to_adds(e, (k - e) as nat);
        let q = n / step;
        let r = n % step;
        assert(n == q * step + r && 0 <= r < step) by {
            vstd::arithmetic::div_mod::lemma_fundamental_div_mod(n, step);
            assert(q * step == step * q) by (nonlinear_arith);
        }
        assert(m * step <= step * rest) by (nonlinear_arith)
            requires
                n == q * step + r,
                0 <= r < step,
                n <= step * rest,
                m == q || (m == q + 1 && r > 0),
                step >= 1,
        ;
        assert(q >= 0) by (nonlinear_arith)
            requires
                n == q * step + r,
                0 <= r < step,
                n >= 0,
                step >= 1,
        ;
        assert(m * step >= 0) by (nonlinear_arith)
            requires
                m >= 0,
                step >= 1,
        ;
    }
}

// Comparing scale factors.

impl ScaleFactor {
    /// The value of a finite factor in units of `2^-149`, the finest that
    /// single precision knows.
    pub open spec fn units(self) -> int {
        let magnitude = self.significand() * two_to((self.exponent() + 149) as nat);
        if self.negative() {
            -magnitude
        } else {
            magnitude
        }
    }
}

/// The largest difference, in units of `2^-34`, that single precision rounds to
/// a number below `0.001`.
pub const SAME_SCALE_LIMIT: i64 = 17_179_869;

/// Whether the difference of two scale factors, taken in single precision, is
/// below `0.001`.
pub open spec fn same_scale(a: ScaleFactor, b: ScaleFactor) -> bool {
    &&& a.finite()
    &&& b.finite()
    &&& -(SAME_SCALE_LIMIT * two_to(115)) <= a.units() - b.units() <= SAME_SCALE_LIMIT * two_to(115)
}

/// `lo` and `hi` enclose `v / u` as closely as integers can.
spec fn encloses(lo: int, hi: int, v: int, u: int) -> bool {
    &&& lo * u <= v < (lo + 1) * u
    &&& (hi - 1) * u < v <= hi * u
}

proof fn lemma_enclosed_at_most(lo: int, hi: int, v: int, u: int, n: int)
    requires
        u > 0,
        encloses(lo, hi, v, u),
    ensures
        v <= n * u <==> hi <= n,
        v >= n * u <==> lo >= n,
{
    assert(v <= n * u ==> hi <= n) by (nonlinear_arith)
        requires
            u > 0,
            (hi - 1) * u < v,
    ;
    assert(hi <= n ==> v <= n * u) by (nonlinear_arith)
        requires
            u > 0,
            v <= hi * u,
    ;
    assert(v >= n * u ==> lo >= n) by (nonlinear_arith)
        requires
            u > 0,
            v < (lo + 1) * u,
    ;
    assert(lo >= n ==> v >= n * u) by (nonlinear_arith)
        requires
            u > 0,
            lo * u <= v,
    ;
}

/// The factor in units of `2^-34`, rounded down and up.
fn enclosure(s: ScaleFactor) -> (r: (i64, i64))
    requires
        s.field() < 142,
    ensures
        encloses(r.0 as int, r.1 as int, s.units(), two_to(115)),
        s.field() >= 116 ==> r.0 == r.1,
        -0x4_0000_0000_0000 <= r.0 <= r.1 <= 0x4_0000_0000_0000,
{
    proof {
        lemma_powers();
        lemma_two_to_positive(115);
    }
    let negative: bool = s.bits >= 0x8000_0000;
    let bits: u32 = s.bits % 0x8000_0000;
    let field: u32 = bits / 0x80_0000;
    let fraction: u32 = bits % 0x80_0000;
    let significand: u32 = if field == 0 {
        fraction
    } else {
        fraction + 0x80_0000
    };
    let place: u32 = if field == 0 {
        1
    } else {
        field
    };
    let ghost u = two_to(115);
    let ghost m = significand as int;
    let ghost mag = m * two_to((place - 1) as nat);
    assert(significand < 0x100_0000);
    assert(s.fraction() == fraction && s.field() == field && s.significand() == m);
    let (low, high): (i64, i64) = if place >= 116 {
        let p: u128 = power_of_two(place - 116);
        proof {
            lemma_two_to_monotone((place - 116) as nat, 25);
            assert(two_to(25) == 2 * two_to(24));
            lemma_two_to_adds((place - 116) as nat, 115);
            let t = p as int;
            assert(m * (t * u) == (m * t) * u) by (nonlinear_arith);
            assert(0 <= m * t <= 0x100_0000 * 0x200_0000) by (nonlinear_arith)
                requires
                    0 <= m < 0x100_0000,
                    0 <= t <= 0x200_0000,
            ;
            let k = m * t;
            assert((k + 1) * u == k * u + u && (k - 1) * u == k * u - u) by (nonlinear_arith);
        }
        let exact: i64 = (significand as u64 * p as u64) as i64;
        (exact, exact)
    } else {
        let down: u32 = 116 - place;
        let p: u128 = power_of_two(down);
        proof {
            lemma_two_to_positive(down as nat);
            lemma_two_to_adds(down as nat, (place - 1) as nat);
        }
        let floor: u128 = significand as u128 / p;
        let rest: u128 = significand as u128 % p;
        proof {
            let (d, t) = (p as int, two_to((place - 1) as nat));
            lemma_two_to_positive((place - 1) as nat);
            let q = floor as int;
            let r = rest as int;
            vstd::arithmetic::div_mod::lemma_fundamental_div_mod(m, d);
            assert(m == d * q + r && 0 <= r < d);
            assert(q <= m) by (nonlinear_arith)
                requires
                    m == d * q + r,
                    0 <= r,
                    d >= 1,
                    q >= 0,
            ;
            assert(u == d * t);
            assert(q * u <= m * t < (q + 1) * u) by (nonlinear_arith)
                requires
                    m == d * q + r,
                    0 <= r < d,
                    u == d * t,
                    t >= 1,
            ;
            if r == 0 {
                assert((q - 1) * u < m * t && m * t <= q * u) by (nonlinear_arith)
                    requires
                        m == d * q + r,
                        r == 0,
                        u == d * t,
                        u > 0,
                ;
            } else {
                assert(q * u < m * t) by (nonlinear_arith)
                    requires
                        m == d * q + r,
                        r > 0,
                        u == d * t,
                        t >= 1,
                ;
            }
        }
        if rest == 0 {
            (floor as i64, floor as i64)
        } else {
            (floor as i64, floor as i64 + 1)
        }
    };
    assert(encloses(low as int, high as int, mag, u));
    if negative {
        proof {
            let (l, h) = (low as int, high as int);
            assert((-h) * u <= -mag < (-h + 1) * u && (-l - 1) * u < -mag <= (-l) * u)
                by (nonlinear_arith)
                requires
                    l * u <= mag < (l + 1) * u,
                    (h - 1) * u < mag <= h * u,
            ;
        }
        (-high, -low)
    } else {
        (low, high)
    }
}

proof fn lemma_field_bits(s: ScaleFactor)
    ensures
        0 <= s.field() <= 255,
        0 <= s.fraction() < 0x80_0000,
        s.bits == (if s.negative() {
            0x8000_0000int
        } else {
            0
        }) + s.field() * 0x80_0000 + s.fraction(),
        s.exponent() + 149 == most(s.field(), 1) - 1,
        0 <= s.significand() < 0x100_0000,
        s.field() >= 1 ==> s.significand() >= 0x80_0000,
{
}

/// Factors of `2^15` and more are apart unless they are the same.
proof fn lemma_large_factors_apart(a: ScaleFactor, b: ScaleFactor)
    requires
        a.finite(),
        b.finite(),
        a.field() >= 142,
        a.field() >= b.field(),
        a.bits != b.bits,
    ensures
        !same_scale(a, b),
        !same_scale(b, a),
{
    lemma_powers();
    lemma_field_bits(a);
    lemma_field_bits(b);
    let (ma, mb) = (a.significand(), b.significand());
    let pa = (a.exponent() + 149) as nat;
    let pb = (b.exponent() + 149) as nat;
    let u = two_to(115);
    lemma_two_to_positive(115);
    lemma_two_to_positive(pb);
    // Everything is compared with `g`, the unit of the smallest such factor.
    let g = two_to(140);
    lemma_two_to_adds(115, 25);
    assert(two_to(25) == 2 * two_to(24));
    assert(g == u * 0x200_0000);
    assert(SAME_SCALE_LIMIT * u < g) by (nonlinear_arith)
        requires
            g == u * 0x200_0000,
            u >= 1,
            SAME_SCALE_LIMIT == 17_179_869,
    ;
    lemma_two_to_adds((pa - 140) as nat, 140);
    let ta = two_to((pa - 140) as nat);
    lemma_two_to_positive((pa - 140) as nat);
    assert(two_to(pa) == ta * g);
    let va = ma * two_to(pa);
    let vb = mb * two_to(pb);
    assert(va >= 0x80_0000 * (ta * g)) by (nonlinear_arith)
        requires
            va == ma * (ta * g),
            ma >= 0x80_0000,
            ta * g >= 0,
    ;
    assert(ta == 2 * two_to((pa - 141) as nat));
    assert(ta >= 2) by {
        lemma_two_to_positive((pa - 141) as nat);
    }
    assert(0 <= vb) by (nonlinear_arith)
        requires
            vb == mb * two_to(pb),
            0 <= mb,
            two_to(pb) >= 1,
    ;
    assert(va >= g) by (nonlinear_arith)
        requires
            va >= 0x80_0000 * (ta * g),
            ta >= 2,
            g >= 1,
    ;
    if a.negative() != b.negative() {
    } else if pb < 140 {
        lemma_two_to_monotone(pb, 139);
        assert(g == 2 * two_to(139));
        assert(vb <= 0x80_0000 * g) by (nonlinear_arith)
            requires
                vb == mb * two_to(pb),
                0 <= mb < 0x100_0000,
                two_to(pb) <= two_to(139),
                g == 2 * two_to(139),
                two_to(pb) >= 1,
        ;
        assert(va - vb >= g) by (nonlinear_arith)
            requires
                va >= 0x80_0000 * (ta * g),
                vb <= 0x80_0000 * g,
                ta >= 2,
                g >= 1,
        ;
    } else {
        lemma_two_to_adds((pb - 140) as nat, 140);
        let tb = two_to((pb - 140) as nat);
        lemma_two_to_positive((pb - 140) as nat);
        assert(two_to(pb) == tb * g);
        let (ka, kb) = (ma * ta, mb * tb);
        assert(ma * (ta * g) == ka * g && mb * (tb * g) == kb * g) by (nonlinear_arith)
            requires
                ka == ma * ta,
                kb == mb * tb,
        ;
        if a.field() == b.field() {
            assert(ma != mb);
            assert(ka != kb) by (nonlinear_arith)
                requires
                    ka == ma * ta,
                    kb == mb * ta,
                    ma != mb,
                    ta >= 1,
            ;
        } else {
            lemma_two_to_monotone((pb - 140 + 1) as nat, (pa - 140) as nat);
            assert(two_to((pb - 140 + 1) as nat) == 2 * tb);
            assert(ka > kb) by (nonlinear_arith)
                requires
                    ka == ma * ta,
                    kb == mb * tb,
                    ma >= 0x80_0000,
                    0 <= mb < 0x100_0000,
                    ta >= 2 * tb,
                    tb >= 1,
            ;
        }
        assert(ka > kb ==> ka * g - kb * g >= g) by (nonlinear_arith)
            requires
                g >= 1,
        ;
        assert(ka < kb ==> kb * g - ka * g >= g) by (nonlinear_arith)
            requires
                g >= 1,
        ;
    }
}

/// Whether the difference of two scale factors, taken in single precision, is
/// below `0.001`.
pub fn scale_factors_match(a: ScaleFactor, b: ScaleFactor) -> (r: bool)
    ensures
        r == same_scale(a, b),
{
    proof {
        lemma_powers();
        lemma_two_to_positive(115);
        lemma_field_bits(a);
        lemma_field_bits(b);
    }
    let field_a: u32 = a.bits % 0x8000_0000 / 0x80_0000;
    let field_b: u32 = b.bits % 0x8000_0000 / 0x80_0000;
    if field_a >= 255 || field_b >= 255 {
        return false;
    }
    if a.bits == b.bits {
        assert(SAME_SCALE_LIMIT * two_to(115) >= 0) by (nonlinear_arith)
            requires
                two_to(115) >= 1,
                SAME_SCALE_LIMIT == 17_179_869,
        ;
        return true;
    }
    if field_a >= 142 || field_b >= 142 {
        proof {
            if a.field() >= b.field() {
                lemma_large_factors_apart(a, b);
            } else {
                lemma_large_factors_apart(b, a);
            }
        }
        return false;
    }
    let (low_a, high_a) = enclosure(a);
    let (low_b, high_b) = enclosure(b);
    let ghost u = two_to(115);
    let ghost limit = SAME_SCALE_LIMIT as int;
    if field_a < 116 && field_b < 116 {
        proof {
            lemma_small_factors_close(a, b);
        }
        return true;
    }
    proof {
        let (la, ha) = (low_a as int, high_a as int);
        let (lb, hb) = (low_b as int, high_b as int);
        if field_a >= 116 {
            lemma_enclosed_at_most(lb, hb, b.units(), u, la + limit);
            lemma_enclosed_at_most(lb, hb, b.units(), u, la - limit);
            assert(la * u == a.units());
            assert((la + limit) * u == la * u + limit * u && (la - limit) * u == la * u - limit * u)
                by (nonlinear_arith);
        } else {
            lemma_enclosed_at_most(la, ha, a.units(), u, lb + limit);
            lemma_enclosed_at_most(la, ha, a.units(), u, lb - limit);
            assert(lb * u == b.units());
            assert((lb + limit) * u == lb * u + limit * u && (lb - limit) * u == lb * u - limit * u)
                by (nonlinear_arith);
        }
    }
    high_b - low_a <= SAME_SCALE_LIMIT && high_a - low_b <= SAME_SCALE_LIMIT
}

/// Factors below `2^-11` are close to each other.
proof fn lemma_small_factors_close(a: ScaleFactor, b: ScaleFactor)
    requires
        a.field() < 116,
        b.field() < 116,
    ensures
        same_scale(a, b),
{
    lemma_powers();
    lemma_field_bits(a);
    lemma_field_bits(b);
    let u = two_to(115);
    assert(u == 2 * two_to(114));
    let (pa, pb) = ((a.exponent() + 149) as nat, (b.exponent() + 149) as nat);
    lemma_two_to_monotone(pa, 114);
    lemma_two_to_monotone(pb, 114);
    lemma_two_to_positive(pa);
    lemma_two_to_positive(pb);
    lemma_small_magnitude(a.significand(), two_to(pa), u);
    lemma_small_magnitude(b.significand(), two_to(pb), u);
    assert(0x100_0000 * u <= SAME_SCALE_LIMIT * u) by (nonlinear_arith)
        requires
            u >= 1,
            SAME_SCALE_LIMIT == 17_179_869,
    ;
}

proof fn lemma_small_magnitude(m: int, t: int, u: int)
    requires
        0 <= m < 0x100_0000,
        1 <= t,
        2 * t <= u,
    ensures
        0 <= m * t,
        2 * (m * t) <= 0x100_0000 * u,
{
    assert(0 <= m * t && 2 * (m * t) <= 0x100_0000 * u) by (nonlinear_arith)
        requires
            0 <= m < 0x100_0000,
            1 <= t,
            2 * t <= u,
    ;
}

/// The border thickness of the box around a link: a twentieth of its height,
/// in single precision and rounded, at least one pixel. The factor is
/// `13421773 * 2^-28`, the single precision number nearest to `0.05`.
pub open spec fn link_stroke(height: u32) -> u32 {
    most(
        rounded_shift(to_precision(to_precision(height as int, 24) * 13_421_773, 24), -28),
        1,
    ) as u32
}

/// The border thickness of the box around a link of the given height.
pub fn link_stroke_thickness(height: u32) -> (r: u32)
    ensures
        r == link_stroke(height),
        r >= 1,
{
    proof {
        lemma_powers();
        lemma_precision_bounded(height as int, 24, 32);
    }
    let single: u128 = round_to_digits(height as u128, 24);
    let exact: u128 = single * 13_421_773;
    proof {
        lemma_precision_bounded(exact as int, 24, 56);
    }
    let product: u128 = round_to_digits(exact, 24);
    let thickness: u128 = (product + 0x800_0000) / 0x1000_0000;
    if thickness < 1 {
        1
    } else {
        thickness as u32
    }
}

// Shrinking an image to a number of pixels.

/// How often `n` has to be doubled to reach `d * 2^52`, so that the quotient
/// with `d` has all the digits of double precision.
pub open spec fn doublings(n: int, d: int) -> nat
    decreases most(d * two_to(52) - n, 0),
{
    if n <= 0 || n >= d * two_to(52) {
        0
    } else {
        1 + doublings(2 * n, d)
    }
}

/// `r` is nearer to the square root of `n` than any other integer.
pub open spec fn is_nearest_root(n: int, r: int) -> bool {
    &&& r >= 1
    &&& (2 * r - 1) * (2 * r - 1) < 4 * n
    &&& 4 * n < (2 * r + 1) * (2 * r + 1)
}

/// The integer nearest to the square root of `n`.
pub open spec fn nearest_root(n: int) -> int {
    choose|r: int| is_nearest_root(n, r)
}

/// The square root of `n / d` in double precision, as `r / 2^t`. Numbers,
/// quotient and root are each rounded to double precision.
pub open spec fn double_root_of_ratio(n: int, d: int) -> (int, nat) {
    let dn = to_precision(n, 53);
    let dd = to_precision(d, 53);
    let s = doublings(dn, dd);
    let m = nearest_even(dn * two_to(s), dd);
    let j: nat = if s % 2 == 0 {
        52
    } else {
        53
    };
    (nearest_root(m * two_to(j)), ((s + j) / 2) as nat)
}

/// A side times the square root of `max_pixels / pixels`, in double precision,
/// rounded down.
pub open spec fn floored_side(side: u32, max_pixels: int, pixels: int) -> int {
    let (r, t) = double_root_of_ratio(max_pixels, pixels);
    to_precision(side * r, 53) / two_to(t)
}

/// A side of an image of `pixels` pixels when the image is shrunk to
/// `max_pixels`: scaled by the square root of the ratio, at least one.
pub open spec fn shrunk_side(side: u32, max_pixels: int, pixels: int) -> u32 {
    most(least(floored_side(side, max_pixels, pixels), coord_max()), 1) as u32
}

pub proof fn lemma_nearest_root_unique(n: int, r: int)
    requires
        is_nearest_root(n, r),
    ensures
        nearest_root(n) == r,
{
    let q = nearest_root(n);
    assert(is_nearest_root(n, q));
    if q < r {
        assert((2 * q + 1) * (2 * q + 1) <= (2 * r - 1) * (2 * r - 1)) by (nonlinear_arith)
            requires
                1 <= q < r,
        ;
    } else if r < q {
        assert((2 * r + 1) * (2 * r + 1) <= (2 * q - 1) * (2 * q - 1)) by (nonlinear_arith)
            requires
                1 <= r < q,
        ;
    }
}

/// The integer nearest to a square root.
fn round_root(n: u128) -> (r: u128)
    requires
        1 <= n <= 0x400_0000_0000_0000_0000_0000_0000,
    ensures
        is_nearest_root(n as int, r as int),
        r == nearest_root(n as int),
        r <= 0x20_0000_0000_0000,
{
    // low * low <= n < high * high
    let mut low: u128 = 0;
    let mut high: u128 = 0x20_0000_0000_0001;
    while high - low > 1
        invariant
            low < high <= 0x20_0000_0000_0001,
            low * low <= n < high * high,
        decreases high - low,
    {
        let mid: u128 = low + (high - low) / 2;
        assert(mid * mid <= 0x20_0000_0000_0001 * 0x20_0000_0000_0001) by (nonlinear_arith)
            requires
                0 <= mid <= 0x20_0000_0000_0001,
        ;
        if mid * mid <= n {
            low = mid;
        } else {
            high = mid;
        }
    }
    let ghost a = low as int;
    let ghost ni = n as int;
    proof {
        assert(high == low + 1);
        assert(a >= 1) by (nonlinear_arith)
            requires
                ni >= 1,
                ni < (a + 1) * (a + 1),
                a >= 0,
        ;
        assert(low * low <= 0x20_0000_0000_0000 * 0x20_0000_0000_0000) by (nonlinear_arith)
            requires
                0 <= low <= 0x20_0000_0000_0000,
        ;
    }
    let r: u128 = if n - low * low > low {
        proof {
            assert((2 * (a + 1) - 1) * (2 * (a + 1) - 1) == 4 * (a * a) + 4 * a + 1)
                by (nonlinear_arith);
            assert((2 * (a + 1) + 1) * (2 * (a + 1) + 1) > 4 * ((a + 1) * (a + 1)))
                by (nonlinear_arith)
                requires
                    a >= 1,
            ;
            assert(a < 0x20_0000_0000_0000) by (nonlinear_arith)
                requires
                    ni - a * a > a,
                    ni <= 0x400_0000_0000_0000_0000_0000_0000,
                    a >= 1,
            ;
        }
        low + 1
    } else {
        proof {
            assert((2 * a + 1) * (2 * a + 1) == 4 * (a * a) + 4 * a + 1) by (nonlinear_arith);
            assert((2 * a - 1) * (2 * a - 1) < 4 * (a * a)) by (nonlinear_arith)
                requires
                    a >= 1,
            ;
        }
        low
    };
    proof {
        lemma_nearest_root_unique(n as int, r as int);
    }
    r
}

/// Rounding keeps a positive number positive.
proof fn lemma_precision_positive(n: int, p: nat)
    requires
        n >= 1,
        p >= 1,
    ensures
        to_precision(n, p) >= 1,
{
    if digits(n) > p {
        lemma_digits(n);
        let e = (digits(n) - p) as nat;
        let step = two_to(e);
        lemma_two_to_positive(e);
        lemma_two_to_monotone(e, (digits(n) - 1) as nat);
        let q = n / step;
        assert(q >= 1) by (nonlinear_arith)
            requires
                q == n / step,
                n >= step,
                step >= 1,
        ;
        assert(nearest_even(n, step) * step >= 1) by (nonlinear_arith)
            requires
                nearest_even(n, step) >= 1,
                step >= 1,
        ;
    }
}

/// The square root of `n / d` in double precision, as a numerator and the
/// binary logarithm of its denominator.
fn root_of_ratio(n: u64, d: u64) -> (res: (u128, u32))
    requires
        1 <= n <= d,
    ensures
        (res.0 as int, res.1 as nat) == double_root_of_ratio(n as int, d as int),
        1 <= res.0 <= 0x20_0000_0000_0000,
        res.1 <= 85,
{
    proof {
        lemma_powers();
        lemma_precision_bounded(n as int, 53, 64);
        lemma_precision_bounded(d as int, 53, 64);
        lemma_precision_positive(n as int, 53);
        lemma_precision_positive(d as int, 53);
        lemma_precision_monotone(n as int, d as int, 53);
    }
    let dn: u128 = round_to_digits(n as u128, 53);
    let dd: u128 = round_to_digits(d as u128, 53);
    let goal: u128 = dd * 0x10_0000_0000_0000;
    let mut top: u128 = dn;
    let mut s: u32 = 0;
    proof {
        lemma_two_to_adds(64, 53);
        assert(two_to(0) == 1);
        assert(dn as int * 1 == dn as int);
    }
    while top < goal
        invariant
            two_to(52) == 0x10_0000_0000_0000,
            two_to(53) == 0x20_0000_0000_0000,
            two_to(117) == two_to(64) * two_to(53),
            two_to(64) == 0x1_0000_0000_0000_0000,
            1 <= dn <= dd <= 0x1_0000_0000_0000_0000,
            goal == dd * 0x10_0000_0000_0000,
            top == dn * two_to(s as nat),
            top >= 1,
            top < 2 * goal,
            s + doublings(top as int, dd as int) == doublings(dn as int, dd as int),
            s <= 117,
        decreases most(goal - top, 0),
    {
        proof {
            assert(doublings(top as int, dd as int) == 1 + doublings(2 * top as int, dd as int));
            assert(two_to((s + 1) as nat) == 2 * two_to(s as nat));
            let t = two_to(s as nat);
            assert(dn * (2 * t) == 2 * (dn * t)) by (nonlinear_arith);
            if s >= 116 {
                lemma_two_to_monotone(116, s as nat);
                assert(two_to(117) == 2 * two_to(116));
                assert(dn * t >= t) by (nonlinear_arith)
                    requires
                        dn >= 1,
                        t >= 0,
                ;
                assert(false);
            }
        }
        top = top * 2;
        s += 1;
    }
    assert(doublings(top as int, dd as int) == 0);
    // Now goal <= top < 2 * goal.
    let q: u128 = top / dd;
    let rest: u128 = top % dd;
    let ghost m = nearest_even(top as int, dd as int);
    proof {
        let (ti, di, qi, ri) = (top as int, dd as int, q as int, rest as int);
        vstd::arithmetic::div_mod::lemma_fundamental_div_mod(ti, di);
        assert(ti == di * qi + ri && 0 <= ri < di);
        assert(qi >= 0x10_0000_0000_0000) by (nonlinear_arith)
            requires
                ti == di * qi + ri,
                0 <= ri < di,
                ti >= di * 0x10_0000_0000_0000,
        ;
        assert(qi < 0x20_0000_0000_0000) by (nonlinear_arith)
            requires
                ti == di * qi + ri,
                0 <= ri < di,
                ti < di * 0x20_0000_0000_0000,
        ;
    }
    let quotient: u128 = if rest * 2 < dd {
        q
    } else if rest * 2 > dd {
        q + 1
    } else if q % 2 == 0 {
        q
    } else {
        q + 1
    };
    assert(quotient == m);
    let widen: u32 = if s % 2 == 0 {
        52
    } else {
        53
    };
    let factor: u128 = power_of_two(widen);
    assert(quotient * factor <= 0x20_0000_0000_0000 * 0x20_0000_0000_0000) by (nonlinear_arith)
        requires
            0 <= quotient <= 0x20_0000_0000_0000,
            0 <= factor <= 0x20_0000_0000_0000,
    ;
    assert(quotient * factor >= 1) by (nonlinear_arith)
        requires
            quotient >= 1,
            factor >= 1,
    ;
    let root: u128 = round_root(quotient * factor);
    (root, (s + widen) / 2)
}

/// Rounding keeps the order.
pub proof fn lemma_precision_monotone(a: int, b: int, p: nat)
    requires
        1 <= a <= b,
        p >= 1,
    ensures
        to_precision(a, p) <= to_precision(b, p),
{
    lemma_digits(a);
    lemma_digits(b);
    if digits(a) == digits(b) {
        if digits(a) > p {
            let step = two_to((digits(a) - p) as nat);
            lemma_two_to_positive((digits(a) - p) as nat);
            lemma_nearest_even_monotone(a, b, step);
            assert(nearest_even(a, step) * step <= nearest_even(b, step) * step)
                by (nonlinear_arith)
                requires
                    nearest_even(a, step) <= nearest_even(b, step),
                    step >= 1,
            ;
        }
    } else {
        if digits(a) > digits(b) {
            lemma_two_to_monotone(digits(b), (digits(a) - 1) as nat);
        }
        let k = digits(a);
        lemma_precision_bounded(a, p, k);
        lemma_two_to_monotone(k, (digits(b) - 1) as nat);
        lemma_precision_at_least(b, p);
    }
}

proof fn lemma_nearest_even_monotone(a: int, b: int, d: int)
    requires
        0 <= a <= b,
        d >= 1,
    ensures
        nearest_even(a, d) <= nearest_even(b, d),
{
    let (qa, ra) = (a / d, a % d);
    let (qb, rb) = (b / d, b % d);
    vstd::arithmetic::div_mod::lemma_fundamental_div_mod(a, d);
    vstd::arithmetic::div_mod::lemma_fundamental_div_mod(b, d);
    assert(qa <= qb) by (nonlinear_arith)
        requires
            a == d * qa + ra,
            b == d * qb + rb,
            0 <= ra < d,
            0 <= rb < d,
            a <= b,
    ;
    if qa == qb {
        assert(ra <= rb);
    }
}

/// Rounding does not fall below the power of two that a number starts with.
proof fn lemma_precision_at_least(n: int, p: nat)
    requires
        n >= 1,
        p >= 1,
    ensures
        to_precision(n, p) >= two_to((digits(n) - 1) as nat),
{
    lemma_digits(n);
    if digits(n) > p {
        let e = (digits(n) - p) as nat;
        let step = two_to(e);
        lemma_two_to_positive(e);
        let rest = two_to((p - 1) as nat);
        lemma_two_to_adds(e, (p - 1) as nat);
        assert((digits(n) - 1) as nat == e + (p - 1) as nat);
        let q = n / step;
        assert(q >= rest) by (nonlinear_arith)
            requires
                q == n / step,
                n >= step * rest,
                step >= 1,
        ;
        assert(nearest_even(n, step) * step >= step * rest) by (nonlinear_arith)
            requires
                nearest_even(n, step) >= rest,
                step >= 1,
        ;
    }
}

/// The sides of an image that is shrunk to a number of pixels.
pub fn shrink_sides(width: u32, height: u32, max_pixels: u64, pixels: u64) -> (r: (u32, u32))
    requires
        1 <= max_pixels <= pixels,
    ensures
        r.0 == shrunk_side(width, max_pixels as int, pixels as int),
        r.1 == shrunk_side(height, max_pixels as int, pixels as int),
        r.0 >= 1,
        r.1 >= 1,
{
    let (root, t) = root_of_ratio(max_pixels, pixels);
    (shrink_side(width, root, t), shrink_side(height, root, t))
}

fn shrink_side(side: u32, root: u128, t: u32) -> (r: u32)
    requires
        1 <= root <= 0x20_0000_0000_0000,
        t <= 85,
    ensures
        r as int == most(
            least(to_precision(side * root, 53) / two_to(t as nat), coord_max()),
            1,
        ),
{
    proof {
        lemma_powers();
        assert(0 <= side as int * root as int <= 0xffff_ffff * 0x20_0000_0000_0000)
            by (nonlinear_arith)
            requires
                0 <= side <= 0xffff_ffff,
                0 <= root <= 0x20_0000_0000_0000,
        ;
        lemma_two_to_positive(t as nat);
        lemma_two_to_adds(32, 53);
        lemma_precision_bounded(side as int * root as int, 53, 85);
    }
    let product: u128 = round_to_digits(side as u128 * root, 53);
    let p: u128 = power_of_two(t);
    let floor: u128 = product / p;
    if floor < 1 {
        1
    } else if floor > 0xffff_ffff {
        0xffff_ffff
    } else {
        floor as u32
    }
}

// A shrunk image keeps to its number of pixels.

/// Rounding to double precision is off by at most one part in `2^53`.
proof fn lemma_precision_error(n: int)
    requires
        n >= 1,
    ensures
        to_precision(n, 53) * 0x20_0000_0000_0000 <= n * 0x20_0000_0000_0001,
        to_precision(n, 53) * 0x20_0000_0000_0000 >= n * 0x1f_ffff_ffff_ffff,
{
    if digits(n) > 53 {
        lemma_digits(n);
        let e = (digits(n) - 53) as nat;
        let step = two_to(e);
        lemma_two_to_positive(e);
        lemma_two_to_adds(e, 52);
        lemma_powers();
        assert((digits(n) - 1) as nat == e + 52);
        let m = nearest_even(n, step);
        let (q, rest) = (n / step, n % step);
        vstd::arithmetic::div_mod::lemma_fundamental_div_mod(n, step);
        assert(q * step == step * q) by (nonlinear_arith);
        let p = m * step;
        assert(2 * (p - n) <= step && 2 * (n - p) <= step) by {
            if m == q + 1 {
                assert(m * step == q * step + step) by (nonlinear_arith)
                    requires
                        m == q + 1,
                ;
            }
        }
    }
}

/// A rounded root exceeds the root by at most one part in `2^53`.
proof fn lemma_root_error(n: int, r: int)
    requires
        is_nearest_root(n, r),
        n >= 0x10_0000_0000_0000 * 0x10_0000_0000_0000,
    ensures
        (r * r) * (0x20_0000_0000_0000 * 0x20_0000_0000_0000) <= n * (0x20_0000_0000_0001
            * 0x20_0000_0000_0001),
{
    let h: int = 0x10_0000_0000_0000;
    assert(r >= h) by (nonlinear_arith)
        requires
            4 * n < (2 * r + 1) * (2 * r + 1),
            n >= h * h,
            r >= 1,
            h == 0x10_0000_0000_0000,
    ;
    let e: int = 0x20_0000_0000_0000;
    let f: int = 0x20_0000_0000_0001;
    if r == h {
        assert(r * r <= n);
        assert((r * r) * (e * e) <= n * (f * f)) by (nonlinear_arith)
            requires
                0 <= r * r <= n,
                e == 0x20_0000_0000_0000,
                f == e + 1,
        ;
    } else {
        let a = (2 * r - 1) * f;
        let b = 2 * r * e;
        assert(a >= b) by (nonlinear_arith)
            requires
                a == (2 * r - 1) * f,
                b == 2 * r * e,
                f == e + 1,
                2 * r >= e + 1,
        ;
        assert(a * a >= b * b) by (nonlinear_arith)
            requires
                a >= b,
                b >= 0,
        ;
        assert(a * a == ((2 * r - 1) * (2 * r - 1)) * (f * f)) by (nonlinear_arith)
            requires
                a == (2 * r - 1) * f,
        ;
        assert(b * b == 4 * ((r * r) * (e * e))) by (nonlinear_arith)
            requires
                b == 2 * r * e,
        ;
        assert(((2 * r - 1) * (2 * r - 1)) * (f * f) <= (4 * n) * (f * f)) by (nonlinear_arith)
            requires
                (2 * r - 1) * (2 * r - 1) < 4 * n,
                f >= 0,
        ;
        assert((4 * n) * (f * f) == 4 * (n * (f * f))) by (nonlinear_arith);
    }
}

proof fn lemma_floor_root(n: int) -> (a: int)
    requires
        n >= 1,
    ensures
        a >= 1,
        a * a <= n < (a + 1) * (a + 1),
    decreases n,
{
    if n == 1 {
        1
    } else {
        let b = lemma_floor_root(n - 1);
        if n < (b + 1) * (b + 1) {
            b
        } else {
            let c = b + 1;
            assert(n < (c + 1) * (c + 1)) by (nonlinear_arith)
                requires
                    n - 1 < c * c,
                    c >= 1,
            ;
            c
        }
    }
}

/// Every number has a nearest root.
proof fn lemma_nearest_root(n: int)
    requires
        n >= 1,
    ensures
        is_nearest_root(n, nearest_root(n)),
{
    let a = lemma_floor_root(n);
    if n - a * a > a {
        let c = a + 1;
        assert((2 * c - 1) * (2 * c - 1) == 4 * (a * a) + 4 * a + 1) by (nonlinear_arith)
            requires
                c == a + 1,
        ;
        assert((2 * c + 1) * (2 * c + 1) > 4 * (c * c)) by (nonlinear_arith)
            requires
                c >= 1,
        ;
        assert(is_nearest_root(n, c));
    } else {
        assert((2 * a + 1) * (2 * a + 1) == 4 * (a * a) + 4 * a + 1) by (nonlinear_arith);
        assert((2 * a - 1) * (2 * a - 1) < 4 * (a * a)) by (nonlinear_arith)
            requires
                a >= 1,
        ;
        assert(is_nearest_root(n, a));
    }
}

proof fn lemma_doublings(n: int, d: int)
    requires
        n >= 1,
        d >= 1,
    ensures
        n * two_to(doublings(n, d)) >= d * two_to(52),
    decreases most(d * two_to(52) - n, 0),
{
    let s = doublings(n, d);
    if n < d * two_to(52) {
        lemma_doublings(2 * n, d);
        let t = two_to(doublings(2 * n, d));
        assert(two_to(s) == 2 * t);
        assert(n * (2 * t) == 2 * n * t) by (nonlinear_arith);
    } else {
        assert(s == 0);
        assert(two_to(0) == 1);
        assert(n * 1 == n);
    }
}

/// What the rounded square root `r / 2^t` of `n / d` is bounded by.
proof fn lemma_root_of_ratio_bound(n: int, d: int) -> (m: int)
    requires
        1 <= n <= 0x4_0000_0000_0000,
        n <= d,
    ensures
        ({
            let (r, t) = double_root_of_ratio(n, d);
            let dd = to_precision(d, 53);
            let s = doublings(n, dd);
            let j: nat = if s % 2 == 0 {
                52
            } else {
                53
            };
            &&& r >= 1
            &&& dd >= 1
            &&& two_to(t) * two_to(t) == two_to(s) * two_to(j)
            &&& (r * r) * (0x20_0000_0000_0000 * 0x20_0000_0000_0000) <= (m * two_to(j)) * (
            0x20_0000_0000_0001 * 0x20_0000_0000_0001)
            &&& (m * dd) * 0x20_0000_0000_0000 <= (n * two_to(s)) * 0x20_0000_0000_0001
            &&& m >= 0
        }),
{
    let (r, t) = double_root_of_ratio(n, d);
    let dd = to_precision(d, 53);
    lemma_powers();
    lemma_digits_bounded(n, 53);
    assert(to_precision(n, 53) == n);
    lemma_precision_positive(d, 53);
    let s = doublings(n, dd);
    lemma_doublings(n, dd);
    let j: nat = if s % 2 == 0 {
        52
    } else {
        53
    };
    lemma_two_to_adds(t, t);
    lemma_two_to_adds(s, j);
    assert(t + t == s + j);
    let top = n * two_to(s);
    let m = nearest_even(top, dd);
    let (q, rest) = (top / dd, top % dd);
    vstd::arithmetic::div_mod::lemma_fundamental_div_mod(top, dd);
    assert(q >= 0x10_0000_0000_0000) by (nonlinear_arith)
        requires
            top == dd * q + rest,
            0 <= rest < dd,
            top >= dd * 0x10_0000_0000_0000,
    ;
    assert(2 * (m * dd) <= 2 * top + dd) by (nonlinear_arith)
        requires
            top == dd * q + rest,
            0 <= rest < dd,
            m == q || (m == q + 1 && 2 * rest >= dd),
    ;
    let jj = two_to(j);
    assert(m * jj >= 0x10_0000_0000_0000 * 0x10_0000_0000_0000) by (nonlinear_arith)
        requires
            m >= 0x10_0000_0000_0000,
            jj >= 0x10_0000_0000_0000,
    ;
    lemma_nearest_root(m * jj);
    lemma_root_error(m * jj, r);
    m
}

proof fn lemma_le_product(a: int, b: int, c: int)
    requires
        a <= b,
        c >= 0,
    ensures
        a * c <= b * c,
        c * a <= c * b,
{
    assert(a * c <= b * c && c * a <= c * b) by (nonlinear_arith)
        requires
            a <= b,
            c >= 0,
    ;
}

/// From a bound on a side that was scaled by `r / 2^t`.
proof fn lemma_floored_side_bound(side: u32, r: int, t: nat) -> (p: int)
    requires
        r >= 1,
    ensures
        p == to_precision(side * r, 53) / two_to(t),
        p >= 0,
        (p * two_to(t)) * 0x20_0000_0000_0000 <= (side * r) * 0x20_0000_0000_0001,
{
    let x = side * r;
    let p = to_precision(x, 53) / two_to(t);
    let tt = two_to(t);
    lemma_two_to_positive(t);
    assert(x >= 0) by (nonlinear_arith)
        requires
            x == side * r,
            r >= 1,
    ;
    if x >= 1 {
        lemma_precision_error(x);
        lemma_precision_positive(x, 53);
    } else {
        assert(digits(0) == 0);
        assert(to_precision(x, 53) == 0);
    }
    vstd::arithmetic::div_mod::lemma_fundamental_div_mod(to_precision(x, 53), tt);
    assert(p * tt == tt * p) by (nonlinear_arith);
    assert(p >= 0) by (nonlinear_arith)
        requires
            p == to_precision(x, 53) / tt,
            to_precision(x, 53) >= 0,
            tt >= 1,
    ;
    p
}

proof fn lemma_factors(a: int, b: int, c: int, d: int)
    ensures
        (a * b) * (c * d) == (a * c) * (b * d),
        (a * b) * c == (a * c) * b,
        (a * b) * c == a * (b * c),
{
    assert((a * b) * (c * d) == (a * c) * (b * d)) by (nonlinear_arith);
    assert((a * b) * c == (a * c) * b) by (nonlinear_arith);
    assert((a * b) * c == a * (b * c)) by (nonlinear_arith);
}

proof fn lemma_cancel(a: int, b: int, c: int)
    requires
        a * c <= b * c,
        c >= 1,
    ensures
        a <= b,
{
    assert(a <= b) by (nonlinear_arith)
        requires
            a * c <= b * c,
            c >= 1,
    ;
}

proof fn lemma_products_ordered(a: int, b: int, c: int, d: int)
    requires
        0 <= a <= b,
        0 <= c <= d,
    ensures
        0 <= a * c <= b * d,
{
    assert(0 <= a * c <= b * d) by (nonlinear_arith)
        requires
            0 <= a <= b,
            0 <= c <= d,
    ;
}

/// The roundings of a shrunk image's sides add up to less than a pixel.
proof fn lemma_combined_bound(
    p: int,
    q: int,
    t: int,
    s: int,
    j: int,
    w: int,
    h: int,
    r: int,
    m: int,
    n: int,
    dd: int,
)
    requires
        p >= 0,
        q >= 0,
        t >= 1,
        s >= 1,
        j >= 1,
        w >= 0,
        h >= 0,
        w * h >= 1,
        r >= 1,
        m >= 0,
        1 <= n <= 0x4_0000_0000_0000,
        dd >= 1,
        (p * t) * 0x20_0000_0000_0000 <= (w * r) * 0x20_0000_0000_0001,
        (q * t) * 0x20_0000_0000_0000 <= (h * r) * 0x20_0000_0000_0001,
        t * t == s * j,
        (r * r) * (0x20_0000_0000_0000 * 0x20_0000_0000_0000) <= (m * j) * (0x20_0000_0000_0001
            * 0x20_0000_0000_0001),
        (m * dd) * 0x20_0000_0000_0000 <= (n * s) * 0x20_0000_0000_0001,
        dd * 0x20_0000_0000_0000 >= (w * h) * 0x1f_ffff_ffff_ffff,
    ensures
        p * q <= n,
{
    let e: int = 0x20_0000_0000_0000;
    let f: int = 0x20_0000_0000_0001;
    let g: int = 0x1f_ffff_ffff_ffff;
    let (ee, ff) = (e * e, f * f);
    let (pq, d, rr) = (p * q, w * h, r * r);
    lemma_le_product(0, p, q);
    lemma_le_product(0, p, t);
    lemma_le_product(0, q, t);
    // Both sides at once.
    assert((pq * (s * j)) * ee <= (d * rr) * ff) by {
        lemma_le_product(0, p * t, e);
        lemma_le_product(0, q * t, e);
        lemma_products_ordered((p * t) * e, (w * r) * f, (q * t) * e, (h * r) * f);
        lemma_factors(p * t, e, q * t, e);
        lemma_factors(p, t, q, t);
        lemma_factors(w * r, f, h * r, f);
        lemma_factors(w, r, h, r);
    }
    // The root.
    let x = (pq * s) * (ee * ee);
    let y = (d * m) * (ff * ff);
    assert(x <= y) by {
        lemma_le_product((pq * (s * j)) * ee, (d * rr) * ff, ee);
        lemma_le_product(rr * ee, (m * j) * ff, d);
        lemma_le_product(d * (rr * ee), d * ((m * j) * ff), ff);
        lemma_factors(pq * (s * j), ee, ee, 1);
        lemma_factors(d * rr, ff, ee, 1);
        lemma_factors(d, rr, ee, 1);
        lemma_factors(d, m * j, ff, 1);
        lemma_factors(d * (m * j), ff, ff, 1);
        lemma_factors(d, m, j, 1);
        lemma_factors(d * m, j, ff * ff, 1);
        lemma_factors(pq, s, j, 1);
        lemma_factors(pq * s, j, ee * ee, 1);
        lemma_cancel(x, y, j);
    }
    // The quotient.
    let u = pq * (ee * ee);
    let v = (d * n) * (f * (ff * ff));
    assert(u * (dd * e) <= v) by {
        lemma_le_product(0, dd, e);
        lemma_le_product(x, y, dd * e);
        lemma_factors(d * m, ff * ff, dd * e, 1);
        lemma_factors(d, m, dd * e, 1);
        lemma_factors(m, dd, e, 1);
        lemma_le_product((m * dd) * e, (n * s) * f, d);
        lemma_le_product(d * ((m * dd) * e), d * ((n * s) * f), ff * ff);
        lemma_factors(d, n * s, f, 1);
        lemma_factors(d, n, s, 1);
        lemma_factors(d * n, s, f, 1);
        lemma_factors((d * n) * f, s, ff * ff, 1);
        lemma_factors(d * n, f, ff * ff, 1);
        lemma_factors(pq, s, ee * ee, 1);
        lemma_factors(u, s, dd * e, 1);
        lemma_cancel(u * (dd * e), v, s);
    }
    // The denominator.
    assert(u * g <= n * (f * (ff * ff))) by {
        lemma_le_product(0, pq, ee * ee);
        lemma_le_product(d * g, dd * e, u);
        lemma_factors(u, d, g, 1);
        lemma_factors(d, n, f * (ff * ff), 1);
        lemma_factors(n, d, f * (ff * ff), 1);
        assert(u * (d * g) == (u * g) * d) by (nonlinear_arith);
        assert(v == (n * (f * (ff * ff))) * d) by (nonlinear_arith)
            requires
                v == (d * n) * (f * (ff * ff)),
        ;
        lemma_cancel(u * g, n * (f * (ff * ff)), d);
    }
    let k: int = ee * ee * g;
    assert(k == 59285549689505885474850115039624040200997501919405948857258820477732068981211136int);
    assert(f * (ff * ff) == 59285549689505924966959490748576359428444537811220383251229243960740955335688193int);
    if pq >= n + 1 {
        assert(u * g == pq * k) by (nonlinear_arith)
            requires
                u == pq * (ee * ee),
                k == ee * ee * g,
        ;
        lemma_le_product(n + 1, pq, k);
        assert((n + 1) * k > n * (f * (ff * ff)));
    }
}

/// An image that is shrunk to a number of pixels has no more than those.
pub proof fn law_shrunk_sides_keep_to_the_budget(width: u32, height: u32, max_pixels: int)
    requires
        1 <= max_pixels <= 0x4_0000_0000_0000,
        max_pixels <= width * height,
    ensures
        floored_side(width, max_pixels, width * height) * floored_side(
            height,
            max_pixels,
            width * height,
        ) <= max_pixels,
{
    let n = max_pixels;
    let d = width * height;
    let e: int = 0x20_0000_0000_0000;
    let f: int = 0x20_0000_0000_0001;
    let g: int = 0x1f_ffff_ffff_ffff;
    let m = lemma_root_of_ratio_bound(n, d);
    let (r, t) = double_root_of_ratio(n, d);
    let dd = to_precision(d, 53);
    lemma_precision_error(d);
    let s = doublings(n, dd);
    let j: nat = if s % 2 == 0 {
        52
    } else {
        53
    };
    let p = lemma_floored_side_bound(width, r, t);
    let q = lemma_floored_side_bound(height, r, t);
    lemma_two_to_positive(t);
    lemma_two_to_positive(s);
    lemma_two_to_positive(j);
    lemma_combined_bound(
        p,
        q,
        two_to(t),
        two_to(s),
        two_to(j),
        width as int,
        height as int,
        r,
        m,
        n,
        dd,
    );
}

/// Shrinking makes no side longer.
pub proof fn law_shrunk_side_is_no_longer(side: u32, max_pixels: int, pixels: int)
    requires
        1 <= max_pixels <= pixels,
    ensures
        0 <= floored_side(side, max_pixels, pixels) <= side,
{
    let (r, t) = double_root_of_ratio(max_pixels, pixels);
    let dn = to_precision(max_pixels, 53);
    let dd = to_precision(pixels, 53);
    lemma_precision_positive(max_pixels, 53);
    lemma_precision_monotone(max_pixels, pixels, 53);
    let s = doublings(dn, dd);
    let j: nat = if s % 2 == 0 {
        52
    } else {
        53
    };
    let (ss, jj, tt) = (two_to(s), two_to(j), two_to(t));
    lemma_two_to_positive(s);
    lemma_two_to_positive(j);
    lemma_two_to_positive(t);
    lemma_two_to_adds(t, t);
    lemma_two_to_adds(s, j);
    assert(t + t == s + j);
    let m = nearest_even(dn * ss, dd);
    lemma_doublings(dn, dd);
    lemma_powers();
    assert(1 <= m <= ss) by {
        lemma_le_product(dn, dd, ss);
        lemma_le_product(0, dn, ss);
        lemma_nearest_even_monotone(dn * ss, dd * ss, dd);
        assert((dd * ss) / dd == ss && (dd * ss) % dd == 0) by (nonlinear_arith)
            requires
                dd >= 1,
                ss >= 1,
        ;
        lemma_nearest_even_monotone(dd, dn * ss, dd);
        assert(dd / dd == 1 && dd % dd == 0) by (nonlinear_arith)
            requires
                dd >= 1,
        ;
    }
    lemma_le_product(m, ss, jj);
    lemma_le_product(1, m, jj);
    lemma_nearest_root(m * jj);
    assert(r <= tt) by (nonlinear_arith)
        requires
            (2 * r - 1) * (2 * r - 1) < 4 * (m * jj),
            m * jj <= tt * tt,
            r >= 1,
            tt >= 1,
    ;
    let p = lemma_floored_side_bound(side, r, t);
    let whole = side * tt;
    lemma_le_product(r, tt, side as int);
    assert(to_precision(whole, 53) == whole) by {
        lemma_precision_shifted(side as int, t);
    }
    if side as int * r >= 1 {
        lemma_precision_monotone(side as int * r, whole, 53);
    } else {
        assert(side as int * r == 0) by (nonlinear_arith)
            requires
                side as int * r < 1,
                side >= 0,
                r >= 1,
        ;
        assert(digits(0) == 0);
        lemma_le_product(0, side as int, tt);
    }
    assert(to_precision(side * r, 53) / tt <= side) by (nonlinear_arith)
        requires
            to_precision(side * r, 53) <= side * tt,
            tt >= 1,
    ;
}

proof fn lemma_digits_shifted(n: int, t: nat)
    requires
        n >= 1,
    ensures
        digits(n * two_to(t)) == digits(n) + t,
        n * two_to(t) >= 1,
    decreases t,
{
    if t == 0 {
        assert(two_to(0) == 1);
        assert(n * 1 == n);
    } else {
        let u = two_to((t - 1) as nat);
        lemma_digits_shifted(n, (t - 1) as nat);
        assert(n * (2 * u) == 2 * (n * u)) by (nonlinear_arith);
        assert((2 * (n * u)) / 2 == n * u);
    }
}

/// A short number times a power of two needs no rounding.
proof fn lemma_precision_shifted(n: int, t: nat)
    requires
        0 <= n <= 0xffff_ffff,
    ensures
        to_precision(n * two_to(t), 53) == n * two_to(t),
{
    if n == 0 {
        assert(0 * two_to(t) == 0);
        assert(digits(0) == 0);
    } else {
        lemma_digits_shifted(n, t);
        lemma_powers();
        lemma_digits_bounded(n, 32);
        let x = n * two_to(t);
        if digits(x) > 53 {
            let e = (digits(x) - 53) as nat;
            let rest = (t - e) as nat;
            lemma_two_to_adds(e, rest);
            lemma_two_to_positive(e);
            let (step, u) = (two_to(e), two_to(rest));
            assert(x == (n * u) * step) by (nonlinear_arith)
                requires
                    x == n * (step * u),
            ;
            let q = n * u;
            assert((q * step) / step == q && (q * step) % step == 0) by (nonlinear_arith)
                requires
                    step >= 1,
            ;
        }
    }
}

// What the roundings amount to.

/// Rounding to single precision is off by at most one part in `2^24`.
proof fn lemma_single_error(n: int)
    requires
        n >= 0,
    ensures
        to_precision(n, 24) * 0x100_0000 <= n * 0x100_0001,
        to_precision(n, 24) * 0x100_0000 >= n * 0xff_ffff,
{
    if digits(n) > 24 {
        lemma_digits(n);
        let e = (digits(n) - 24) as nat;
        let step = two_to(e);
        lemma_two_to_positive(e);
        lemma_two_to_adds(e, 23);
        lemma_powers();
        assert(two_to(23) == 0x80_0000) by {
            reveal_with_fuel(two_to, 24);
        }
        assert((digits(n) - 1) as nat == e + 23);
        let m = nearest_even(n, step);
        let (q, rest) = (n / step, n % step);
        vstd::arithmetic::div_mod::lemma_fundamental_div_mod(n, step);
        assert(q * step == step * q) by (nonlinear_arith);
        let p = m * step;
        assert(2 * (p - n) <= step && 2 * (n - p) <= step) by {
            if m == q + 1 {
                assert(m * step == q * step + step) by (nonlinear_arith)
                    requires
                        m == q + 1,
                ;
            }
        }
    }
}

/// The outline of a link is a twentieth of the box's height thick, rounded to
/// whole pixels, but one pixel at least. Single precision adds an error of one
/// part in four million at most.
pub proof fn law_outline_is_a_twentieth(height: u32)
    ensures
        link_stroke(height) >= 1,
        height < 10 ==> link_stroke(height) == 1,
        height >= 10 ==> (20 * link_stroke(height) - height) * 0x40_0000 <= height + 10 * 0x40_0000,
        height >= 10 ==> (height - 20 * link_stroke(height)) * 0x40_0000 <= height + 10 * 0x40_0000,
{
    let h = height as int;
    let single = to_precision(h, 24);
    lemma_single_error(h);
    let exact = single * 13_421_773;
    lemma_single_error(exact);
    let product = to_precision(exact, 24);
    assert(two_to(27) == 0x800_0000 && two_to(28) == 0x1000_0000) by {
        reveal_with_fuel(two_to, 29);
    }
    let v = rounded_shift(product, -28);
    assert(v == (product + 0x800_0000) / 0x1000_0000);
}

proof fn lemma_scaled_finite(v: u32, scale: ScaleFactor)
    requires
        !scale.negative(),
        scale.finite(),
    ensures
        0 <= v * scale.significand(),
        scale.significand() < 0x100_0000,
{
    assert(0 <= v * scale.significand()) by (nonlinear_arith)
        requires
            0 <= v,
            0 <= scale.significand(),
    ;
}

proof fn lemma_shift_monotone(a: int, b: int, e: int)
    requires
        0 <= a <= b,
    ensures
        0 <= rounded_shift(a, e) <= rounded_shift(b, e),
{
    if e >= 0 {
        lemma_two_to_positive(e as nat);
        lemma_le_product(a, b, two_to(e as nat));
        lemma_le_product(0, a, two_to(e as nat));
    } else {
        let (half, whole) = (two_to((-e - 1) as nat), two_to((-e) as nat));
        lemma_two_to_positive((-e - 1) as nat);
        lemma_two_to_positive((-e) as nat);
        assert(0 <= (a + half) / whole <= (b + half) / whole) by (nonlinear_arith)
            requires
                0 <= a <= b,
                half >= 1,
                whole >= 1,
        ;
    }
}

/// Scaling keeps the order of coordinates, and the origin.
pub proof fn law_scaling_keeps_the_order(a: u32, b: u32, scale: ScaleFactor)
    requires
        a <= b,
    ensures
        scaled(a, scale) <= scaled(b, scale),
        scaled(0, scale) == 0,
{
    if !scale.negative() && scale.finite() {
        let m = scale.significand();
        let e = scale.exponent();
        lemma_scaled_finite(a, scale);
        lemma_le_product(a as int, b as int, m);
        assert(0 * m == 0);
        assert(digits(0) == 0);
        let (x, y) = (a * m, b * m);
        assert(0 <= to_precision(x, 53) <= to_precision(y, 53)) by {
            if x >= 1 {
                lemma_precision_positive(x, 53);
                lemma_precision_monotone(x, y, 53);
            } else if y >= 1 {
                lemma_precision_positive(y, 53);
            }
        }
        lemma_shift_monotone(to_precision(x, 53), to_precision(y, 53), e);
        lemma_shift_monotone(0, to_precision(x, 53), e);
        assert(rounded_shift(0, e) == 0) by {
            if e >= 0 {
                assert(0 * two_to(e as nat) == 0);
            } else {
                let (half, whole) = (two_to((-e - 1) as nat), two_to((-e) as nat));
                lemma_two_to_positive((-e - 1) as nat);
                assert(whole == 2 * half);
                assert(half / whole == 0) by (nonlinear_arith)
                    requires
                        whole == 2 * half,
                        half >= 1,
                ;
            }
        }
    }
}

/// A scaled coordinate is the nearest pixel to the coordinate times the scale,
/// up to the precision of doubles: for a scale below `2^24` it is off by half a
/// pixel at most and one part in `2^53` of the product. It falls short of that
/// only at the largest coordinate. The scale is read off its bits.
pub proof fn law_scaling_multiplies(v: u32, scale: ScaleFactor)
    requires
        0x80_0000 <= scale.bits < 150 * 0x80_0000,
    ensures
        ({
            let m = scale.bits as int % 0x80_0000 + 0x80_0000;
            let whole = two_to((150 - scale.bits as int / 0x80_0000) as nat);
            let e: int = 0x20_0000_0000_0000;
            &&& 2 * (scaled(v, scale) * whole) * e <= 2 * (v * m) * (e + 1) + whole * e
            &&& scaled(v, scale) < u32::MAX ==> 2 * (scaled(v, scale) * whole) * e >= 2 * (v * m) * (
            e - 1) - whole * e
        }),
{
    let m = scale.significand();
    let k = scale.bits as int / 0x80_0000;
    assert(scale.field() == k && scale.fraction() == scale.bits as int % 0x80_0000);
    let n = (150 - k) as nat;
    assert(scale.exponent() == -(n as int));
    let (half, whole) = (two_to((n - 1) as nat), two_to(n));
    lemma_two_to_positive((n - 1) as nat);
    assert(whole == 2 * half);
    lemma_scaled_finite(v, scale);
    let x = v * m;
    let y = to_precision(x, 53);
    let e: int = 0x20_0000_0000_0000;
    assert(y * e <= x * (e + 1) && y * e >= x * (e - 1) && y >= 0) by {
        if x >= 1 {
            lemma_precision_error(x);
            lemma_precision_positive(x, 53);
        } else {
            assert(digits(0) == 0);
        }
    }
    let r = (y + half) / whole;
    vstd::arithmetic::div_mod::lemma_fundamental_div_mod(y + half, whole);
    let rest = (y + half) % whole;
    assert(r >= 0) by (nonlinear_arith)
        requires
            r == (y + half) / whole,
            y >= 0,
            half >= 1,
            whole == 2 * half,
    ;
    assert(r * whole == whole * r) by (nonlinear_arith);
    if r <= u32::MAX {
        assert(scaled(v, scale) == r);
    } else {
        assert(scaled(v, scale) == u32::MAX);
        lemma_le_product(u32::MAX as int, r, whole);
    }
}

/// A negative scale takes everything to the origin, as does one that is not a
/// number; an infinite one takes everything but the origin to the far end.
pub proof fn law_improper_scales(v: u32, scale: ScaleFactor)
    ensures
        scale.bits >= 0x8000_0000 ==> scaled(v, scale) == 0,
        0x7f80_0000 < scale.bits < 0x8000_0000 ==> scaled(v, scale) == 0,
        scale.bits == 0x7f80_0000 && v > 0 ==> scaled(v, scale) == u32::MAX,
{
}

/// The value of a scale, read off its bits.
pub proof fn law_value_of_a_scale(scale: ScaleFactor)
    ensures
        ({
            let low = scale.bits as int % 0x8000_0000;
            let (k, f) = (low / 0x80_0000, low % 0x80_0000);
            let magnitude = if k == 0 {
                f
            } else {
                (f + 0x80_0000) * two_to((k - 1) as nat)
            };
            &&& scale.finite() <==> low < 0x7f80_0000
            &&& scale.units() == if scale.bits < 0x8000_0000 { magnitude } else { -magnitude }
        }),
{
    assert(two_to(0) == 1);
}

/// At the scale one every coordinate stays.
pub proof fn law_unit_scale_changes_nothing(v: u32)
    ensures
        scaled(v, ScaleFactor { bits: 0x3f80_0000 }) == v,
{
    let scale = ScaleFactor { bits: 0x3f80_0000 };
    assert(scale.significand() == 0x80_0000 && scale.exponent() == -23);
    assert(two_to(23) == 0x80_0000 && two_to(22) == 0x40_0000) by {
        reveal_with_fuel(two_to, 24);
    }
    lemma_precision_shifted(v as int, 23);
    assert(rounded_shift(v * 0x80_0000, -23) == (v * 0x80_0000 + 0x40_0000) / 0x80_0000);
}

/// Two scales count as the same if they differ by less than a thousandth, up to
/// one part in a million of it; in whichever order they are taken. The value of
/// a scale is counted in units of `2^-149`.
pub proof fn law_same_scales_are_close(a: ScaleFactor, b: ScaleFactor)
    requires
        a.finite(),
        b.finite(),
    ensures
        same_scale(a, a),
        same_scale(a, b) == same_scale(b, a),
        same_scale(a, b) ==> -two_to(149) < 1000 * (a.units() - b.units()) < two_to(149),
        !same_scale(a, b) ==> 1_000_000_000 * (a.units() - b.units()) > 999_999 * two_to(149)
            || 1_000_000_000 * (b.units() - a.units()) > 999_999 * two_to(149),
{
    lemma_two_to_adds(115, 34);
    lemma_two_to_positive(115);
    assert(two_to(34) == 0x4_0000_0000) by {
        reveal_with_fuel(two_to, 35);
    }
}

/// A quotient is rounded to a nearest integer; where two are equally near, to
/// the even one.
pub proof fn law_quotient_is_rounded_to_the_nearest(n: int, d: int)
    requires
        d >= 1,
    ensures
        ({
            let q = nearest_even(n, d);
            &&& -d <= 2 * (q * d - n) <= d
            &&& 2 * (q * d - n) == d || 2 * (n - q * d) == d ==> q % 2 == 0
        }),
{
    let (q, r) = (n / d, n % d);
    vstd::arithmetic::div_mod::lemma_fundamental_div_mod(n, d);
    assert(d * q == q * d) by (nonlinear_arith);
    assert((q + 1) * d == q * d + d) by (nonlinear_arith);
    assert(q + q % 2 == q || q + q % 2 == q + 1);
}

/// A number times a power of two is rounded to a nearest integer, halves up.
pub proof fn law_halves_are_rounded_up(n: int, k: nat)
    requires
        k >= 1,
    ensures
        ({
            let (q, d) = (rounded_shift(n, -(k as int)), two_to(k));
            -d < 2 * (q * d - n) <= d
        }),
{
    let (half, d) = (two_to((k - 1) as nat), two_to(k));
    lemma_two_to_positive((k - 1) as nat);
    assert(d == 2 * half);
    let q = (n + half) / d;
    vstd::arithmetic::div_mod::lemma_fundamental_div_mod(n + half, d);
    assert(d * q == q * d) by (nonlinear_arith);
}

// A shrunk image is no smaller than it has to be.

/// A rounded root falls short of the root by at most one part in `2^53`.
proof fn lemma_root_shortfall(n: int, r: int)
    requires
        is_nearest_root(n, r),
        n >= 0x10_0000_0000_0000 * 0x10_0000_0000_0000,
    ensures
        n * (0x20_0000_0000_0000 * 0x20_0000_0000_0000) <= (r * r) * (0x20_0000_0000_0001
            * 0x20_0000_0000_0001),
{
    let h: int = 0x10_0000_0000_0000;
    let e: int = 0x20_0000_0000_0000;
    let f: int = 0x20_0000_0000_0001;
    assert(r >= h) by (nonlinear_arith)
        requires
            4 * n < (2 * r + 1) * (2 * r + 1),
            n >= h * h,
            r >= 1,
            h == 0x10_0000_0000_0000,
    ;
    let a = 2 * r * f;
    let b = (2 * r + 1) * e;
    assert(a >= b) by (nonlinear_arith)
        requires
            a == 2 * r * f,
            b == (2 * r + 1) * e,
            f == e + 1,
            2 * r >= e,
    ;
    lemma_products_ordered(b, a, b, a);
    assert(a * a == 4 * ((r * r) * (f * f))) by (nonlinear_arith)
        requires
            a == 2 * r * f,
    ;
    assert(b * b == ((2 * r + 1) * (2 * r + 1)) * (e * e)) by (nonlinear_arith)
        requires
            b == (2 * r + 1) * e,
    ;
    lemma_le_product(4 * n, (2 * r + 1) * (2 * r + 1), e * e);
    assert((4 * n) * (e * e) == 4 * (n * (e * e))) by (nonlinear_arith);
}

/// The roundings on the way to a shrunk side, put together.
proof fn lemma_combined_shortfall(
    a: int,
    b: int,
    rr: int,
    m: int,
    n: int,
    dn: int,
    d: int,
    dd: int,
    s: int,
    j: int,
    e: int,
    f: int,
    g: int,
)
    requires
        a >= 0,
        b >= 0,
        s >= 1,
        j >= 1,
        e >= 1,
        f >= 1,
        g >= 1,
        dd >= 1,
        (a * (s * j)) * (e * e) >= (b * rr) * (g * g),
        rr * (f * f) >= (m * j) * (e * e),
        (m * dd) * f >= (dn * s) * e,
        d * f >= dd * e,
        dn * e >= n * g,
    ensures
        (a * d) * (f * f * f * f) >= (b * n) * (g * g * g * e),
{
    let (ee, ff, gg) = (e * e, f * f, g * g);
    lemma_products_ordered(1, e, 1, e);
    lemma_products_ordered(1, f, 1, f);
    lemma_products_ordered(1, g, 1, g);
    lemma_products_ordered(1, s, 1, j);
    let bg = b * gg;
    lemma_products_ordered(0, b, 0, gg);
    // The root.
    assert(bg * (m * j) <= (a * (s * j)) * ff) by {
        lemma_le_product((b * rr) * gg, (a * (s * j)) * ee, ff);
        lemma_le_product((m * j) * ee, rr * ff, bg);
        assert(((b * rr) * gg) * ff == bg * (rr * ff)) by (nonlinear_arith)
            requires
                bg == b * gg,
        ;
        lemma_factors(a * (s * j), ee, ff, 1);
        lemma_factors(bg, m * j, ee, 1);
        lemma_cancel(bg * (m * j), (a * (s * j)) * ff, ee);
    }
    // The quotient.
    let af = a * (ff * f);
    assert(bg * (dn * e) <= af * dd) by {
        let x = dd * f;
        lemma_products_ordered(1, dd, 1, f);
        lemma_le_product(bg * (m * j), (a * (s * j)) * ff, x);
        lemma_products_ordered(0, bg, 0, j);
        lemma_le_product((dn * s) * e, (m * dd) * f, bg * j);
        assert((bg * (m * j)) * x == (bg * j) * ((m * dd) * f)) by (nonlinear_arith)
            requires
                x == dd * f,
        ;
        assert((bg * j) * ((dn * s) * e) == (bg * (dn * e)) * (s * j)) by (nonlinear_arith);
        assert(((a * (s * j)) * ff) * x == (af * dd) * (s * j)) by (nonlinear_arith)
            requires
                x == dd * f,
                af == a * (ff * f),
        ;
        lemma_cancel(bg * (dn * e), af * dd, s * j);
    }
    // The numbers.
    lemma_products_ordered(1, ff, 1, f);
    lemma_products_ordered(0, a, 0, ff * f);
    lemma_products_ordered(0, bg, 0, e);
    lemma_le_product(dd * e, d * f, af);
    lemma_le_product(n * g, dn * e, bg * e);
    lemma_le_product(bg * (dn * e), af * dd, e);
    assert((bg * (dn * e)) * e == (bg * e) * (dn * e)) by (nonlinear_arith);
    assert((af * dd) * e == af * (dd * e)) by (nonlinear_arith);
    assert(af * (d * f) == (a * d) * (f * f * f * f)) by (nonlinear_arith)
        requires
            af == a * (ff * f),
            ff == f * f,
    ;
    assert((bg * e) * (n * g) == (b * n) * (g * g * g * e)) by (nonlinear_arith)
        requires
            bg == b * gg,
            gg == g * g,
    ;
}

/// A shrunk side is no shorter than it has to be: one pixel more, and it would
/// be longer than the side times the square root of the ratio, to one part in
/// `2^40`.
pub proof fn law_shrunk_side_is_no_shorter(side: u32, max_pixels: int, pixels: int)
    requires
        1 <= max_pixels <= pixels,
    ensures
        ({
            let next = floored_side(side, max_pixels, pixels) + 1;
            (side * side * max_pixels) * 0xff_ffff_ffff < (next * next * pixels) * 0x100_0000_0000
        }),
{
    let (n, d) = (max_pixels, pixels);
    let (r, t) = double_root_of_ratio(n, d);
    let (dn, dd) = (to_precision(n, 53), to_precision(d, 53));
    let e: int = 0x20_0000_0000_0000;
    let f: int = 0x20_0000_0000_0001;
    let g: int = 0x1f_ffff_ffff_ffff;
    lemma_powers();
    lemma_precision_positive(n, 53);
    lemma_precision_positive(d, 53);
    lemma_precision_error(n);
    lemma_precision_error(d);
    let s = doublings(dn, dd);
    lemma_doublings(dn, dd);
    let j: nat = if s % 2 == 0 {
        52
    } else {
        53
    };
    let (ss, jj, tt) = (two_to(s), two_to(j), two_to(t));
    lemma_two_to_positive(s);
    lemma_two_to_positive(j);
    lemma_two_to_positive(t);
    lemma_two_to_adds(t, t);
    lemma_two_to_adds(s, j);
    assert(t + t == s + j);
    let top = dn * ss;
    let m = nearest_even(top, dd);
    let (q, rest) = (top / dd, top % dd);
    vstd::arithmetic::div_mod::lemma_fundamental_div_mod(top, dd);
    assert(q >= 0x10_0000_0000_0000) by (nonlinear_arith)
        requires
            top == dd * q + rest,
            0 <= rest < dd,
            top >= dd * 0x10_0000_0000_0000,
    ;
    assert(2 * top <= 2 * (m * dd) + dd) by (nonlinear_arith)
        requires
            top == dd * q + rest,
            0 <= rest < dd,
            m == q + 1 || (m == q && 2 * rest <= dd),
    ;
    assert((m * dd) * f >= top * e) by {
        lemma_le_product(0x10_0000_0000_0000, m, dd);
        assert((m * dd) * f == (m * dd) * e + m * dd);
    }
    assert(m * jj >= 0x10_0000_0000_0000 * 0x10_0000_0000_0000) by (nonlinear_arith)
        requires
            m >= 0x10_0000_0000_0000,
            jj >= 0x10_0000_0000_0000,
    ;
    lemma_nearest_root(m * jj);
    lemma_root_shortfall(m * jj, r);
    let p = lemma_floored_side_bound(side, r, t);
    let next = p + 1;
    let x = side as int * r;
    if side >= 1 {
        assert(x >= 1) by (nonlinear_arith)
            requires
                x == side as int * r,
                side >= 1,
                r >= 1,
        ;
        lemma_precision_error(x);
        let px = to_precision(x, 53);
        vstd::arithmetic::div_mod::lemma_fundamental_div_mod(px, tt);
        assert(next * tt >= px) by (nonlinear_arith)
            requires
                px == tt * p + px % tt,
                0 <= px % tt < tt,
                next == p + 1,
        ;
        let w = next * tt;
        lemma_products_ordered(x * g, w * e, x * g, w * e);
        let (a, b) = (next * next, side * side);
        assert((w * e) * (w * e) == (a * (ss * jj)) * (e * e)) by {
            assert((w * e) * (w * e) == (a * (tt * tt)) * (e * e)) by (nonlinear_arith)
                requires
                    w == next * tt,
                    a == next * next,
            ;
        }
        assert((x * g) * (x * g) == (b * (r * r)) * (g * g)) by (nonlinear_arith)
            requires
                x == side as int * r,
                b == side * side,
        ;
        lemma_products_ordered(0, next, 0, next);
        lemma_products_ordered(1, side as int, 1, side as int);
        lemma_combined_shortfall(a, b, r * r, m, n, dn, d, dd, ss, jj, e, f, g);
        let (ad, bn) = (a * d, b * n);
        lemma_products_ordered(1, b, 1, n);
        let (gd, fd) = (g * g * g * e, f * f * f * f);
        assert(gd * 0x100_0000_0000 > fd * 0xff_ffff_ffff);
        if ad * 0x100_0000_0000 <= bn * 0xff_ffff_ffff {
            lemma_le_product(ad * 0x100_0000_0000, bn * 0xff_ffff_ffff, fd);
            assert((ad * 0x100_0000_0000) * fd == (ad * fd) * 0x100_0000_0000)
                by (nonlinear_arith);
            assert((bn * 0xff_ffff_ffff) * fd == bn * (fd * 0xff_ffff_ffff)) by (nonlinear_arith);
            lemma_le_product(fd * 0xff_ffff_ffff + 1, gd * 0x100_0000_0000, bn);
            assert(bn * (gd * 0x100_0000_0000) == (bn * gd) * 0x100_0000_0000)
                by (nonlinear_arith);
            assert(bn * (fd * 0xff_ffff_ffff + 1) == bn * (fd * 0xff_ffff_ffff) + bn)
                by (nonlinear_arith);
            assert(false);
        }
    } else {
        assert(side * side * n == 0) by (nonlinear_arith)
            requires
                side == 0,
        ;
        lemma_products_ordered(1, next, 1, next);
        lemma_products_ordered(1, next * next, 1, d);
    }
}

} // verus!
