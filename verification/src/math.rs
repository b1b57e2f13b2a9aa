//! Fixed-point scalar arithmetic, 2D vectors, angle arithmetic and the
//! `Mean` / `WeightedMean` reducers.
//!
//! A scalar is an `i64` holding `value * SCALE`. Saturating operations keep
//! every stored scalar inside `[-LIM, LIM]`, so no operation here needs a
//! precondition to avoid overflow; intermediate products are taken in `i128`.

use vstd::arithmetic::div_mod::{
    lemma_div_is_ordered, lemma_div_multiples_vanish, lemma_fundamental_div_mod,
    lemma_fundamental_div_mod_converse, lemma_mod_multiples_basic, lemma_small_mod,
};
use vstd::prelude::*;

verus! {

/// One whole unit: every scalar is a multiple of `1 / SCALE`.
pub const SCALE: i64 = 1000000;

/// A half turn (pi) in fixed-point radians. Even, so that `TAU_FP == 2 * PI_FP`
/// and `HALF_PI_FP == PI_FP / 2` hold exactly.
pub const PI_FP: i64 = 3141592;

/// A full turn (tau) in fixed-point radians.
pub const TAU_FP: i64 = 6283184;

/// A quarter turn (pi / 2) in fixed-point radians.
pub const HALF_PI_FP: i64 = 1570796;

/// Saturation bound for stored scalars (2^40).
pub const LIM: i64 = 1099511627776;

/// Saturate a mathematical integer into `[-LIM, LIM]`.
pub open spec fn clamped(v: int) -> int {
    if v > LIM as int {
        LIM as int
    } else if v < -(LIM as int) {
        -(LIM as int)
    } else {
        v
    }
}

/// Absolute value of a mathematical integer.
pub open spec fn absi(a: int) -> int {
    if a >= 0 {
        a
    } else {
        -a
    }
}

/// Truncating (round toward zero) division, as machine division does it.
/// Meaningful only for `b != 0`.
pub open spec fn tdiv(a: int, b: int) -> int {
    if (a >= 0) == (b >= 0) {
        absi(a) / absi(b)
    } else {
        -(absi(a) / absi(b))
    }
}

/// Saturating fixed-point product: `a * b / SCALE`, truncated, saturated.
pub open spec fn fmul(a: int, b: int) -> int {
    clamped(tdiv(a * b, SCALE as int))
}

/// Saturating sum.
pub open spec fn sadd(a: int, b: int) -> int {
    clamped(a + b)
}

/// Saturating difference.
pub open spec fn ssub(a: int, b: int) -> int {
    clamped(a - b)
}

/// Signed shortest angular delta from `source` to `target`, in `[-PI_FP, PI_FP)`:
/// `((target - source + pi) mod tau) - pi` with a Euclidean (non-negative) modulo.
pub open spec fn sab(source: int, target: int) -> int {
    (target - source + PI_FP) % (TAU_FP as int) - PI_FP
}

/// `r` is the integer square root of `n`.
pub open spec fn is_isqrt(n: int, r: int) -> bool {
    0 <= r && r * r <= n < (r + 1) * (r + 1)
}

/// The integer square root (floor of the real square root) of `n >= 0`.
pub open spec fn sqrt_floor(n: int) -> int {
    choose|r: int| is_isqrt(n, r)
}

proof fn lemma_mul_bound(a: int, b: int, ma: int, mb: int)
    by (nonlinear_arith)
    requires
        -ma <= a <= ma,
        -mb <= b <= mb,
        0 <= ma,
        0 <= mb,
    ensures
        -(ma * mb) <= a * b <= ma * mb,
{
}

/// The magnitude of a truncating quotient is at most the magnitude of the
/// exact quotient: `|tdiv(a, b)| * b <= |a|` for `b > 0`.
proof fn lemma_tdiv_bound(a: int, b: int)
    requires
        b > 0,
    ensures
        absi(tdiv(a, b)) == absi(a) / b,
        absi(tdiv(a, b)) * b <= absi(a),
        absi(a) < (absi(tdiv(a, b)) + 1) * b,
{
    lemma_fundamental_div_mod(absi(a), b);
    let q = absi(a) / b;
    assert(absi(a) == b * q + absi(a) % b);
    assert(0 <= absi(a) % b < b);
    assert(q * b <= absi(a)) by (nonlinear_arith)
        requires
            absi(a) == b * q + absi(a) % b,
            0 <= absi(a) % b,
    ;
    assert(absi(a) < (q + 1) * b) by (nonlinear_arith)
        requires
            absi(a) == b * q + absi(a) % b,
            absi(a) % b < b,
    ;
    assert(q >= 0) by {
        lemma_div_is_ordered(0, absi(a), b);
    }
}

/// Exact multiples divide out: `tdiv(v * w, w) == v` for `w > 0`.
pub proof fn lemma_tdiv_cancel(v: int, w: int)
    requires
        w > 0,
    ensures
        tdiv(v * w, w) == v,
{
    if v >= 0 {
        assert(v * w >= 0) by (nonlinear_arith)
            requires
                v >= 0,
                w > 0,
        ;
        assert(absi(v * w) == v * w);
        assert(v * w == w * v) by (nonlinear_arith);
        lemma_div_multiples_vanish(v, w);
        assert((w * v) / w == v);
    } else {
        assert(v * w < 0) by (nonlinear_arith)
            requires
                v < 0,
                w > 0,
        ;
        assert(absi(v * w) == -(v * w));
        assert(-(v * w) == w * (-v)) by (nonlinear_arith);
        lemma_div_multiples_vanish(-v, w);
        assert((w * (-v)) / w == -v);
    }
}

/// Saturate an `i128` into the scalar range.
fn clamp128(v: i128) -> (r: i64)
    ensures
        r == clamped(v as int),
{
    if v > LIM as i128 {
        LIM
    } else if v < -(LIM as i128) {
        -LIM
    } else {
        v as i64
    }
}

/// Truncating division on `i128`, computed through unsigned division.
pub(crate) fn tdiv128(a: i128, b: i128) -> (r: i128)
    requires
        b > 0,
        a > i128::MIN,
    ensures
        r == tdiv(a as int, b as int),
        absi(r as int) <= absi(a as int),
{
    proof {
        lemma_tdiv_bound(a as int, b as int);
        lemma_div_is_ordered(absi(a as int), absi(a as int) * 1, 1);
        assert(absi(a as int) / b as int <= absi(a as int)) by {
            lemma_div_is_ordered_by_denominator_local(absi(a as int), b as int);
        }
    }
    if a >= 0 {
        ((a as u128) / (b as u128)) as i128
    } else {
        let n = ((-a) as u128) / (b as u128);
        -(n as i128)
    }
}

proof fn lemma_div_is_ordered_by_denominator_local(x: int, b: int)
    requires
        x >= 0,
        b >= 1,
    ensures
        x / b <= x,
{
    vstd::arithmetic::div_mod::lemma_div_is_ordered_by_denominator(x, 1, b);
    assert(x / 1 == x) by {
        lemma_div_multiples_vanish(x, 1);
    }
}

/// Euclidean (always non-negative) remainder on `i128`.
pub(crate) fn emod128(a: i128, m: i128) -> (r: i128)
    requires
        0 < m,
        i128::MIN + m < a,
    ensures
        r == (a as int) % (m as int),
        0 <= r < m,
{
    if a >= 0 {
        proof {
            lemma_fundamental_div_mod(a as int, m as int);
        }
        ((a as u128) % (m as u128)) as i128
    } else {
        let n = ((-a) as u128) % (m as u128);
        proof {
            let q = (-a as int) / (m as int);
            lemma_fundamental_div_mod(-a as int, m as int);
            assert(-a as int == (m as int) * q + n as int);
            if n as int == 0 {
                assert(a as int == (-q) * (m as int)) by (nonlinear_arith)
                    requires
                        -a as int == (m as int) * q + 0,
                ;
                lemma_mod_multiples_basic(-q, m as int);
            } else {
                assert(a as int == (-q - 1) * (m as int) + ((m as int) - n as int))
                    by (nonlinear_arith)
                    requires
                        -a as int == (m as int) * q + n as int,
                ;
                lemma_fundamental_div_mod_converse(
                    a as int,
                    m as int,
                    -q - 1,
                    (m as int) - n as int,
                );
            }
        }
        if n == 0 {
            0
        } else {
            m - (n as i128)
        }
    }
}

/// Saturating fixed-point multiplication of two scalars.
pub fn fp_mul(a: i64, b: i64) -> (r: i64)
    ensures
        r == fmul(a as int, b as int),
{
    proof {
        lemma_mul_bound(a as int, b as int, i64::MAX as int + 1, i64::MAX as int + 1);
    }
    let p: i128 = (a as i128) * (b as i128);
    let q = tdiv128(p, SCALE as i128);
    clamp128(q)
}

/// Saturating addition of two scalars.
pub fn sat_add(a: i64, b: i64) -> (r: i64)
    ensures
        r == sadd(a as int, b as int),
{
    clamp128((a as i128) + (b as i128))
}

/// Saturating subtraction of two scalars.
pub fn sat_sub(a: i64, b: i64) -> (r: i64)
    ensures
        r == ssub(a as int, b as int),
{
    clamp128((a as i128) - (b as i128))
}

/// Get the smallest signed angle from `source` to `target`.
/// The result is in the range `[-PI_FP, PI_FP)`.
pub fn smallest_angle_between(source: i64, target: i64) -> (r: i64)
    ensures
        r == sab(source as int, target as int),
        -PI_FP <= r < PI_FP,
{
    let d: i128 = (target as i128) - (source as i128) + (PI_FP as i128);
    let m = emod128(d, TAU_FP as i128);
    (m - (PI_FP as i128)) as i64
}

/// The shortest angular delta from an angle to itself is zero.
pub proof fn lemma_angle_self(a: int)
    ensures
        sab(a, a) == 0,
{
    lemma_small_mod(PI_FP as nat, TAU_FP as nat);
}

/// The shortest angular delta is invariant under adding a full turn to the
/// target: `sab(a, a + TAU_FP) == 0`.
pub proof fn lemma_angle_full_turn(a: int)
    ensures
        sab(a, a + TAU_FP) == 0,
{
    let t = TAU_FP as int;
    assert(t + PI_FP == 1 * t + PI_FP);
    lemma_fundamental_div_mod_converse(t + PI_FP, t, 1, PI_FP as int);
}

/// The shortest angular delta always lies in `[-PI_FP, PI_FP)`.
pub proof fn lemma_angle_range(source: int, target: int)
    ensures
        -PI_FP <= sab(source, target) < PI_FP,
{
    lemma_fundamental_div_mod((target - source + PI_FP) as int, TAU_FP as int);
}

/// Model of a two-dimensional vector: both coordinates as mathematical integers.
pub ghost struct Vec2Model {
    pub x: int,
    pub y: int,
}

/// The zero vector.
pub open spec fn vzero() -> Vec2Model {
    Vec2Model { x: 0, y: 0 }
}

/// Both coordinates lie in the scalar range.
pub open spec fn vwf(a: Vec2Model) -> bool {
    &&& -LIM <= a.x <= LIM
    &&& -LIM <= a.y <= LIM
}

/// Componentwise saturating sum.
pub open spec fn vadd(a: Vec2Model, b: Vec2Model) -> Vec2Model {
    Vec2Model { x: sadd(a.x, b.x), y: sadd(a.y, b.y) }
}

/// Componentwise saturating difference.
pub open spec fn vsub(a: Vec2Model, b: Vec2Model) -> Vec2Model {
    Vec2Model { x: ssub(a.x, b.x), y: ssub(a.y, b.y) }
}

/// Componentwise negation.
pub open spec fn vneg(a: Vec2Model) -> Vec2Model {
    Vec2Model { x: clamped(-a.x), y: clamped(-a.y) }
}

/// Scaling by a fixed-point factor.
pub open spec fn vmul(a: Vec2Model, f: int) -> Vec2Model {
    Vec2Model { x: fmul(a.x, f), y: fmul(a.y, f) }
}

/// Division by a fixed-point scalar (`f != 0`).
pub open spec fn vdiv(a: Vec2Model, f: int) -> Vec2Model {
    Vec2Model { x: clamped(tdiv(a.x * SCALE, f)), y: clamped(tdiv(a.y * SCALE, f)) }
}

/// The squared magnitude, exact.
pub open spec fn magsq(a: Vec2Model) -> int {
    a.x * a.x + a.y * a.y
}

/// The magnitude: integer square root of the squared magnitude.
pub open spec fn vmag(a: Vec2Model) -> int {
    sqrt_floor(magsq(a))
}

/// Scale the vector down so its magnitude does not exceed `max`; leave it
/// unchanged when the magnitude is already within the limit.
pub open spec fn vclamp(a: Vec2Model, max: int) -> Vec2Model {
    let m = vmag(a);
    if m > max {
        Vec2Model { x: tdiv(a.x * max, m), y: tdiv(a.y * max, m) }
    } else {
        a
    }
}

/// Sum of a sequence of vectors, folded left to right with saturating adds.
pub open spec fn vsum(s: Seq<Vec2Model>) -> Vec2Model
    decreases s.len(),
{
    if s.len() == 0 {
        vzero()
    } else {
        vadd(vsum(s.drop_last()), s.last())
    }
}

/// The integer square root is unique: any `r` with `is_isqrt(n, r)` equals
/// `sqrt_floor(n)`.
pub proof fn lemma_sqrt_floor(n: int, r: int)
    requires
        is_isqrt(n, r),
    ensures
        sqrt_floor(n) == r,
{
    let w = choose|q: int| is_isqrt(n, q);
    assert(is_isqrt(n, w));
    assert(w == r) by (nonlinear_arith)
        requires
            0 <= w,
            0 <= r,
            w * w <= n < (w + 1) * (w + 1),
            r * r <= n < (r + 1) * (r + 1),
    ;
}

/// Integer square root by binary search on `[0, 2^41]`.
fn isqrt128(n: u128) -> (r: u64)
    requires
        n < 4835703278458516698824704,
    ensures
        is_isqrt(n as int, r as int),
        r <= 2199023255552,
{
    let mut lo: u128 = 0;
    let mut hi: u128 = 2199023255552;
    proof {
        assert(2199023255552int * 2199023255552int == 4835703278458516698824704int);
    }
    while hi - lo > 1
        invariant
            lo < hi <= 2199023255552,
            lo * lo <= n,
            (n as int) < (hi as int) * (hi as int),
        decreases hi - lo,
    {
        let mid: u128 = lo + (hi - lo) / 2;
        proof {
            assert(lo < mid < hi);
            assert((mid as int) * (mid as int) <= 2199023255552int * 2199023255552int)
                by (nonlinear_arith)
                requires
                    0 <= (mid as int) <= 2199023255552int,
            ;
        }
        if mid * mid <= n {
            lo = mid;
        } else {
            hi = mid;
        }
    }
    proof {
        assert(hi == lo + 1);
    }
    lo as u64
}

/// A two-dimensional vector with fixed-point coordinates.
#[derive(Clone, Copy, Debug, PartialEq, Eq, Structural)]
pub struct Vec2 {
    pub x: i64,
    pub y: i64,
}

impl View for Vec2 {
    type V = Vec2Model;

    open spec fn view(&self) -> Vec2Model {
        Vec2Model { x: self.x as int, y: self.y as int }
    }
}

impl Default for Vec2 {
    /// The zero vector.
    fn default() -> (r: Self)
        ensures
            r@ == vzero(),
    {
        Vec2 { x: 0, y: 0 }
    }
}

impl Vec2 {
    /// Create a new two-dimensional vector.
    pub fn new(x: i64, y: i64) -> (r: Self)
        ensures
            r@ == (Vec2Model { x: x as int, y: y as int }),
    {
        Vec2 { x, y }
    }

    /// Componentwise negation.
    pub fn neg(self) -> (r: Self)
        ensures
            r@ == vneg(self@),
    {
        Vec2 { x: sat_sub(0, self.x), y: sat_sub(0, self.y) }
    }

    /// Componentwise saturating sum.
    pub fn add(self, rhs: Self) -> (r: Self)
        ensures
            r@ == vadd(self@, rhs@),
    {
        Vec2 { x: sat_add(self.x, rhs.x), y: sat_add(self.y, rhs.y) }
    }

    /// Componentwise saturating difference.
    pub fn sub(self, rhs: Self) -> (r: Self)
        ensures
            r@ == vsub(self@, rhs@),
    {
        Vec2 { x: sat_sub(self.x, rhs.x), y: sat_sub(self.y, rhs.y) }
    }

    /// Scale by a fixed-point factor.
    pub fn mul(self, rhs: i64) -> (r: Self)
        ensures
            r@ == vmul(self@, rhs as int),
    {
        Vec2 { x: fp_mul(self.x, rhs), y: fp_mul(self.y, rhs) }
    }

    /// Divide by a fixed-point scalar.
    pub fn div(self, rhs: i64) -> (r: Self)
        requires
            rhs != 0,
        ensures
            r@ == vdiv(self@, rhs as int),
    {
        Vec2 { x: fp_div_component(self.x, rhs), y: fp_div_component(self.y, rhs) }
    }

    /// Add another vector in place.
    pub fn add_assign(&mut self, rhs: Self)
        ensures
            final(self)@ == vadd(old(self)@, rhs@),
    {
        *self = self.add(rhs);
    }

    /// Subtract another vector in place.
    pub fn sub_assign(&mut self, rhs: Self)
        ensures
            final(self)@ == vsub(old(self)@, rhs@),
    {
        *self = self.sub(rhs);
    }

    /// Scale by a fixed-point factor in place.
    pub fn mul_assign(&mut self, rhs: i64)
        ensures
            final(self)@ == vmul(old(self)@, rhs as int),
    {
        *self = self.mul(rhs);
    }

    /// Divide by a fixed-point scalar in place.
    pub fn div_assign(&mut self, rhs: i64)
        requires
            rhs != 0,
        ensures
            final(self)@ == vdiv(old(self)@, rhs as int),
    {
        *self = self.div(rhs);
    }

    /// Sum of a slice of vectors.
    pub fn sum(vals: &Vec<Vec2>) -> (r: Self)
        ensures
            r@ == vsum(vals@.map_values(|v: Vec2| v@)),
    {
        let ghost models = vals@.map_values(|v: Vec2| v@);
        let mut acc = Vec2 { x: 0, y: 0 };
        let mut i: usize = 0;
        while i < vals.len()
            invariant
                i <= vals@.len(),
                models == vals@.map_values(|v: Vec2| v@),
                acc@ == vsum(models.take(i as int)),
            decreases vals@.len() - i,
        {
            proof {
                assert(models.take(i + 1).drop_last() == models.take(i as int));
                assert(models.take(i + 1).last() == models[i as int]);
            }
            acc = acc.add(vals[i]);
            i = i + 1;
        }
        proof {
            assert(models.take(vals@.len() as int) == models);
        }
        acc
    }

    /// Calculate the square of the magnitude of this vector. Use this instead
    /// of [`Self::magnitude()`] whenever a comparison suffices, to avoid the
    /// cost of the square root.
    pub fn magnitude_squared(self) -> (r: u128)
        requires
            vwf(self@),
        ensures
            r == magsq(self@),
    {
        proof {
            lemma_mul_bound(self.x as int, self.x as int, LIM as int, LIM as int);
            lemma_mul_bound(self.y as int, self.y as int, LIM as int, LIM as int);
            assert((self.x as int) * (self.x as int) >= 0) by (nonlinear_arith);
            assert((self.y as int) * (self.y as int) >= 0) by (nonlinear_arith);
        }
        let xx: i128 = (self.x as i128) * (self.x as i128);
        let yy: i128 = (self.y as i128) * (self.y as i128);
        (xx + yy) as u128
    }

    /// Calculate the magnitude (the integer square root of the squared
    /// magnitude) of this vector.
    pub fn magnitude(self) -> (r: i64)
        requires
            vwf(self@),
        ensures
            r == vmag(self@),
            is_isqrt(magsq(self@), r as int),
            0 <= r <= 2199023255552,
    {
        let sq = self.magnitude_squared();
        proof {
            lemma_mul_bound(self.x as int, self.x as int, LIM as int, LIM as int);
            lemma_mul_bound(self.y as int, self.y as int, LIM as int, LIM as int);
        }
        let r = isqrt128(sq);
        proof {
            lemma_sqrt_floor(magsq(self@), r as int);
        }
        r as i64
    }

    /// Scale this vector such that its magnitude lies in `[0, max]`;
    /// a vector already within the limit is returned unchanged.
    pub fn clamp_magnitude(self, max: i64) -> (r: Self)
        requires
            vwf(self@),
            0 <= max,
        ensures
            r@ == vclamp(self@, max as int),
            vwf(r@),
    {
        let mag = self.magnitude();
        if mag > max {
            proof {
                lemma_mul_bound(self.x as int, max as int, LIM as int, i64::MAX as int + 1);
                lemma_mul_bound(self.y as int, max as int, LIM as int, i64::MAX as int + 1);
                lemma_scale_down(self.x as int, max as int, mag as int);
                lemma_scale_down(self.y as int, max as int, mag as int);
            }
            let xp = tdiv128((self.x as i128) * (max as i128), mag as i128);
            let yp = tdiv128((self.y as i128) * (max as i128), mag as i128);
            Vec2 { x: xp as i64, y: yp as i64 }
        } else {
            self
        }
    }
}

/// `|tdiv(x * max, m)| <= |x|` whenever `0 <= max <= m` and `m > 0`: scaling
/// by a ratio at most one cannot grow a coordinate.
proof fn lemma_scale_down(x: int, max: int, m: int)
    requires
        0 <= max <= m,
        0 < m,
    ensures
        absi(tdiv(x * max, m)) <= absi(x),
{
    lemma_tdiv_bound(x * max, m);
    assert(absi(x * max) == absi(x) * max) by (nonlinear_arith)
        requires
            max >= 0,
    ;
    assert(absi(x) * max <= absi(x) * m) by (nonlinear_arith)
        requires
            0 <= max <= m,
            0 <= absi(x),
    ;
    lemma_div_is_ordered(absi(x) * max, absi(x) * m, m);
    assert(absi(x) * m == m * absi(x)) by (nonlinear_arith);
    lemma_div_multiples_vanish(absi(x), m);
}

/// Sum of a sequence of integers.
pub open spec fn sum_i(s: Seq<int>) -> int
    decreases s.len(),
{
    if s.len() == 0 {
        0
    } else {
        sum_i(s.drop_last()) + s.last()
    }
}

/// Sum of `value * weight` over a sequence of weighted integers.
pub open spec fn wsum_i(s: Seq<(int, int)>) -> int
    decreases s.len(),
{
    if s.len() == 0 {
        0
    } else {
        wsum_i(s.drop_last()) + s.last().0 * s.last().1
    }
}

/// Total weight of a sequence of weighted integers.
pub open spec fn wtot_i(s: Seq<(int, int)>) -> int
    decreases s.len(),
{
    if s.len() == 0 {
        0
    } else {
        wtot_i(s.drop_last()) + s.last().1
    }
}

/// Sum of the x coordinates of a sequence of vectors.
pub open spec fn sum_vx(s: Seq<Vec2Model>) -> int
    decreases s.len(),
{
    if s.len() == 0 {
        0
    } else {
        sum_vx(s.drop_last()) + s.last().x
    }
}

/// Sum of the y coordinates of a sequence of vectors.
pub open spec fn sum_vy(s: Seq<Vec2Model>) -> int
    decreases s.len(),
{
    if s.len() == 0 {
        0
    } else {
        sum_vy(s.drop_last()) + s.last().y
    }
}

/// Sum of `value.x * weight` over a sequence of weighted vectors.
pub open spec fn wsum_vx(s: Seq<(Vec2Model, int)>) -> int
    decreases s.len(),
{
    if s.len() == 0 {
        0
    } else {
        wsum_vx(s.drop_last()) + s.last().0.x * s.last().1
    }
}

/// Sum of `value.y * weight` over a sequence of weighted vectors.
pub open spec fn wsum_vy(s: Seq<(Vec2Model, int)>) -> int
    decreases s.len(),
{
    if s.len() == 0 {
        0
    } else {
        wsum_vy(s.drop_last()) + s.last().0.y * s.last().1
    }
}

/// Total weight of a sequence of weighted vectors.
pub open spec fn wtot_v(s: Seq<(Vec2Model, int)>) -> int
    decreases s.len(),
{
    if s.len() == 0 {
        0
    } else {
        wtot_v(s.drop_last()) + s.last().1
    }
}

/// Largest sequence length the reducers accept (2^46 items).
pub const MEAN_MAX_LEN: u64 = 70368744177664;

/// `|tdiv(s, n)| <= b` whenever `|s| <= n * b`: an average is bounded by the
/// bound of its addends.
proof fn lemma_avg_bound(s: int, n: int, b: int)
    requires
        n > 0,
        0 <= b,
        absi(s) <= n * b,
    ensures
        absi(tdiv(s, n)) <= b,
{
    lemma_tdiv_bound(s, n);
    lemma_div_is_ordered(absi(s), n * b, n);
    lemma_div_multiples_vanish(b, n);
}

/// Compute the mean (or "average") of multiple items.
///
/// Returns `None` exactly when the item sequence is empty: an absent
/// statistic is distinct from a zero-valued one.
///
/// **See also**: [`WeightedMean`]
pub trait Mean: Sized + Copy {
    /// The mathematical model of one value.
    type M;

    /// The model of this value.
    spec fn model(self) -> Self::M;

    /// The value lies within the scalar saturation range.
    spec fn wf_val(self) -> bool;

    /// The mean of a sequence of models: the exact sum, divided (truncating)
    /// by the item count; `None` for an empty sequence.
    spec fn mean_spec(s: Seq<Self::M>) -> Option<Self::M>;

    /// Consume a slice of values and compute their mean.
    fn mean(vals: &Vec<Self>) -> (r: Option<Self>)
        requires
            forall|i: int| 0 <= i < vals@.len() ==> (#[trigger] vals@[i]).wf_val(),
            vals@.len() <= MEAN_MAX_LEN,
        ensures
            (r is Some) <==> vals@.len() > 0,
            r matches Some(v) ==> Self::mean_spec(vals@.map_values(|x: Self| x.model()))
                == Some(v.model()) && v.wf_val();
}

/// Compute the weighted mean (or "average") of multiple items. The slice
/// holds pairs of `(value, weight)`; weights are non-negative fixed-point
/// scalars.
///
/// Returns `None` exactly when the total weight is zero (in particular for an
/// empty sequence): an absent statistic is distinct from a zero-valued one.
///
/// **See also**: [`Mean`]
pub trait WeightedMean: Mean {
    /// Total weight of a sequence of weighted models.
    spec fn wtot_spec(s: Seq<(Self::M, int)>) -> int;

    /// The weighted mean of a sequence of weighted models:
    /// `sum(value * weight) / sum(weight)` with truncating division, or
    /// `None` when the total weight is zero.
    spec fn weighted_mean_spec(s: Seq<(Self::M, int)>) -> Option<Self::M>;

    /// Consume a slice of `(value, weight)` pairs and compute the weighted mean.
    fn weighted_mean(pairs: &Vec<(Self, i64)>) -> (r: Option<Self>)
        requires
            forall|i: int| 0 <= i < pairs@.len() ==> (#[trigger] pairs@[i]).0.wf_val()
                && 0 <= pairs@[i].1 <= LIM,
            pairs@.len() <= MEAN_MAX_LEN,
        ensures
            (r is Some) <==> Self::wtot_spec(
                pairs@.map_values(|p: (Self, i64)| (p.0.model(), p.1 as int)),
            ) != 0,
            r matches Some(v) ==> Self::weighted_mean_spec(
                pairs@.map_values(|p: (Self, i64)| (p.0.model(), p.1 as int)),
            ) == Some(v.model()) && v.wf_val();
}

impl Mean for i64 {
    type M = int;

    open spec fn model(self) -> int {
        self as int
    }

    open spec fn wf_val(self) -> bool {
        -LIM <= self <= LIM
    }

    open spec fn mean_spec(s: Seq<int>) -> Option<int> {
        if s.len() == 0 {
            None
        } else {
            Some(tdiv(sum_i(s), s.len() as int))
        }
    }

    fn mean(vals: &Vec<i64>) -> (r: Option<i64>) {
        let ghost models = vals@.map_values(|x: i64| x.model());
        let n = vals.len();
        if n == 0 {
            return None;
        }
        let mut sum: i128 = 0;
        let mut i: usize = 0;
        while i < n
            invariant
                n == vals@.len() <= MEAN_MAX_LEN,
                i <= n,
                forall|j: int| 0 <= j < n ==> (#[trigger] vals@[j]).wf_val(),
                models == vals@.map_values(|x: i64| x.model()),
                sum == sum_i(models.take(i as int)),
                absi(sum as int) <= (i as int) * (LIM as int),
            decreases n - i,
        {
            proof {
                assert(models.take(i + 1).drop_last() == models.take(i as int));
                assert(models.take(i + 1).last() == models[i as int]);
                assert((i as int) * (LIM as int) <= (MEAN_MAX_LEN as int) * (LIM as int))
                    by (nonlinear_arith)
                    requires
                        0 <= i <= MEAN_MAX_LEN,
                ;
                assert((i + 1) * (LIM as int) == (i as int) * (LIM as int) + LIM)
                    by (nonlinear_arith);
            }
            sum = sum + (vals[i] as i128);
            i = i + 1;
        }
        proof {
            assert(models.take(n as int) == models);
            assert((n as int) * (LIM as int) <= (MEAN_MAX_LEN as int) * (LIM as int))
                by (nonlinear_arith)
                requires
                    0 < n <= MEAN_MAX_LEN,
            ;
            lemma_avg_bound(sum as int, n as int, LIM as int);
        }
        let q = tdiv128(sum, n as i128);
        Some(q as i64)
    }
}

impl WeightedMean for i64 {
    open spec fn wtot_spec(s: Seq<(int, int)>) -> int {
        wtot_i(s)
    }

    open spec fn weighted_mean_spec(s: Seq<(int, int)>) -> Option<int> {
        if wtot_i(s) == 0 {
            None
        } else {
            Some(tdiv(wsum_i(s), wtot_i(s)))
        }
    }

    fn weighted_mean(pairs: &Vec<(i64, i64)>) -> (r: Option<i64>) {
        let ghost pm = pairs@.map_values(|p: (i64, i64)| (p.0.model(), p.1 as int));
        let n = pairs.len();
        let mut ws: i128 = 0;
        let mut tw: i128 = 0;
        let mut i: usize = 0;
        while i < n
            invariant
                n == pairs@.len() <= MEAN_MAX_LEN,
                i <= n,
                forall|j: int| 0 <= j < n ==> (#[trigger] pairs@[j]).0.wf_val()
                    && 0 <= pairs@[j].1 <= LIM,
                pm == pairs@.map_values(|p: (i64, i64)| (p.0.model(), p.1 as int)),
                ws == wsum_i(pm.take(i as int)),
                tw == wtot_i(pm.take(i as int)),
                0 <= tw <= (i as int) * (LIM as int),
                absi(ws as int) <= (tw as int) * (LIM as int),
            decreases n - i,
        {
            proof {
                assert(pm.take(i + 1).drop_last() == pm.take(i as int));
                assert(pm.take(i + 1).last() == pm[i as int]);
                assert((i as int) * (LIM as int) <= (MEAN_MAX_LEN as int) * (LIM as int))
                    by (nonlinear_arith)
                    requires
                        0 <= i <= MEAN_MAX_LEN,
                ;
                assert((i + 1) * (LIM as int) == (i as int) * (LIM as int) + LIM)
                    by (nonlinear_arith);
                let v = pairs@[i as int].0 as int;
                let w = pairs@[i as int].1 as int;
                assert(absi(v * w) <= LIM * w) by (nonlinear_arith)
                    requires
                        -LIM <= v <= LIM,
                        0 <= w,
                ;
                assert((tw + w) * (LIM as int) == (tw as int) * (LIM as int) + w * LIM)
                    by (nonlinear_arith);
                assert(w * LIM == LIM * w) by (nonlinear_arith);
                assert((tw as int) * (LIM as int) <= ((MEAN_MAX_LEN as int) * (LIM as int))
                    * (LIM as int)) by (nonlinear_arith)
                    requires
                        0 <= tw <= (MEAN_MAX_LEN as int) * (LIM as int),
                ;
            }
            let (v, w) = pairs[i];
            ws = ws + (v as i128) * (w as i128);
            tw = tw + (w as i128);
            i = i + 1;
        }
        proof {
            assert(pm.take(n as int) == pm);
        }
        if tw == 0 {
            None
        } else {
            proof {
                assert((tw as int) * (LIM as int) == (LIM as int) * (tw as int))
                    by (nonlinear_arith);
                lemma_avg_bound(ws as int, tw as int, LIM as int);
            }
            let q = tdiv128(ws, tw);
            Some(q as i64)
        }
    }
}

impl Mean for Vec2 {
    type M = Vec2Model;

    open spec fn model(self) -> Vec2Model {
        self@
    }

    open spec fn wf_val(self) -> bool {
        vwf(self@)
    }

    open spec fn mean_spec(s: Seq<Vec2Model>) -> Option<Vec2Model> {
        if s.len() == 0 {
            None
        } else {
            Some(
                Vec2Model {
                    x: tdiv(sum_vx(s), s.len() as int),
                    y: tdiv(sum_vy(s), s.len() as int),
                },
            )
        }
    }

    fn mean(vals: &Vec<Vec2>) -> (r: Option<Vec2>) {
        let ghost models = vals@.map_values(|x: Vec2| x.model());
        let n = vals.len();
        if n == 0 {
            return None;
        }
        let mut sx: i128 = 0;
        let mut sy: i128 = 0;
        let mut i: usize = 0;
        while i < n
            invariant
                n == vals@.len() <= MEAN_MAX_LEN,
                i <= n,
                forall|j: int| 0 <= j < n ==> (#[trigger] vals@[j]).wf_val(),
                models == vals@.map_values(|x: Vec2| x.model()),
                sx == sum_vx(models.take(i as int)),
                sy == sum_vy(models.take(i as int)),
                absi(sx as int) <= (i as int) * (LIM as int),
                absi(sy as int) <= (i as int) * (LIM as int),
            decreases n - i,
        {
            proof {
                assert(models.take(i + 1).drop_last() == models.take(i as int));
                assert(models.take(i + 1).last() == models[i as int]);
                assert((i as int) * (LIM as int) <= (MEAN_MAX_LEN as int) * (LIM as int))
                    by (nonlinear_arith)
                    requires
                        0 <= i <= MEAN_MAX_LEN,
                ;
                assert((i + 1) * (LIM as int) == (i as int) * (LIM as int) + LIM)
                    by (nonlinear_arith);
            }
            let v = vals[i];
            sx = sx + (v.x as i128);
            sy = sy + (v.y as i128);
            i = i + 1;
        }
        proof {
            assert(models.take(n as int) == models);
            assert((n as int) * (LIM as int) <= (MEAN_MAX_LEN as int) * (LIM as int))
                by (nonlinear_arith)
                requires
                    0 < n <= MEAN_MAX_LEN,
            ;
            lemma_avg_bound(sx as int, n as int, LIM as int);
            lemma_avg_bound(sy as int, n as int, LIM as int);
        }
        let qx = tdiv128(sx, n as i128);
        let qy = tdiv128(sy, n as i128);
        Some(Vec2 { x: qx as i64, y: qy as i64 })
    }
}

impl WeightedMean for Vec2 {
    open spec fn wtot_spec(s: Seq<(Vec2Model, int)>) -> int {
        wtot_v(s)
    }

    open spec fn weighted_mean_spec(s: Seq<(Vec2Model, int)>) -> Option<Vec2Model> {
        if wtot_v(s) == 0 {
            None
        } else {
            Some(
                Vec2Model {
                    x: tdiv(wsum_vx(s), wtot_v(s)),
                    y: tdiv(wsum_vy(s), wtot_v(s)),
                },
            )
        }
    }

    fn weighted_mean(pairs: &Vec<(Vec2, i64)>) -> (r: Option<Vec2>) {
        let ghost pm = pairs@.map_values(|p: (Vec2, i64)| (p.0.model(), p.1 as int));
        let n = pairs.len();
        let mut wsx: i128 = 0;
        let mut wsy: i128 = 0;
        let mut tw: i128 = 0;
        let mut i: usize = 0;
        while i < n
            invariant
                n == pairs@.len() <= MEAN_MAX_LEN,
                i <= n,
                forall|j: int| 0 <= j < n ==> (#[trigger] pairs@[j]).0.wf_val()
                    && 0 <= pairs@[j].1 <= LIM,
                pm == pairs@.map_values(|p: (Vec2, i64)| (p.0.model(), p.1 as int)),
                wsx == wsum_vx(pm.take(i as int)),
                wsy == wsum_vy(pm.take(i as int)),
                tw == wtot_v(pm.take(i as int)),
                0 <= tw <= (i as int) * (LIM as int),
                absi(wsx as int) <= (tw as int) * (LIM as int),
                absi(wsy as int) <= (tw as int) * (LIM as int),
            decreases n - i,
        {
            proof {
                assert(pm.take(i + 1).drop_last() == pm.take(i as int));
                assert(pm.take(i + 1).last() == pm[i as int]);
                assert((i as int) * (LIM as int) <= (MEAN_MAX_LEN as int) * (LIM as int))
                    by (nonlinear_arith)
                    requires
                        0 <= i <= MEAN_MAX_LEN,
                ;
                assert((i + 1) * (LIM as int) == (i as int) * (LIM as int) + LIM)
                    by (nonlinear_arith);
                let vx = pairs@[i as int].0.x as int;
                let vy = pairs@[i as int].0.y as int;
                let w = pairs@[i as int].1 as int;
                assert(absi(vx * w) <= LIM * w && absi(vy * w) <= LIM * w)
                    by (nonlinear_arith)
                    requires
                        -LIM <= vx <= LIM,
                        -LIM <= vy <= LIM,
                        0 <= w,
                ;
                assert((tw + w) * (LIM as int) == (tw as int) * (LIM as int) + w * LIM)
                    by (nonlinear_arith);
                assert(w * LIM == LIM * w) by (nonlinear_arith);
                assert((tw as int) * (LIM as int) <= ((MEAN_MAX_LEN as int) * (LIM as int))
                    * (LIM as int)) by (nonlinear_arith)
                    requires
                        0 <= tw <= (MEAN_MAX_LEN as int) * (LIM as int),
                ;
            }
            let (v, w) = pairs[i];
            wsx = wsx + (v.x as i128) * (w as i128);
            wsy = wsy + (v.y as i128) * (w as i128);
            tw = tw + (w as i128);
            i = i + 1;
        }
        proof {
            assert(pm.take(n as int) == pm);
        }
        if tw == 0 {
            None
        } else {
            proof {
                assert((tw as int) * (LIM as int) == (LIM as int) * (tw as int))
                    by (nonlinear_arith);
                lemma_avg_bound(wsx as int, tw as int, LIM as int);
                lemma_avg_bound(wsy as int, tw as int, LIM as int);
            }
            let qx = tdiv128(wsx, tw);
            let qy = tdiv128(wsy, tw);
            Some(Vec2 { x: qx as i64, y: qy as i64 })
        }
    }
}

/// A fixed-point product of two non-negative scalars is non-negative and at
/// most the saturation bound.
pub proof fn lemma_fmul_nonneg(a: int, b: int)
    requires
        0 <= a,
        0 <= b,
    ensures
        0 <= fmul(a, b) <= LIM,
{
    assert(a * b >= 0) by (nonlinear_arith)
        requires
            0 <= a,
            0 <= b,
    ;
    lemma_tdiv_bound(a * b, SCALE as int);
}

/// Dividing by one changes nothing: `tdiv(v, 1) == v`.
proof fn lemma_tdiv_one(v: int)
    ensures
        tdiv(v, 1) == v,
{
    assert(v * 1 == v) by (nonlinear_arith);
    lemma_tdiv_cancel(v, 1);
}

/// The mean of no items is absent, and the mean of one item is that item.
pub proof fn lemma_mean_single(v: int)
    ensures
        <i64 as Mean>::mean_spec(Seq::empty()) is None,
        <i64 as Mean>::mean_spec(seq![v]) == Some(v),
{
    let s = seq![v];
    assert(s.drop_last() =~= Seq::<int>::empty());
    assert(sum_i(Seq::<int>::empty()) == 0);
    assert(sum_i(s) == sum_i(s.drop_last()) + s.last());
    assert(sum_i(s) == v);
    lemma_tdiv_one(v);
}

/// The mean of no vectors is absent, and the mean of one vector is that vector.
pub proof fn lemma_mean_single_vec(v: Vec2Model)
    ensures
        <Vec2 as Mean>::mean_spec(Seq::empty()) is None,
        <Vec2 as Mean>::mean_spec(seq![v]) == Some(v),
{
    let s = seq![v];
    assert(s.drop_last() =~= Seq::<Vec2Model>::empty());
    assert(sum_vx(Seq::<Vec2Model>::empty()) == 0);
    assert(sum_vy(Seq::<Vec2Model>::empty()) == 0);
    assert(sum_vx(s) == sum_vx(s.drop_last()) + s.last().x);
    assert(sum_vy(s) == sum_vy(s.drop_last()) + s.last().y);
    assert(sum_vx(s) == v.x && sum_vy(s) == v.y);
    lemma_tdiv_one(v.x);
    lemma_tdiv_one(v.y);
}

/// The weighted mean of one item with a positive weight is that item's value,
/// regardless of the weight.
pub proof fn lemma_weighted_mean_single(v: int, w: int)
    requires
        w > 0,
    ensures
        <i64 as WeightedMean>::weighted_mean_spec(Seq::empty()) is None,
        <i64 as WeightedMean>::weighted_mean_spec(seq![(v, w)]) == Some(v),
{
    let s = seq![(v, w)];
    assert(s.drop_last() =~= Seq::<(int, int)>::empty());
    assert(wsum_i(Seq::<(int, int)>::empty()) == 0);
    assert(wtot_i(Seq::<(int, int)>::empty()) == 0);
    assert(wsum_i(s) == wsum_i(s.drop_last()) + s.last().0 * s.last().1);
    assert(wtot_i(s) == wtot_i(s.drop_last()) + s.last().1);
    assert(wsum_i(s) == v * w);
    assert(wtot_i(s) == w);
    lemma_tdiv_cancel(v, w);
}

/// The weighted mean of two equal values under any two positive weights is
/// that value.
pub proof fn lemma_weighted_mean_equal_pair(v: int, w1: int, w2: int)
    requires
        w1 > 0,
        w2 > 0,
    ensures
        <i64 as WeightedMean>::weighted_mean_spec(seq![(v, w1), (v, w2)]) == Some(v),
{
    let s = seq![(v, w1), (v, w2)];
    let s1 = seq![(v, w1)];
    assert(s.drop_last() =~= s1);
    assert(s1.drop_last() =~= Seq::<(int, int)>::empty());
    assert(wsum_i(Seq::<(int, int)>::empty()) == 0);
    assert(wtot_i(Seq::<(int, int)>::empty()) == 0);
    assert(wsum_i(s1) == wsum_i(s1.drop_last()) + s1.last().0 * s1.last().1);
    assert(wtot_i(s1) == wtot_i(s1.drop_last()) + s1.last().1);
    assert(wsum_i(s) == wsum_i(s.drop_last()) + s.last().0 * s.last().1);
    assert(wtot_i(s) == wtot_i(s.drop_last()) + s.last().1);
    assert(wsum_i(s) == v * w1 + v * w2);
    assert(wtot_i(s) == w1 + w2);
    assert(v * w1 + v * w2 == v * (w1 + w2)) by (nonlinear_arith);
    lemma_tdiv_cancel(v, w1 + w2);
}

/// The weighted mean of two equal vectors under any two positive weights is
/// that vector.
pub proof fn lemma_weighted_mean_equal_pair_vec(v: Vec2Model, w1: int, w2: int)
    requires
        w1 > 0,
        w2 > 0,
    ensures
        <Vec2 as WeightedMean>::weighted_mean_spec(seq![(v, w1), (v, w2)]) == Some(v),
{
    let s = seq![(v, w1), (v, w2)];
    let s1 = seq![(v, w1)];
    assert(s.drop_last() =~= s1);
    assert(s1.drop_last() =~= Seq::<(Vec2Model, int)>::empty());
    assert(wsum_vx(Seq::<(Vec2Model, int)>::empty()) == 0);
    assert(wsum_vy(Seq::<(Vec2Model, int)>::empty()) == 0);
    assert(wtot_v(Seq::<(Vec2Model, int)>::empty()) == 0);
    assert(wsum_vx(s1) == wsum_vx(s1.drop_last()) + s1.last().0.x * s1.last().1);
    assert(wsum_vy(s1) == wsum_vy(s1.drop_last()) + s1.last().0.y * s1.last().1);
    assert(wtot_v(s1) == wtot_v(s1.drop_last()) + s1.last().1);
    assert(wsum_vx(s) == wsum_vx(s.drop_last()) + s.last().0.x * s.last().1);
    assert(wsum_vy(s) == wsum_vy(s.drop_last()) + s.last().0.y * s.last().1);
    assert(wtot_v(s) == wtot_v(s.drop_last()) + s.last().1);
    assert(wsum_vx(s) == v.x * w1 + v.x * w2);
    assert(wsum_vy(s) == v.y * w1 + v.y * w2);
    assert(wtot_v(s) == w1 + w2);
    assert(v.x * w1 + v.x * w2 == v.x * (w1 + w2)) by (nonlinear_arith);
    assert(v.y * w1 + v.y * w2 == v.y * (w1 + w2)) by (nonlinear_arith);
    lemma_tdiv_cancel(v.x, w1 + w2);
    lemma_tdiv_cancel(v.y, w1 + w2);
}

/// One fixed-point division step on a coordinate.
fn fp_div_component(a: i64, f: i64) -> (r: i64)
    requires
        f != 0,
    ensures
        r == clamped(tdiv(a as int * SCALE, f as int)),
{
    proof {
        lemma_mul_bound(a as int, SCALE as int, i64::MAX as int + 1, SCALE as int);
    }
    let p: i128 = (a as i128) * (SCALE as i128);
    if f > 0 {
        clamp128(tdiv128(p, f as i128))
    } else {
        let q = tdiv128(p, (-(f as i128)));
        proof {
            assert(tdiv(p as int, -(f as int)) == -tdiv(p as int, f as int));
        }
        clamp128(-q)
    }
}


/// A quarter turn times one quarter: pi/4 in fixed-point radians.
pub const QUARTER_PI_FP: i64 = 785398;

/// Tuning constant of the arctangent approximation (0.273 in fixed point).
pub const ATAN_K: i64 = 273000;

/// Bhaskara's sine approximation on the first half turn, for `a` in
/// `[0, PI_FP]`: `16 a (pi - a) / (5 pi^2 - 4 a (pi - a))`, scaled to `SCALE`.
pub open spec fn sin_half(a: int) -> int {
    let t = a * (PI_FP - a);
    tdiv(16 * t * SCALE, 5 * (PI_FP as int) * (PI_FP as int) - 4 * t)
}

/// Fixed-point sine of any angle, by reduction modulo a full turn.
pub open spec fn sin_fp_spec(a: int) -> int {
    let b = a % (TAU_FP as int);
    if b <= PI_FP {
        sin_half(b)
    } else {
        -sin_half(b - PI_FP)
    }
}

/// Fixed-point cosine: the sine a quarter turn ahead.
pub open spec fn cos_fp_spec(a: int) -> int {
    sin_fp_spec(a + HALF_PI_FP)
}

/// The half-turn sine approximation stays within `[0, SCALE]`.
proof fn lemma_sin_half_range(a: int)
    requires
        0 <= a <= PI_FP,
    ensures
        0 <= sin_half(a) <= SCALE,
{
    let p = PI_FP as int;
    let t = a * (p - a);
    let den = 5 * p * p - 4 * t;
    assert(0 <= t && 4 * t <= p * p) by (nonlinear_arith)
        requires
            0 <= a <= p,
            t == a * (p - a),
    ;
    assert(den >= 4 * p * p);
    assert(16 * t * SCALE <= den * SCALE) by (nonlinear_arith)
        requires
            4 * t <= p * p,
            den == 5 * p * p - 4 * t,
            SCALE > 0,
    ;
    assert(16 * t * SCALE >= 0) by (nonlinear_arith)
        requires
            t >= 0,
            SCALE > 0,
    ;
    lemma_tdiv_bound(16 * t * SCALE, den);
    lemma_div_is_ordered(16 * t * SCALE, den * SCALE, den);
    assert(den * SCALE == den * (SCALE as int)) by (nonlinear_arith);
    lemma_div_multiples_vanish(SCALE as int, den);
    assert(absi(16 * t * SCALE) == 16 * t * SCALE);
    assert(sin_half(a) == (16 * t * SCALE) / den);
    lemma_div_is_ordered(0, 16 * t * SCALE, den);
}

/// One evaluation of the half-turn sine approximation.
fn sin_half_exec(a: i64) -> (r: i64)
    requires
        0 <= a <= PI_FP,
    ensures
        r == sin_half(a as int),
        0 <= r <= SCALE,
{
    proof {
        lemma_sin_half_range(a as int);
        let p = PI_FP as int;
        assert(0 <= (a as int) * (p - a) && 4 * ((a as int) * (p - a)) <= p * p)
            by (nonlinear_arith)
            requires
                0 <= a as int <= p,
        ;
    }
    let t: i128 = (a as i128) * ((PI_FP - a) as i128);
    let num: i128 = 16 * t * (SCALE as i128);
    let den: i128 = 5 * (PI_FP as i128) * (PI_FP as i128) - 4 * t;
    let q = tdiv128(num, den);
    q as i64
}

/// Fixed-point sine. The result is the Bhaskara approximation of the sine of
/// `a` fixed-point radians, within `[-SCALE, SCALE]`.
pub fn sin_fp(a: i64) -> (r: i64)
    ensures
        r == sin_fp_spec(a as int),
        -SCALE <= r <= SCALE,
{
    let b = emod128(a as i128, TAU_FP as i128) as i64;
    if b <= PI_FP {
        sin_half_exec(b)
    } else {
        let q = sin_half_exec(b - PI_FP);
        -q
    }
}

/// Fixed-point cosine, within `[-SCALE, SCALE]`.
pub fn cos_fp(a: i64) -> (r: i64)
    ensures
        r == cos_fp_spec(a as int),
        -SCALE <= r <= SCALE,
{
    let b = emod128((a as i128) + (HALF_PI_FP as i128), TAU_FP as i128) as i64;
    proof {
        assert((a + HALF_PI_FP) % (TAU_FP as int) == b as int);
    }
    if b <= PI_FP {
        sin_half_exec(b)
    } else {
        let q = sin_half_exec(b - PI_FP);
        -q
    }
}

/// A vector from polar coordinates: `(radius * cos(angle), radius * sin(angle))`.
pub open spec fn from_polar_spec(angle: int, radius: int) -> Vec2Model {
    Vec2Model { x: fmul(radius, cos_fp_spec(angle)), y: fmul(radius, sin_fp_spec(angle)) }
}

/// Scaling by a factor of magnitude at most `SCALE` cannot grow a scalar:
/// `|fmul(a, b)| <= |a|` when `|b| <= SCALE`.
pub proof fn lemma_fmul_le(a: int, b: int)
    requires
        absi(b) <= SCALE,
    ensures
        absi(fmul(a, b)) <= absi(a),
{
    lemma_tdiv_bound(a * b, SCALE as int);
    assert(absi(a * b) == absi(a) * absi(b)) by (nonlinear_arith);
    assert(absi(a) * absi(b) <= absi(a) * (SCALE as int)) by (nonlinear_arith)
        requires
            0 <= absi(a),
            0 <= absi(b) <= SCALE,
    ;
    lemma_div_is_ordered(absi(a) * absi(b), absi(a) * (SCALE as int), SCALE as int);
    assert(absi(a) * (SCALE as int) == (SCALE as int) * absi(a)) by (nonlinear_arith);
    lemma_div_multiples_vanish(absi(a), SCALE as int);
}

/// A polar-built vector is never longer than twice the radius magnitude:
/// the sine and cosine approximations are unit-bounded, so each coordinate is
/// bounded by the radius.
pub proof fn lemma_from_polar_bounded(angle: int, radius: int)
    ensures
        0 <= vmag(from_polar_spec(angle, radius)) <= 2 * absi(radius),
        absi(from_polar_spec(angle, radius).x) <= absi(radius),
        absi(from_polar_spec(angle, radius).y) <= absi(radius),
{
    let v = from_polar_spec(angle, radius);
    let bs = angle % (TAU_FP as int);
    let bc = (angle + HALF_PI_FP) % (TAU_FP as int);
    if bs <= PI_FP {
        lemma_sin_half_range(bs);
    } else {
        lemma_sin_half_range(bs - PI_FP);
    }
    if bc <= PI_FP {
        lemma_sin_half_range(bc);
    } else {
        lemma_sin_half_range(bc - PI_FP);
    }
    assert(absi(sin_fp_spec(angle)) <= SCALE);
    assert(absi(cos_fp_spec(angle)) <= SCALE);
    lemma_fmul_le(radius, cos_fp_spec(angle));
    lemma_fmul_le(radius, sin_fp_spec(angle));
    let r = absi(radius);
    assert(v.x * v.x <= r * r && v.y * v.y <= r * r && v.x * v.x >= 0 && v.y * v.y >= 0)
        by (nonlinear_arith)
        requires
            absi(v.x) <= r,
            absi(v.y) <= r,
            0 <= r,
    ;
    lemma_isqrt_exists(magsq(v));
    let rm = sqrt_floor(magsq(v));
    assert(rm <= 2 * r) by (nonlinear_arith)
        requires
            0 <= rm,
            0 <= r,
            rm * rm <= magsq(v),
            magsq(v) == v.x * v.x + v.y * v.y,
            v.x * v.x <= r * r,
            v.y * v.y <= r * r,
    ;
}

/// The arctangent approximation on a first-octant ratio `z` in `[0, SCALE]`:
/// `(pi/4) z + 0.273 z (1 - z)` in fixed point.
pub open spec fn atan_unit(z: int) -> int {
    tdiv(
        z * (QUARTER_PI_FP as int) * (SCALE as int) + (ATAN_K as int) * z * ((SCALE as int) - z),
        (SCALE as int) * (SCALE as int),
    )
}

/// The first-octant arctangent stays within `[0, 853648]`, under a quarter
/// turn.
proof fn lemma_atan_unit_range(z: int)
    requires
        0 <= z <= SCALE,
    ensures
        0 <= atan_unit(z) <= 853648,
        atan_unit(z) < HALF_PI_FP,
{
    let sc = SCALE as int;
    let qp = QUARTER_PI_FP as int;
    let k = ATAN_K as int;
    let num = z * qp * sc + k * z * (sc - z);
    let den = sc * sc;
    assert(0 <= z * qp * sc && z * qp * sc <= qp * den) by (nonlinear_arith)
        requires
            0 <= z <= sc,
            qp > 0,
            den == sc * sc,
    ;
    assert(0 <= k * z * (sc - z) && 4 * (k * z * (sc - z)) <= k * den) by (nonlinear_arith)
        requires
            0 <= z <= sc,
            k > 0,
            den == sc * sc,
    ;
    assert(num <= 853648 * den) by (nonlinear_arith)
        requires
            num == z * qp * sc + k * z * (sc - z),
            z * qp * sc <= qp * den,
            4 * (k * z * (sc - z)) <= k * den,
            0 <= k * z * (sc - z),
            qp == 785398,
            k == 273000,
            den > 0,
    ;
    lemma_tdiv_bound(num, den);
    assert(absi(num) == num);
    lemma_div_is_ordered(num, 853648 * den, den);
    assert(853648 * den == den * 853648) by (nonlinear_arith);
    lemma_div_multiples_vanish(853648, den);
    lemma_div_is_ordered(0, num, den);
}

/// One evaluation of the first-octant arctangent approximation.
fn atan_unit_exec(z: i64) -> (r: i64)
    requires
        0 <= z <= SCALE,
    ensures
        r == atan_unit(z as int),
        0 <= r < HALF_PI_FP,
{
    proof {
        lemma_atan_unit_range(z as int);
    }
    let zq: i128 = (z as i128) * (QUARTER_PI_FP as i128) * (SCALE as i128);
    let kz: i128 = (ATAN_K as i128) * (z as i128);
    proof {
        lemma_mul_bound(kz as int, (SCALE - z) as int, 273000000000, 1000000);
        assert(0 <= (kz as int) * ((SCALE - z) as int)) by (nonlinear_arith)
            requires
                0 <= kz as int,
                0 <= (SCALE - z) as int,
        ;
    }
    let num: i128 = zq + kz * ((SCALE - z) as i128);
    let den: i128 = (SCALE as i128) * (SCALE as i128);
    let q = tdiv128(num, den);
    q as i64
}

/// The angle a vector makes with the positive x axis, measured
/// counter-clockwise, in `[-PI_FP, PI_FP]`; the zero vector maps to zero.
pub open spec fn angle_spec(v: Vec2Model) -> int {
    if v.x == 0 && v.y == 0 {
        0
    } else {
        let ax = absi(v.x);
        let ay = absi(v.y);
        let base = if ay <= ax {
            atan_unit(tdiv(ay * SCALE, ax))
        } else {
            HALF_PI_FP - atan_unit(tdiv(ax * SCALE, ay))
        };
        if v.x >= 0 && v.y >= 0 {
            base
        } else if v.x < 0 && v.y >= 0 {
            (PI_FP as int) - base
        } else if v.x < 0 {
            base - (PI_FP as int)
        } else {
            -base
        }
    }
}

impl Vec2 {
    /// Create a vector by converting polar coordinates into cartesian
    /// coordinates. Neither coordinate can exceed the radius in magnitude.
    pub fn from_polar(angle: i64, radius: i64) -> (r: Self)
        ensures
            r@ == from_polar_spec(angle as int, radius as int),
            absi(r@.x) <= absi(radius as int),
            absi(r@.y) <= absi(radius as int),
    {
        let c = cos_fp(angle);
        let s = sin_fp(angle);
        proof {
            lemma_fmul_le(radius as int, c as int);
            lemma_fmul_le(radius as int, s as int);
        }
        Vec2 { x: fp_mul(radius, c), y: fp_mul(radius, s) }
    }

    /// Calculate the angle this vector makes with the x-axis. Positive angles
    /// are measured counter-clockwise from the positive x-axis.
    pub fn angle(self) -> (r: i64)
        ensures
            r == angle_spec(self@),
            -PI_FP <= r <= PI_FP,
    {
        if self.x == 0 && self.y == 0 {
            return 0;
        }
        let ax: i128 = if self.x >= 0 {
            self.x as i128
        } else {
            -(self.x as i128)
        };
        let ay: i128 = if self.y >= 0 {
            self.y as i128
        } else {
            -(self.y as i128)
        };
        proof {
            assert(ax == absi(self@.x));
            assert(ay == absi(self@.y));
        }
        proof {
            lemma_mul_bound(ax as int, SCALE as int, 9223372036854775808, 1000000);
            lemma_mul_bound(ay as int, SCALE as int, 9223372036854775808, 1000000);
        }
        let base: i64 = if ay <= ax {
            let z = tdiv128(ay * (SCALE as i128), ax);
            proof {
                lemma_ratio_unit(ay as int, ax as int);
            }
            atan_unit_exec(z as i64)
        } else {
            let z = tdiv128(ax * (SCALE as i128), ay);
            proof {
                lemma_ratio_unit(ax as int, ay as int);
                lemma_atan_unit_range(tdiv(ax as int * SCALE, ay as int));
            }
            HALF_PI_FP - atan_unit_exec(z as i64)
        };
        if self.x >= 0 && self.y >= 0 {
            base
        } else if self.x < 0 && self.y >= 0 {
            PI_FP - base
        } else if self.x < 0 {
            base - PI_FP
        } else {
            -base
        }
    }
}

/// A first-octant ratio is a unit value: `0 <= tdiv(a * SCALE, b) <= SCALE`
/// when `0 <= a <= b` and `b > 0`.
proof fn lemma_ratio_unit(a: int, b: int)
    requires
        0 <= a <= b,
        0 < b,
    ensures
        0 <= tdiv(a * SCALE, b) <= SCALE,
{
    assert(0 <= a * SCALE) by (nonlinear_arith)
        requires
            0 <= a,
    ;
    lemma_tdiv_bound(a * SCALE, b);
    assert(a * SCALE <= b * SCALE) by (nonlinear_arith)
        requires
            0 <= a <= b,
    ;
    lemma_div_is_ordered(a * SCALE, b * SCALE, b);
    lemma_div_multiples_vanish(SCALE as int, b);
    lemma_div_is_ordered(0, a * SCALE, b);
}

/// A truncating quotient of a non-negative value by a positive divisor is
/// non-negative and no larger than the value.
pub proof fn lemma_tdiv_nonneg(a: int, b: int)
    requires
        0 <= a,
        0 < b,
    ensures
        0 <= tdiv(a, b) <= a,
{
    vstd::arithmetic::div_mod::lemma_div_pos_is_pos(a, b);
    lemma_div_is_ordered_by_denominator_local(a, b);
}

/// An integer square root exists for every non-negative integer, so
/// `sqrt_floor` is well defined.
pub proof fn lemma_isqrt_exists(n: int)
    requires
        0 <= n,
    ensures
        is_isqrt(n, sqrt_floor(n)),
    decreases n,
{
    if n == 0 {
        assert(is_isqrt(0, 0)) by (nonlinear_arith);
        assert(exists|r: int| is_isqrt(0, r));
    } else {
        lemma_isqrt_exists(n - 1);
        let r = sqrt_floor(n - 1);
        if (r + 1) * (r + 1) <= n {
            assert(n - 1 < (r + 1) * (r + 1));
            assert(is_isqrt(n, r + 1)) by (nonlinear_arith)
                requires
                    0 <= r,
                    (r + 1) * (r + 1) <= n,
                    n - 1 < (r + 1) * (r + 1),
            ;
            assert(exists|q: int| is_isqrt(n, q));
        } else {
            assert(is_isqrt(n, r)) by (nonlinear_arith)
                requires
                    0 <= r,
                    r * r <= n - 1,
                    n < (r + 1) * (r + 1),
            ;
            assert(exists|q: int| is_isqrt(n, q));
        }
    }
}

/// Clamping a vector whose magnitude is already within the limit leaves it
/// unchanged.
pub proof fn lemma_clamp_noop(v: Vec2Model, max: int)
    requires
        vmag(v) <= max,
    ensures
        vclamp(v, max) == v,
{
}

/// Clamping a vector whose magnitude exceeds the limit yields a vector whose
/// magnitude is at most the limit and misses it by at most four quanta
/// (lost to the coordinate truncations and the square root), with each
/// coordinate shrunk toward zero.
pub proof fn lemma_clamp_bound(v: Vec2Model, max: int)
    requires
        vwf(v),
        0 <= max < vmag(v),
    ensures
        max - 4 <= vmag(vclamp(v, max)) <= max,
        absi(vclamp(v, max).x) <= absi(v.x),
        absi(vclamp(v, max).y) <= absi(v.y),
{
    assert(0 <= v.x * v.x && 0 <= v.y * v.y) by (nonlinear_arith);
    lemma_isqrt_exists(magsq(v));
    let m = vmag(v);
    let c = vclamp(v, max);
    lemma_scale_down(v.x, max, m);
    lemma_scale_down(v.y, max, m);
    let fx = absi(c.x);
    let fy = absi(c.y);
    lemma_tdiv_bound(v.x * max, m);
    lemma_tdiv_bound(v.y * max, m);
    assert(absi(v.x * max) == absi(v.x) * max) by (nonlinear_arith)
        requires
            0 <= max,
    ;
    assert(absi(v.y * max) == absi(v.y) * max) by (nonlinear_arith)
        requires
            0 <= max,
    ;
    assert(fx * m <= absi(v.x) * max);
    assert(fy * m <= absi(v.y) * max);
    assert((fx * fx + fy * fy) * (m * m) <= (v.x * v.x + v.y * v.y) * (max * max))
        by (nonlinear_arith)
        requires
            0 <= fx,
            0 <= fy,
            0 < m,
            0 <= max,
            fx * m <= absi(v.x) * max,
            fy * m <= absi(v.y) * max,
    ;
    assert(v.x * v.x + v.y * v.y <= m * m + 2 * m) by (nonlinear_arith)
        requires
            v.x * v.x + v.y * v.y < (m + 1) * (m + 1),
            0 <= m,
    ;
    assert((fx * fx + fy * fy) * (m * m) <= (m * m + 2 * m) * (max * max))
        by (nonlinear_arith)
        requires
            (fx * fx + fy * fy) * (m * m) <= (v.x * v.x + v.y * v.y) * (max * max),
            v.x * v.x + v.y * v.y <= m * m + 2 * m,
            0 <= max,
    ;
    assert((m * m + 2 * m) * (max * max) <= (m * m) * (max * max + 2 * max))
        by (nonlinear_arith)
        requires
            0 <= max < m,
    ;
    assert(fx * fx + fy * fy <= max * max + 2 * max) by (nonlinear_arith)
        requires
            (fx * fx + fy * fy) * (m * m) <= (m * m) * (max * max + 2 * max),
            0 < m,
    ;
    assert(magsq(c) == fx * fx + fy * fy) by (nonlinear_arith)
        requires
            fx == absi(c.x),
            fy == absi(c.y),
    ;
    lemma_isqrt_exists(magsq(c));
    let rm = sqrt_floor(magsq(c));
    assert(rm <= max) by (nonlinear_arith)
        requires
            0 <= rm,
            0 <= max,
            rm * rm <= magsq(c),
            magsq(c) <= max * max + 2 * max,
    ;
    // Lower bound: each truncated coordinate loses less than one quantum of
    // the exact scaling, so the clamped squared magnitude stays above
    // max^2 - 4 max and the magnitude above max - 4.
    if max >= 4 {
        let ax = absi(v.x);
        let ay = absi(v.y);
        assert(ax * ax == v.x * v.x && ay * ay == v.y * v.y) by (nonlinear_arith)
            requires
                ax == absi(v.x),
                ay == absi(v.y),
        ;
        assert(v.x * v.x >= 0 && v.y * v.y >= 0) by (nonlinear_arith);
        assert(ax <= m && ay <= m) by (nonlinear_arith)
            requires
                0 <= ax,
                0 <= ay,
                0 <= m,
                ax * ax <= v.x * v.x + v.y * v.y,
                ay * ay <= v.x * v.x + v.y * v.y,
                v.x * v.x + v.y * v.y < (m + 1) * (m + 1),
        ;
        assert(fx * m >= ax * max - m && fy * m >= ay * max - m) by (nonlinear_arith)
            requires
                ax == absi(v.x),
                ay == absi(v.y),
                absi(v.x * max) == ax * max,
                absi(v.y * max) == ay * max,
                absi(v.x * max) < (fx + 1) * m,
                absi(v.y * max) < (fy + 1) * m,
        ;
        let tx = ax * max - m;
        let ty = ay * max - m;
        assert((fx * m) * (fx * m) + m * m >= tx * tx) by (nonlinear_arith)
            requires
                fx * m >= tx,
                fx * m >= 0,
                tx >= -m,
                m >= 1,
        ;
        assert((fy * m) * (fy * m) + m * m >= ty * ty) by (nonlinear_arith)
            requires
                fy * m >= ty,
                fy * m >= 0,
                ty >= -m,
                m >= 1,
        ;
        assert((fx * m) * (fx * m) == (fx * fx) * (m * m)) by (nonlinear_arith);
        assert((fy * m) * (fy * m) == (fy * fy) * (m * m)) by (nonlinear_arith);
        assert(tx * tx == (ax * ax) * (max * max) - 2 * ax * max * m + m * m) by (nonlinear_arith)
            requires
                tx == ax * max - m,
        ;
        assert(ty * ty == (ay * ay) * (max * max) - 2 * ay * max * m + m * m) by (nonlinear_arith)
            requires
                ty == ay * max - m,
        ;
        assert((ax * ax) * (max * max) + (ay * ay) * (max * max) >= (m * m) * (max * max))
            by (nonlinear_arith)
            requires
                ax * ax + ay * ay >= m * m,
                ax * ax == v.x * v.x,
                ay * ay == v.y * v.y,
                v.x * v.x + v.y * v.y >= m * m,
        ;
        assert(2 * ax * max * m + 2 * ay * max * m <= 4 * ((m * m) * max)) by (nonlinear_arith)
            requires
                0 <= ax <= m,
                0 <= ay <= m,
                0 <= max,
                0 <= m,
        ;
        assert((fx * fx + fy * fy) * (m * m) == (fx * fx) * (m * m) + (fy * fy) * (m * m))
            by (nonlinear_arith);
        assert((fx * fx + fy * fy) * (m * m) >= (m * m) * (max * max) - 4 * ((m * m) * max)
            - 2 * (m * m));
        assert(fx * fx + fy * fy >= max * max - 4 * max - 2) by (nonlinear_arith)
            requires
                (fx * fx + fy * fy) * (m * m) >= (m * m) * (max * max) - 4 * ((m * m) * max) - 2 * (
                m * m),
                m >= 1,
        ;
        assert(rm + 1 > max - 4) by (nonlinear_arith)
            requires
                magsq(c) < (rm + 1) * (rm + 1),
                magsq(c) >= max * max - 4 * max - 2,
                magsq(c) == fx * fx + fy * fy,
                0 <= rm,
                max >= 4,
        ;
    }
}

/// A fixed-point product of a non-positive and a non-negative scalar is
/// non-positive.
pub proof fn lemma_fmul_nonpos(a: int, b: int)
    requires
        a <= 0,
        0 <= b,
    ensures
        -LIM <= fmul(a, b) <= 0,
{
    assert(a * b <= 0) by (nonlinear_arith)
        requires
            a <= 0,
            0 <= b,
    ;
    lemma_tdiv_bound(a * b, SCALE as int);
}

/// The fixed-point product is odd in its first argument:
/// `fmul(-a, b) == -fmul(a, b)`.
pub proof fn lemma_fmul_neg(a: int, b: int)
    ensures
        fmul(-a, b) == -fmul(a, b),
{
    assert((-a) * b == -(a * b)) by (nonlinear_arith);
}

/// Scaling by a zero factor gives zero: `fmul(a, 0) == 0`.
pub proof fn lemma_fmul_zero(a: int)
    ensures
        fmul(a, 0) == 0,
{
    assert(a * 0 == 0) by (nonlinear_arith);
    assert(absi(0int) / (SCALE as int) == 0) by {
        lemma_div_multiples_vanish(0, SCALE as int);
        assert((SCALE as int) * 0 == 0) by (nonlinear_arith);
    }
}

/// A value and its fixed-point multiple by a non-negative factor never point
/// in opposite directions, and the product is at least one unit as soon as
/// `|a| * b` reaches one whole `SCALE`.
pub proof fn lemma_fmul_same_direction(a: int, b: int)
    requires
        0 <= b,
    ensures
        a * fmul(a, b) >= 0,
        absi(a) * b >= SCALE && fmul(a, b) > -LIM ==> a * fmul(a, b) >= absi(a),
{
    lemma_tdiv_bound(a * b, SCALE as int);
    assert(absi(a * b) == absi(a) * b) by (nonlinear_arith)
        requires
            0 <= b,
    ;
    let q = tdiv(a * b, SCALE as int);
    if a >= 0 {
        assert(a * b >= 0) by (nonlinear_arith)
            requires
                a >= 0,
                b >= 0,
        ;
        assert(q >= 0) by {
            lemma_div_is_ordered(0, absi(a * b), SCALE as int);
        }
        assert(a * clamped(q) >= 0) by (nonlinear_arith)
            requires
                a >= 0,
                clamped(q) >= 0,
        ;
    } else {
        assert(a * b <= 0) by (nonlinear_arith)
            requires
                a < 0,
                b >= 0,
        ;
        assert(q <= 0);
        assert(a * clamped(q) >= 0) by (nonlinear_arith)
            requires
                a < 0,
                clamped(q) <= 0,
        ;
    }
    if absi(a) * b >= SCALE && fmul(a, b) > -(LIM as int) {
        assert(absi(q) == absi(a * b) / (SCALE as int));
        assert(absi(a * b) / (SCALE as int) >= 1) by {
            lemma_div_is_ordered(SCALE as int, absi(a * b), SCALE as int);
            assert((SCALE as int) * 1 == SCALE as int) by (nonlinear_arith);
            lemma_div_multiples_vanish(1, SCALE as int);
        }
        assert(absi(fmul(a, b)) >= 1);
        assert(a * fmul(a, b) >= absi(a)) by (nonlinear_arith)
            requires
                a * fmul(a, b) >= 0,
                absi(fmul(a, b)) >= 1,
                fmul(a, b) == 0 ==> false,
    ;
    }
}

/// A fixed-point product is bounded by any `c` with `|a| * b <= c * SCALE`.
pub proof fn lemma_fmul_bound(a: int, b: int, c: int)
    requires
        0 <= b,
        0 <= c <= LIM,
        absi(a) * b <= c * SCALE,
    ensures
        absi(fmul(a, b)) <= c,
        fmul(a, b) == tdiv(a * b, SCALE as int),
{
    lemma_tdiv_bound(a * b, SCALE as int);
    assert(absi(a * b) == absi(a) * b) by (nonlinear_arith)
        requires
            0 <= b,
    ;
    lemma_div_is_ordered(absi(a * b), c * SCALE, SCALE as int);
    assert(c * SCALE == (SCALE as int) * c) by (nonlinear_arith);
    lemma_div_multiples_vanish(c, SCALE as int);
}

/// Scaling any vector by a zero factor gives the zero vector.
pub proof fn lemma_vmul_by_zero(v: Vec2Model)
    ensures
        vmul(v, 0) == vzero(),
{
    lemma_fmul_zero(v.x);
    lemma_fmul_zero(v.y);
}

} // verus!

