use vstd::prelude::*;

verus! {

/// Number of integer units that make one unit of normalized space.
pub const SCALE: i64 = 1_000_000;

/// A point or vector of normalized space, each component in millionths.
#[derive(Clone, Copy, Debug, PartialEq, Eq, Structural)]
pub struct Vec2 {
    pub x: i64,
    pub y: i64,
}

impl Vec2 {
    pub fn new(x: i64, y: i64) -> (r: Vec2)
        ensures
            r.x == x,
            r.y == y,
    {
        Vec2 { x, y }
    }
}

/// Division rounding toward zero, as machine integer division does.
pub open spec fn trunc_div(a: int, b: int) -> int {
    if a >= 0 {
        a / b
    } else {
        -((-a) / b)
    }
}

/// `a` clamped into the closed unit interval `[0, SCALE]`.
pub open spec fn clamp_unit(a: int) -> int {
    if a < 0 {
        0
    } else if a > SCALE {
        SCALE as int
    } else {
        a
    }
}

pub open spec fn abs(a: int) -> int {
    if a < 0 {
        -a
    } else {
        a
    }
}

/// `r` is the smallest natural number whose square reaches `n`.
pub open spec fn is_ceil_root(n: int, r: int) -> bool {
    &&& r >= 0
    &&& n <= r * r
    &&& (r == 0 || (r - 1) * (r - 1) < n)
}

/// The rounded-up square root of `n`.
pub open spec fn ceil_root(n: int) -> int {
    choose|r: int| is_ceil_root(n, r)
}

pub proof fn lemma_ceil_root_unique(n: int, r: int)
    requires
        is_ceil_root(n, r),
    ensures
        ceil_root(n) == r,
{
    let s = ceil_root(n);
    assert(is_ceil_root(n, s));
    if s < r {
        assert(s * s <= (r - 1) * (r - 1)) by (nonlinear_arith)
            requires
                0 <= s <= r - 1,
        ;
    } else if r < s {
        assert(r * r <= (s - 1) * (s - 1)) by (nonlinear_arith)
            requires
                0 <= r <= s - 1,
        ;
    }
}

/// Every natural number has a rounded-up square root.
pub proof fn lemma_ceil_root_exists(n: int)
    ensures
        exists|r: int| is_ceil_root(n, r),
    decreases
        if n > 0 { n } else { 0 },
{
    if n <= 0 {
        assert(is_ceil_root(n, 0));
    } else {
        // The root of n - 1 or one more than it is the root of n.
        lemma_ceil_root_exists(n - 1);
        let r = choose|r: int| #[trigger] is_ceil_root(n - 1, r);
        if n <= r * r {
            if r == 0 {
                assert(r * r == 0) by (nonlinear_arith)
                    requires
                        r == 0,
                ;
            }
            assert(is_ceil_root(n, r));
        } else {
            assert(r * r == n - 1) by (nonlinear_arith)
                requires
                    n - 1 <= r * r,
                    r * r < n,
            ;
            assert(n <= (r + 1) * (r + 1)) by (nonlinear_arith)
                requires
                    r * r == n - 1,
                    r >= 0,
            ;
            assert(is_ceil_root(n, r + 1));
        }
    }
}

/// Truncating division of `a` by a positive `b`.
pub fn div_toward_zero(a: i128, b: i128) -> (r: i128)
    requires
        b > 0,
        a > i128::MIN,
    ensures
        r == trunc_div(a as int, b as int),
        abs(r as int) <= abs(a as int),
        abs(r as int) * b <= abs(a as int),
{
    proof {
        lemma_trunc_div(a as int, b as int);
    }
    if a >= 0 {
        a / b
    } else {
        -((-a) / b)
    }
}

/// Truncating division shrinks magnitudes and keeps the sign.
pub proof fn lemma_trunc_div(a: int, b: int)
    requires
        b > 0,
    ensures
        abs(trunc_div(a, b)) <= abs(a),
        abs(trunc_div(a, b)) * b <= abs(a),
        a >= 0 ==> trunc_div(a, b) >= 0,
        a <= 0 ==> trunc_div(a, b) <= 0,
        trunc_div(-a, b) == -trunc_div(a, b),
{
    let m = abs(a);
    assert(0 <= m / b <= m && (m / b) * b <= m) by (nonlinear_arith)
        requires
            m >= 0,
            b > 0,
    ;
    if a == 0 {
        assert(0int / b == 0);
    }
}

/// The rounded-up integer square root of `n`.
pub fn ceil_sqrt(n: u128) -> (r: u64)
    requires
        n <= 0x100_0000_0000_0000_0000_0000_0000_0000u128,
    ensures
        is_ceil_root(n as int, r as int),
        ceil_root(n as int) == r,
{
    if n == 0 {
        proof {
            lemma_ceil_root_unique(0, 0);
        }
        return 0;
    }
    let mut lo: u64 = 0;
    let mut hi: u64 = 0x1000_0000_0000_0000;
    assert(n <= (hi as int) * (hi as int)) by (nonlinear_arith)
        requires
            hi == 0x1000_0000_0000_0000u64,
            n <= 0x100_0000_0000_0000_0000_0000_0000_0000u128,
    ;
    while hi - lo > 1
        invariant
            lo < hi <= 0x1000_0000_0000_0000u64,
            (lo as int) * (lo as int) < n,
            n <= (hi as int) * (hi as int),
        decreases hi - lo,
    {
        let mid: u64 = lo + (hi - lo) / 2;
        assert((mid as int) * (mid as int) <= 0x100_0000_0000_0000_0000_0000_0000_0000int)
            by (nonlinear_arith)
            requires
                0 <= mid <= 0x1000_0000_0000_0000int,
        ;
        let sq: u128 = (mid as u128) * (mid as u128);
        if sq >= n {
            hi = mid;
        } else {
            lo = mid;
        }
    }
    proof {
        lemma_ceil_root_unique(n as int, hi as int);
    }
    hi
}

} // verus!
