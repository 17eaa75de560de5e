use vstd::prelude::*;
use crate::geometry::Vec2;

verus! {

/// Bound on a vector component handed to the length operations.
pub const COMP_LIMIT: i64 = 0x1000_0000_0000_0000;

/// Bound on a target length handed to the length operations.
pub const LEN_LIMIT: i64 = 0x1000_0000_0000_0000;

/// `r` is the least non-negative integer whose square is at least `n`.
pub open spec fn is_ceil_sqrt(n: int, r: int) -> bool {
    &&& r >= 0
    &&& r * r >= n
    &&& (r == 0 || (r - 1) * (r - 1) < n)
}

/// The square root of `n`, rounded up.
pub open spec fn ceil_sqrt(n: int) -> int {
    choose|r: int| is_ceil_sqrt(n, r)
}

pub open spec fn abs(a: int) -> int {
    if a >= 0 {
        a
    } else {
        -a
    }
}

/// Integer division of `a` by `d > 0`, rounded toward zero.
pub open spec fn trunc_div(a: int, d: int) -> int {
    if a >= 0 {
        a / d
    } else {
        -((-a) / d)
    }
}

/// `v` scaled by `num / den`, each component rounded toward zero.
pub open spec fn scale(v: Vec2, num: int, den: int) -> Vec2 {
    Vec2 { x: trunc_div(v.x * num, den) as i64, y: trunc_div(v.y * num, den) as i64 }
}

/// `v` pointing the same way with signed length `len` (rounded toward zero);
/// a negative length points it the other way.
pub open spec fn with_length_spec(v: Vec2, len: int) -> Vec2 {
    scale(v, len, ceil_sqrt(v.len_sq()))
}

/// `v` if its length is at most `max`, else `v` cut down to length `max`.
pub open spec fn clamp_len(v: Vec2, max: int) -> Vec2 {
    if v.len_sq() <= max * max {
        v
    } else {
        with_length_spec(v, max)
    }
}

pub open spec fn comp_ok(v: Vec2) -> bool {
    -COMP_LIMIT <= v.x <= COMP_LIMIT && -COMP_LIMIT <= v.y <= COMP_LIMIT
}

proof fn lemma_square_monotone(a: int, b: int)
    requires
        0 <= a <= b,
    ensures
        a * a <= b * b,
{
    assert(a * a <= b * b) by (nonlinear_arith)
        requires
            0 <= a <= b,
    ;
}

/// The rounded-up square root is unique, so `ceil_sqrt` names it.
proof fn lemma_ceil_sqrt_unique(n: int, r: int)
    requires
        is_ceil_sqrt(n, r),
    ensures
        ceil_sqrt(n) == r,
{
    let c = ceil_sqrt(n);
    assert(is_ceil_sqrt(n, c));
    if c < r {
        lemma_square_monotone(c, r - 1);
    } else if r < c {
        lemma_square_monotone(r, c - 1);
    }
}

/// Rounded-up integer square root, by bisection.
pub fn ceil_sqrt_u128(n: u128) -> (r: u128)
    requires
        n <= 0x4000_0000_0000_0000_0000_0000_0000_0000,
    ensures
        is_ceil_sqrt(n as int, r as int),
        r as int == ceil_sqrt(n as int),
        r <= 0x8000_0000_0000_0000,
{
    // invariant: lo * lo < n <= hi * hi, or n == 0
    if n == 0 {
        proof {
            lemma_ceil_sqrt_unique(0, 0);
        }
        return 0;
    }
    let mut lo: u128 = 0;
    let mut hi: u128 = 0x8000_0000_0000_0000;
    assert(hi * hi == 0x4000_0000_0000_0000_0000_0000_0000_0000);
    while hi - lo > 1
        invariant
            0 < n <= 0x4000_0000_0000_0000_0000_0000_0000_0000,
            lo < hi <= 0x8000_0000_0000_0000,
            (lo * lo) < n <= hi * hi,
        decreases hi - lo,
    {
        let mid = lo + (hi - lo) / 2;
        proof {
            lemma_square_monotone(mid as int, 0x8000_0000_0000_0000);
        }
        if mid * mid < n {
            lo = mid;
        } else {
            hi = mid;
        }
    }
    proof {
        assert(lo == hi - 1);
        lemma_ceil_sqrt_unique(n as int, hi as int);
    }
    hi
}

/// Integer division rounding toward zero.
pub fn trunc_div_i128(a: i128, d: i128) -> (r: i128)
    requires
        d > 0,
        a > i128::MIN,
    ensures
        r == trunc_div(a as int, d as int),
{
    if a >= 0 {
        a / d
    } else {
        -((-a) / d)
    }
}

proof fn lemma_abs_le_root(c: int, n: int, l: int)
    requires
        l >= 0,
        c * c <= n,
        n <= l * l,
    ensures
        -l <= c <= l,
{
    if c > l {
        lemma_square_monotone(l, c);
        assert(l * l < c * c) by (nonlinear_arith)
            requires
                0 <= l < c,
        ;
    } else if c < -l {
        lemma_square_monotone(l, -c);
        assert(l * l < (-c) * (-c)) by (nonlinear_arith)
            requires
                0 <= l < -c,
        ;
        assert((-c) * (-c) == c * c) by (nonlinear_arith);
    }
}

/// One component scaled by `len / l`: its square is at most `(c * len / l)^2`,
/// and it is no longer than `len` when `|c| <= l`.
proof fn lemma_trunc_component(c: int, len: int, l: int)
    requires
        l > 0,
        -l <= c <= l,
    ensures
        trunc_div(c * len, l) * trunc_div(c * len, l) * (l * l) <= (c * c) * (len * len),
        trunc_div(c * len, l) * trunc_div(c * len, l) <= len * len,
{
    let p = c * len;
    let a = if p >= 0 { p } else { -p };
    let q = a / l;
    let al = if len >= 0 { len } else { -len };
    let ac = if c >= 0 { c } else { -c };
    assert(a == ac * al) by (nonlinear_arith)
        requires
            p == c * len,
            a == (if p >= 0 { p } else { -p }),
            al == (if len >= 0 { len } else { -len }),
            ac == (if c >= 0 { c } else { -c }),
    ;
    assert(q * l <= a && q >= 0) by (nonlinear_arith)
        requires
            l > 0,
            a >= 0,
            q == a / l,
    ;
    assert(ac * al <= l * al) by (nonlinear_arith)
        requires
            0 <= ac <= l,
            al >= 0,
    ;
    assert(q <= al) by (nonlinear_arith)
        requires
            q * l <= l * al,
            l > 0,
            q >= 0,
    ;
    assert(trunc_div(p, l) == q || trunc_div(p, l) == -q);
    assert(trunc_div(p, l) * trunc_div(p, l) == q * q) by (nonlinear_arith)
        requires
            trunc_div(p, l) == q || trunc_div(p, l) == -q,
    ;
    assert(q * q * (l * l) <= a * a) by (nonlinear_arith)
        requires
            0 <= q * l <= a,
            q >= 0,
            l > 0,
    ;
    assert(a * a == (c * c) * (len * len)) by (nonlinear_arith)
        requires
            a == ac * al,
            ac == (if c >= 0 { c } else { -c }),
            al == (if len >= 0 { len } else { -len }),
    ;
    assert(q * q <= len * len) by (nonlinear_arith)
        requires
            0 <= q <= al,
            al == (if len >= 0 { len } else { -len }),
    ;
}

/// Scaling by `len / l`, with `l` at least the length of `v`, gives a vector no
/// longer than `|len|`.
proof fn lemma_scaled_length(v: Vec2, len: int, l: int)
    requires
        l > 0,
        v.len_sq() <= l * l,
    ensures
        -l <= v.x <= l,
        -l <= v.y <= l,
        trunc_div(v.x * len, l) * trunc_div(v.x * len, l) + trunc_div(v.y * len, l)
            * trunc_div(v.y * len, l) <= len * len,
{
    let x = v.x as int;
    let y = v.y as int;
    assert(x * x >= 0 && y * y >= 0) by (nonlinear_arith);
    lemma_abs_le_root(x, l * l, l);
    lemma_abs_le_root(y, l * l, l);
    lemma_trunc_component(x, len, l);
    lemma_trunc_component(y, len, l);
    let qx = trunc_div(x * len, l);
    let qy = trunc_div(y * len, l);
    assert(qx * qx + qy * qy <= len * len) by (nonlinear_arith)
        requires
            qx * qx * (l * l) <= (x * x) * (len * len),
            qy * qy * (l * l) <= (y * y) * (len * len),
            x * x + y * y <= l * l,
            l > 0,
    ;
}

/// `v` turned into a vector of signed length `len` along the same line.
pub fn with_length(v: Vec2, len: i64) -> (r: Vec2)
    requires
        comp_ok(v),
        v.len_sq() > 0,
        -LEN_LIMIT <= len <= LEN_LIMIT,
    ensures
        r == with_length_spec(v, len as int),
        r.len_sq() <= len * len,
        -abs(len as int) <= r.x <= abs(len as int),
        -abs(len as int) <= r.y <= abs(len as int),
{
    let x = v.x as i128;
    let y = v.y as i128;
    proof {
        lemma_square_monotone(if x >= 0 { x as int } else { -x }, COMP_LIMIT as int);
        lemma_square_monotone(if y >= 0 { y as int } else { -y }, COMP_LIMIT as int);
        assert((-x) * (-x) == x * x) by (nonlinear_arith);
        assert((-y) * (-y) == y * y) by (nonlinear_arith);
    }
    let n: u128 = (x * x) as u128 + (y * y) as u128;
    let l = ceil_sqrt_u128(n) as i128;
    proof {
        lemma_scaled_length(v, len as int, l as int);
        let al = if len >= 0 { len as int } else { -len };
        assert(-(COMP_LIMIT * LEN_LIMIT) <= x * len <= COMP_LIMIT * LEN_LIMIT) by (nonlinear_arith)
            requires
                -COMP_LIMIT <= x <= COMP_LIMIT,
                -LEN_LIMIT <= len <= LEN_LIMIT,
        ;
        assert(-(COMP_LIMIT * LEN_LIMIT) <= y * len <= COMP_LIMIT * LEN_LIMIT) by (nonlinear_arith)
            requires
                -COMP_LIMIT <= y <= COMP_LIMIT,
                -LEN_LIMIT <= len <= LEN_LIMIT,
        ;
        lemma_trunc_component(x as int, len as int, l as int);
        lemma_trunc_component(y as int, len as int, l as int);
        assert(al * al == len * len) by (nonlinear_arith)
            requires
                al == (if len >= 0 { len as int } else { -len }),
        ;
        lemma_abs_le_root(trunc_div(x * len, l as int), len * len, al);
        lemma_abs_le_root(trunc_div(y * len, l as int), len * len, al);
    }
    let rx = trunc_div_i128(x * (len as i128), l);
    let ry = trunc_div_i128(y * (len as i128), l);
    Vec2 { x: rx as i64, y: ry as i64 }
}

/// `v` cut down to length `max` where it is longer.
pub fn clamp_length_max(v: Vec2, max: i64) -> (r: Vec2)
    requires
        comp_ok(v),
        0 <= max <= LEN_LIMIT,
    ensures
        r == clamp_len(v, max as int),
        r.len_sq() <= max * max,
{
    let x = v.x as i128;
    let y = v.y as i128;
    let m = max as i128;
    proof {
        lemma_square_monotone(if x >= 0 { x as int } else { -x }, COMP_LIMIT as int);
        lemma_square_monotone(if y >= 0 { y as int } else { -y }, COMP_LIMIT as int);
        lemma_square_monotone(max as int, LEN_LIMIT as int);
        assert((-x) * (-x) == x * x) by (nonlinear_arith);
        assert((-y) * (-y) == y * y) by (nonlinear_arith);
    }
    if x * x + y * y <= m * m {
        v
    } else {
        assert(max * max >= 0) by (nonlinear_arith);
        with_length(v, max)
    }
}

/// A vector no longer than `m` has components no larger than `m`.
pub proof fn lemma_clamped_bounded(v: Vec2, m: int)
    requires
        0 <= m,
        v.len_sq() <= m * m,
    ensures
        -m <= v.x <= m,
        -m <= v.y <= m,
{
    let x = v.x as int;
    let y = v.y as int;
    assert(x * x >= 0 && y * y >= 0) by (nonlinear_arith);
    assert(-m <= x <= m) by (nonlinear_arith)
        requires
            x * x <= m * m,
            m >= 0,
    ;
    assert(-m <= y <= m) by (nonlinear_arith)
        requires
            y * y <= m * m,
            m >= 0,
    ;
}

/// A mean of `n` values, each at most `m` in size, is at most `m` in size.
pub proof fn lemma_mean_bound(sum: int, n: int, m: int)
    requires
        n > 0,
        m >= 0,
        -(n * m) <= sum <= n * m,
    ensures
        -m <= trunc_div(sum, n) <= m,
{
    if sum >= 0 {
        assert(sum / n <= m) by (nonlinear_arith)
            requires
                n > 0,
                0 <= sum <= n * m,
        ;
        assert(sum / n >= 0) by (nonlinear_arith)
            requires
                n > 0,
                0 <= sum,
        ;
    } else {
        assert((-sum) / n <= m) by (nonlinear_arith)
            requires
                n > 0,
                0 <= -sum <= n * m,
        ;
        assert((-sum) / n >= 0) by (nonlinear_arith)
            requires
                n > 0,
                0 <= -sum,
        ;
    }
}

} // verus!
