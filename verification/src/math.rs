use vstd::prelude::*;

verus! {

/// The sum of a sequence of values.
pub open spec fn sum_milli(s: Seq<int>) -> int
    decreases s.len(),
{
    if s.len() == 0 {
        0
    } else {
        sum_milli(s.drop_last()) + s.last()
    }
}

/// The sum of the squares of a sequence of values.
pub open spec fn sum_sq_milli(s: Seq<int>) -> int
    decreases s.len(),
{
    if s.len() == 0 {
        0
    } else {
        sum_sq_milli(s.drop_last()) + s.last() * s.last()
    }
}

/// `n` squared times the population variance of `s`: with `S` the sum and
/// `Q` the sum of squares over `n` values, this is `n * Q - S * S`.
pub open spec fn dispersion(s: Seq<int>) -> int {
    s.len() * sum_sq_milli(s) - sum_milli(s) * sum_milli(s)
}

/// A sum of values each bounded by `m` in magnitude is bounded by `n * m`.
pub proof fn lemma_sum_bounds(s: Seq<int>, m: int)
    requires
        m >= 0,
        forall|i: int| 0 <= i < s.len() ==> -m <= #[trigger] s[i] <= m,
    ensures
        -(s.len() * m) <= sum_milli(s) <= s.len() * m,
    decreases s.len(),
{
    if s.len() > 0 {
        let dl = s.drop_last();
        assert(forall|i: int| 0 <= i < dl.len() ==> -m <= #[trigger] dl[i] <= m);
        lemma_sum_bounds(dl, m);
        assert((s.len() - 1) * m + m == s.len() * m) by (nonlinear_arith);
    }
}

/// A sum of squares of values each bounded by `m` in magnitude lies
/// between zero and `n * m * m`.
pub proof fn lemma_sum_sq_bounds(s: Seq<int>, m: int)
    requires
        m >= 0,
        forall|i: int| 0 <= i < s.len() ==> -m <= #[trigger] s[i] <= m,
    ensures
        0 <= sum_sq_milli(s) <= s.len() * (m * m),
    decreases s.len(),
{
    if s.len() > 0 {
        let dl = s.drop_last();
        assert(forall|i: int| 0 <= i < dl.len() ==> -m <= #[trigger] dl[i] <= m);
        lemma_sum_sq_bounds(dl, m);
        let v = s.last();
        assert(0 <= v * v <= m * m) by (nonlinear_arith)
            requires
                -m <= v <= m,
        ;
        assert((s.len() - 1) * (m * m) + m * m == s.len() * (m * m)) by (nonlinear_arith);
    }
}

/// The sum of a constant sequence.
pub proof fn lemma_sum_constant(s: Seq<int>, v: int)
    requires
        forall|i: int| 0 <= i < s.len() ==> #[trigger] s[i] == v,
    ensures
        sum_milli(s) == s.len() * v,
    decreases s.len(),
{
    if s.len() == 0 {
    } else {
        let dl = s.drop_last();
        lemma_sum_constant(dl, v);
        assert((s.len() - 1) * v + v == s.len() * v) by (nonlinear_arith);
    }
}

/// The sum of squares of a constant sequence.
pub proof fn lemma_sum_sq_constant(s: Seq<int>, v: int)
    requires
        forall|i: int| 0 <= i < s.len() ==> #[trigger] s[i] == v,
    ensures
        sum_sq_milli(s) == s.len() * (v * v),
    decreases s.len(),
{
    if s.len() == 0 {
    } else {
        let dl = s.drop_last();
        lemma_sum_sq_constant(dl, v);
        assert((s.len() - 1) * (v * v) + v * v == s.len() * (v * v)) by (nonlinear_arith);
    }
}

/// A constant sequence has zero dispersion: its standard deviation is
/// zero.
pub proof fn lemma_constant_dispersion(s: Seq<int>, v: int)
    requires
        forall|i: int| 0 <= i < s.len() ==> #[trigger] s[i] == v,
    ensures
        dispersion(s) == 0,
{
    lemma_sum_constant(s, v);
    lemma_sum_sq_constant(s, v);
    assert(s.len() * (s.len() * (v * v)) - (s.len() * v) * (s.len() * v) == 0)
        by (nonlinear_arith);
}

/// Whether `r` is the integer square root of `x`, rounded down.
pub open spec fn is_floor_sqrt(x: int, r: int) -> bool {
    0 <= r && r * r <= x && x < (r + 1) * (r + 1)
}

/// The integer square root of `x`, rounded down.
pub open spec fn floor_sqrt(x: int) -> int {
    choose|r: int| is_floor_sqrt(x, r)
}

/// Every non-negative number has an integer square root.
pub proof fn lemma_floor_sqrt_exists(x: int)
    requires
        x >= 0,
    ensures
        exists|r: int| is_floor_sqrt(x, r),
    decreases x,
{
    if x == 0 {
        assert(is_floor_sqrt(0, 0));
    } else {
        let y = x - 1;
        lemma_floor_sqrt_exists(y);
        let r = choose|r: int| is_floor_sqrt(y, r);
        if (r + 1) * (r + 1) <= x {
            assert(x < (r + 2) * (r + 2)) by (nonlinear_arith)
                requires
                    0 <= r && x - 1 < (r + 1) * (r + 1),
            ;
            assert(is_floor_sqrt(x, r + 1));
        } else {
            assert(is_floor_sqrt(x, r));
        }
    }
}

/// The integer square root is the one number with its property.
pub proof fn lemma_floor_sqrt_unique(x: int, r: int)
    requires
        is_floor_sqrt(x, r),
    ensures
        floor_sqrt(x) == r,
{
    assert(exists|q: int| is_floor_sqrt(x, q));
    let q = floor_sqrt(x);
    assert(is_floor_sqrt(x, q));
    if q < r {
        assert((q + 1) * (q + 1) <= r * r) by (nonlinear_arith)
            requires
                0 <= q && q + 1 <= r,
        ;
    } else if r < q {
        assert((r + 1) * (r + 1) <= q * q) by (nonlinear_arith)
            requires
                0 <= r && r + 1 <= q,
        ;
    }
}

/// What `floor_sqrt` stands for, on every non-negative number.
pub proof fn lemma_floor_sqrt(x: int)
    requires
        x >= 0,
    ensures
        is_floor_sqrt(x, floor_sqrt(x)),
{
    lemma_floor_sqrt_exists(x);
}

/// Computes the integer square root, rounded down.
pub fn isqrt_u128(x: u128) -> (r: u64)
    ensures
        is_floor_sqrt(x as int, r as int),
        r as int == floor_sqrt(x as int),
{
    let mut lo: u128 = 0;
    let mut hi: u128 = 1u128 << 64;
    proof {
        assert((1u128 << 64) == 0x1_0000_0000_0000_0000u128) by (bit_vector);
        assert(x < 0x1_0000_0000_0000_0000 * 0x1_0000_0000_0000_0000) by (nonlinear_arith)
            requires
                x <= u128::MAX,
        ;
    }
    while lo + 1 < hi
        invariant
            0 <= lo < hi <= 0x1_0000_0000_0000_0000u128,
            lo * lo <= x,
            x < hi * hi,
        decreases hi - lo,
    {
        let mid = lo + (hi - lo) / 2;
        proof {
            assert(mid * mid <= (0x1_0000_0000_0000_0000u128 - 1) * (0x1_0000_0000_0000_0000u128
                - 1)) by (nonlinear_arith)
                requires
                    0 <= mid <= 0x1_0000_0000_0000_0000u128 - 1,
            ;
        }
        if mid * mid <= x {
            lo = mid;
        } else {
            hi = mid;
        }
    }
    proof {
        assert(hi == lo + 1);
        lemma_floor_sqrt_unique(x as int, lo as int);
    }
    lo as u64
}

/// Integer division that rounds toward zero, as the statistics snapshots
/// round.
pub open spec fn div_to_zero(a: int, b: int) -> int {
    if a >= 0 {
        a / b
    } else {
        -((-a) / b)
    }
}

} // verus!
