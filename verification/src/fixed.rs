//! Fixed-point scale constants and the integer square root and base-two
//! logarithm used by the PUCT selection rule.

use vstd::prelude::*;

verus! {

/// Denominator of all fixed-point probabilities and values: a real quantity
/// `x` in `[0, 1]` is stored as the integer `x * VSCALE`.
pub const VSCALE: u64 = 10_000;

/// Denominator of a stored prior probability. Priors are kept at the finer
/// scale so that the one-time exploration-noise perturbation
/// `(1 - eps) * p + eps * d` stays an exact integer.
pub const PSCALE: u64 = VSCALE * VSCALE;

/// Largest accepted simulation budget for one move decision. The bound keeps
/// every statistic and every PUCT score inside machine integers.
pub const SIM_LIMIT: u64 = 1_000_000_000;

/// Floor of the base-two logarithm; `0` for arguments below `2`.
pub open spec fn log2_floor(n: int) -> int
    decreases n,
{
    if n <= 1 {
        0
    } else {
        1 + log2_floor(n / 2)
    }
}

/// Floor of the square root of a non-negative integer: the unique `r >= 0`
/// with `r * r <= n < (r + 1) * (r + 1)`.
pub open spec fn sqrt_floor(n: int) -> int {
    choose|r: int| 0 <= r && #[trigger] (r * r) <= n < (r + 1) * (r + 1)
}

/// The floor characterization determines the square root uniquely, so any
/// witness equals `sqrt_floor`.
pub proof fn lemma_sqrt_floor_unique(n: int, r: int)
    requires
        0 <= r,
        r * r <= n < (r + 1) * (r + 1),
    ensures
        sqrt_floor(n) == r,
{
    assert(exists|x: int| 0 <= x && #[trigger] (x * x) <= n < (x + 1) * (x + 1)) by {
        assert(0 <= r && r * r <= n < (r + 1) * (r + 1));
    }
    let c = sqrt_floor(n);
    assert(0 <= c && c * c <= n < (c + 1) * (c + 1));
    if c < r {
        assert((c + 1) * (c + 1) <= r * r) by (nonlinear_arith)
            requires 0 <= c, 0 <= r, c + 1 <= r;
    }
    if r < c {
        assert((r + 1) * (r + 1) <= c * c) by (nonlinear_arith)
            requires 0 <= c, 0 <= r, r + 1 <= c;
    }
}

/// Integer square root: the floor of the square root of `n`.
pub fn isqrt(n: u64) -> (r: u64)
    ensures
        r * r <= n < (r + 1) * (r + 1),
        r == sqrt_floor(n as int),
{
    let mut lo: u64 = 0;
    let mut hi: u64 = 4_294_967_296;
    assert(hi * hi > n);
    while hi - lo > 1
        invariant
            lo < hi <= 4_294_967_296,
            lo * lo <= n < hi * hi,
        decreases hi - lo,
    {
        let mid: u64 = lo + (hi - lo) / 2;
        assert(lo < mid < hi);
        assert((mid as int) * (mid as int) < 0x1_0000_0000_0000_0000) by (nonlinear_arith)
            requires mid < 4_294_967_296;
        if mid * mid <= n {
            lo = mid;
        } else {
            hi = mid;
        }
    }
    proof {
        lemma_sqrt_floor_unique(n as int, lo as int);
    }
    lo
}

/// Integer base-two logarithm: the floor of `log2(n)` for `n >= 1`.
pub fn ilog2(n: u64) -> (r: u64)
    requires
        n >= 1,
    ensures
        r == log2_floor(n as int),
        r <= 63,
{
    let mut x: u64 = n;
    let mut r: u64 = 0;
    proof {
        lemma_log2_floor_fits(n as int, 63);
        lemma_log2_floor_nonneg(n as int);
    }
    while x >= 2
        invariant
            1 <= x <= n,
            r + log2_floor(x as int) == log2_floor(n as int),
            log2_floor(n as int) <= 63,
            r <= log2_floor(n as int),
        decreases x,
    {
        assert(log2_floor(x as int) == 1 + log2_floor(x as int / 2));
        assert(x as int / 2 == (x / 2) as int);
        proof {
            lemma_log2_floor_nonneg(x as int / 2);
        }
        x = x / 2;
        r = r + 1;
    }
    assert(log2_floor(x as int) == 0);
    r
}

/// The base-two logarithm is never negative.
pub proof fn lemma_log2_floor_nonneg(n: int)
    ensures
        log2_floor(n) >= 0,
    decreases n,
{
    if n > 1 {
        lemma_log2_floor_nonneg(n / 2);
    }
}

/// A value below `2^(k + 1)` has base-two logarithm at most `k`.
pub proof fn lemma_log2_floor_le(n: int, k: int)
    requires
        0 <= k,
        n < pow2_int(k + 1),
    ensures
        log2_floor(n) <= k,
    decreases n,
{
    if n > 1 {
        assert(pow2_int(k + 1) == 2 * pow2_int(k));
        if k == 0 {
            assert(n < 2);
            assert(false);
        }
        lemma_log2_floor_le(n / 2, k - 1);
    }
}

/// Any value that fits in 64 bits has base-two logarithm at most `63`.
pub proof fn lemma_log2_floor_fits(n: int, k: int)
    requires
        n <= 0xffff_ffff_ffff_ffff,
        k == 63,
    ensures
        log2_floor(n) <= 63,
{
    assert(pow2_int(64) == 0x1_0000_0000_0000_0000) by {
        reveal_with_fuel(pow2_int, 65);
    }
    lemma_log2_floor_le(n, 63);
}

/// Two to a non-negative power.
pub open spec fn pow2_int(e: int) -> int
    decreases e,
{
    if e <= 0 {
        1
    } else {
        2 * pow2_int(e - 1)
    }
}

/// Sum of the entries of a sequence from position `i` on.
pub open spec fn sum_from(s: Seq<int>, i: int) -> int
    decreases s.len() - i,
{
    if i < 0 || i >= s.len() {
        0
    } else {
        s[i] + sum_from(s, i + 1)
    }
}

/// Sum of all entries of a sequence.
pub open spec fn sum_int(s: Seq<int>) -> int {
    sum_from(s, 0)
}

/// Tail sums of a pointwise linear combination are the linear combination of
/// the tail sums.
pub proof fn lemma_sum_from_linear(a: Seq<int>, b: Seq<int>, c: Seq<int>, x: int, y: int, i: int)
    requires
        a.len() == b.len(),
        c.len() == a.len(),
        forall|k: int| 0 <= k < c.len() ==> #[trigger] c[k] == x * a[k] + y * b[k],
        0 <= i <= c.len(),
    ensures
        sum_from(c, i) == x * sum_from(a, i) + y * sum_from(b, i),
    decreases c.len() - i,
{
    if i < c.len() {
        lemma_sum_from_linear(a, b, c, x, y, i + 1);
        assert(c[i] == x * a[i] + y * b[i]);
        assert(sum_from(c, i) == c[i] + sum_from(c, i + 1));
        assert(x * (a[i] + sum_from(a, i + 1)) == x * a[i] + x * sum_from(a, i + 1))
            by (nonlinear_arith);
        assert(y * (b[i] + sum_from(b, i + 1)) == y * b[i] + y * sum_from(b, i + 1))
            by (nonlinear_arith);
    }
}

/// Summing a pointwise linear combination `x * a[k] + y * b[k]` gives
/// `x * sum(a) + y * sum(b)`.
pub proof fn lemma_sum_linear_comb(a: Seq<int>, b: Seq<int>, c: Seq<int>, x: int, y: int)
    requires
        a.len() == b.len(),
        c.len() == a.len(),
        forall|k: int| 0 <= k < c.len() ==> #[trigger] c[k] == x * a[k] + y * b[k],
    ensures
        sum_int(c) == x * sum_int(a) + y * sum_int(b),
{
    lemma_sum_from_linear(a, b, c, x, y, 0);
}

/// Summing a pointwise multiple `x * a[k]` gives `x * sum(a)`.
pub proof fn lemma_sum_scale(a: Seq<int>, c: Seq<int>, x: int)
    requires
        c.len() == a.len(),
        forall|k: int| 0 <= k < c.len() ==> #[trigger] c[k] == x * a[k],
    ensures
        sum_int(c) == x * sum_int(a),
{
    assert(forall|k: int| 0 <= k < c.len() ==> #[trigger] c[k] == x * a[k] + 0 * a[k]);
    lemma_sum_linear_comb(a, a, c, x, 0);
}

} // verus!
