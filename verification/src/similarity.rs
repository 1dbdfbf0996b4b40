//! Exact similarity metrics over fixed-point embeddings.
//!
//! Embedding coordinates are scaled integers.  A cosine similarity
//! `dot(a,b) / (|a|*|b|)` is kept as the exact triple `(dot, |a|^2, |b|^2)`
//! instead of a rounded quotient, so equality with 1, equality with 0 and the
//! relative order of two scores against one query are all decided by exact
//! integer arithmetic.  Degenerate inputs (length mismatch, zero magnitude)
//! score as the canonical zero, keeping the hot path free of failures.

use vstd::prelude::*;

verus! {

/// Largest absolute value of an embedding coordinate.
pub const COORD_LIMIT: i64 = 10_000;

/// Largest embedding dimension the store accepts.
pub const DIM_LIMIT: usize = 32_768;

/// `DIM_LIMIT * COORD_LIMIT * COORD_LIMIT`: bound on any dot product or
/// squared magnitude of in-range embeddings.
pub const SIM_BOUND: i64 = 3_276_800_000_000;

/// All coordinates lie in `[-COORD_LIMIT, COORD_LIMIT]` and the vector is no
/// longer than `DIM_LIMIT`.  These bounds make every similarity comparison
/// free of overflow in 128-bit arithmetic.
pub open spec fn coords_ok(s: Seq<i64>) -> bool {
    &&& s.len() <= DIM_LIMIT
    &&& forall|i: int| 0 <= i < s.len() ==> -COORD_LIMIT <= #[trigger] s[i] <= COORD_LIMIT
}

/// Dot product of the first `n` coordinates of `a` and `b`.
pub open spec fn dot_to(a: Seq<i64>, b: Seq<i64>, n: int) -> int
    decreases n,
{
    if n <= 0 {
        0
    } else {
        dot_to(a, b, n - 1) + a[n - 1] * b[n - 1]
    }
}

/// Dot product of two equal-length vectors.
pub open spec fn spec_dot(a: Seq<i64>, b: Seq<i64>) -> int {
    dot_to(a, b, a.len() as int)
}

/// Squared Euclidean magnitude of a vector.
pub open spec fn spec_norm_sq(a: Seq<i64>) -> int {
    dot_to(a, a, a.len() as int)
}

/// An exact cosine-similarity score: `dot / sqrt(qq * vv)` held as the triple
/// of its integer parts.  `qq` is the squared magnitude of the query side and
/// `vv` of the stored side; the canonical zero score is `(0, 1, 1)`.
#[derive(Clone, Copy, Debug, PartialEq, Eq, Structural)]
pub struct Similarity {
    pub dot: i64,
    pub qq: i64,
    pub vv: i64,
}

/// The canonical zero score, returned for degenerate inputs.
pub open spec fn zero_sim() -> Similarity {
    Similarity { dot: 0, qq: 1, vv: 1 }
}

/// Well-formedness of a score produced by `cosine_similarity`.
pub open spec fn sim_inv(s: Similarity) -> bool {
    &&& 1 <= s.qq <= SIM_BOUND
    &&& 1 <= s.vv <= SIM_BOUND
    &&& -SIM_BOUND <= s.dot <= SIM_BOUND
}

/// The score of `b` against `a`: the exact triple, or the canonical zero when
/// the lengths differ or either magnitude is zero.
pub open spec fn spec_cosine(a: Seq<i64>, b: Seq<i64>) -> Similarity {
    if a.len() != b.len() || spec_norm_sq(a) == 0 || spec_norm_sq(b) == 0 {
        zero_sim()
    } else {
        Similarity { dot: spec_dot(a, b) as i64, qq: spec_norm_sq(a) as i64, vv: spec_norm_sq(b) as i64 }
    }
}

/// The score equals exactly 1: positive dot product with `dot^2 == qq * vv`.
pub open spec fn sim_is_one(s: Similarity) -> bool {
    s.dot > 0 && s.dot * s.dot == s.qq * s.vv
}

/// The score equals exactly 0.
pub open spec fn sim_is_zero(s: Similarity) -> bool {
    s.dot == 0
}

proof fn lemma_dot_bound(a: Seq<i64>, b: Seq<i64>, n: int)
    requires
        coords_ok(a),
        coords_ok(b),
        0 <= n <= a.len(),
        n <= b.len(),
    ensures
        -(n * COORD_LIMIT * COORD_LIMIT) <= dot_to(a, b, n) <= n * COORD_LIMIT * COORD_LIMIT,
    decreases n,
{
    if n > 0 {
        lemma_dot_bound(a, b, n - 1);
        assert(-COORD_LIMIT <= a[n - 1] <= COORD_LIMIT);
        assert(-COORD_LIMIT <= b[n - 1] <= COORD_LIMIT);
        assert(-(COORD_LIMIT * COORD_LIMIT) <= a[n - 1] * b[n - 1] <= COORD_LIMIT * COORD_LIMIT)
            by (nonlinear_arith)
            requires
                -COORD_LIMIT <= a[n - 1] <= COORD_LIMIT,
                -COORD_LIMIT <= b[n - 1] <= COORD_LIMIT,
        ;
        assert((n - 1) * COORD_LIMIT * COORD_LIMIT + COORD_LIMIT * COORD_LIMIT
            == n * COORD_LIMIT * COORD_LIMIT) by (nonlinear_arith);
    }
}

/// Partial self-dot-products are non-negative and monotone in `n`.
proof fn lemma_norm_nonneg(a: Seq<i64>, n: int)
    requires
        0 <= n <= a.len(),
    ensures
        0 <= dot_to(a, a, n),
        forall|m: int| 0 <= m <= n ==> #[trigger] dot_to(a, a, m) <= dot_to(a, a, n),
    decreases n,
{
    if n > 0 {
        lemma_norm_nonneg(a, n - 1);
        assert(0 <= a[n - 1] * a[n - 1]) by (nonlinear_arith);
    }
}

/// A vector with a nonzero coordinate has a positive squared magnitude.
pub proof fn lemma_nonzero_norm(a: Seq<i64>, i: int)
    requires
        0 <= i < a.len(),
        a[i] != 0,
    ensures
        spec_norm_sq(a) > 0,
{
    lemma_norm_nonneg(a, i as int);
    assert(a[i] * a[i] >= 1) by (nonlinear_arith)
        requires a[i] != 0,
    ;
    assert(dot_to(a, a, i + 1) >= 1);
    lemma_norm_nonneg(a, a.len() as int);
    assert(dot_to(a, a, i + 1) <= dot_to(a, a, a.len() as int));
}

/// The score of any nonzero vector against itself is exactly 1.
pub proof fn lemma_cosine_self(a: Seq<i64>)
    requires
        coords_ok(a),
        exists|i: int| 0 <= i < a.len() && a[i] != 0,
    ensures
        sim_is_one(spec_cosine(a, a)),
{
    let i = choose|i: int| 0 <= i < a.len() && a[i] != 0;
    lemma_nonzero_norm(a, i);
    lemma_norm_nonneg(a, a.len() as int);
    lemma_dot_bound(a, a, a.len() as int);
    assert(a.len() * COORD_LIMIT * COORD_LIMIT <= SIM_BOUND) by (nonlinear_arith)
        requires a.len() <= DIM_LIMIT,
    ;
    assert(spec_dot(a, a) == spec_norm_sq(a));
    let s = spec_cosine(a, a);
    assert(s.dot == s.qq && s.dot == s.vv && s.dot > 0);
    assert(s.dot * s.dot == s.qq * s.vv);
}

/// Two vectors with a zero dot product score exactly 0.
pub proof fn lemma_cosine_orthogonal(a: Seq<i64>, b: Seq<i64>)
    requires
        a.len() == b.len() ==> spec_dot(a, b) == 0,
    ensures
        sim_is_zero(spec_cosine(a, b)),
{
}

/// Scores of in-range vectors are always well-formed.
pub proof fn lemma_cosine_inv(a: Seq<i64>, b: Seq<i64>)
    requires
        coords_ok(a),
        coords_ok(b),
    ensures
        sim_inv(spec_cosine(a, b)),
{
    if a.len() == b.len() && spec_norm_sq(a) != 0 && spec_norm_sq(b) != 0 {
        lemma_dot_bound(a, a, a.len() as int);
        lemma_dot_bound(b, b, b.len() as int);
        lemma_dot_bound(a, b, a.len() as int);
        lemma_norm_nonneg(a, a.len() as int);
        lemma_norm_nonneg(b, b.len() as int);
        assert(a.len() * COORD_LIMIT * COORD_LIMIT <= SIM_BOUND) by (nonlinear_arith)
            requires a.len() <= DIM_LIMIT,
        ;
        assert(b.len() * COORD_LIMIT * COORD_LIMIT <= SIM_BOUND) by (nonlinear_arith)
            requires b.len() <= DIM_LIMIT,
        ;
    }
}

/// Computes the exact cosine-similarity score of `b` against `a`.
pub fn cosine_similarity(a: &Vec<i64>, b: &Vec<i64>) -> (r: Similarity)
    requires
        coords_ok(a@),
        coords_ok(b@),
    ensures
        r == spec_cosine(a@, b@),
        sim_inv(r),
{
    proof {
        lemma_dot_bound(a@, a@, a@.len() as int);
        lemma_norm_nonneg(a@, a@.len() as int);
        assert(a@.len() * COORD_LIMIT * COORD_LIMIT <= SIM_BOUND) by (nonlinear_arith)
            requires a@.len() <= DIM_LIMIT,
        ;
    }
    if a.len() != b.len() {
        return Similarity { dot: 0, qq: 1, vv: 1 };
    }
    proof {
        lemma_dot_bound(b@, b@, b@.len() as int);
        lemma_norm_nonneg(b@, b@.len() as int);
        lemma_dot_bound(a@, b@, a@.len() as int);
    }
    let n = a.len();
    let mut dot: i64 = 0;
    let mut qq: i64 = 0;
    let mut vv: i64 = 0;
    let mut i: usize = 0;
    while i < n
        invariant
            a@.len() == n,
            b@.len() == n,
            0 <= i <= n,
            coords_ok(a@),
            coords_ok(b@),
            dot == dot_to(a@, b@, i as int),
            qq == dot_to(a@, a@, i as int),
            vv == dot_to(b@, b@, i as int),
        decreases n - i,
    {
        proof {
            lemma_dot_bound(a@, b@, i as int);
            lemma_dot_bound(a@, a@, i as int);
            lemma_dot_bound(b@, b@, i as int);
            lemma_dot_bound(a@, b@, i + 1);
            lemma_dot_bound(a@, a@, i + 1);
            lemma_dot_bound(b@, b@, i + 1);
            assert((i + 1) * COORD_LIMIT * COORD_LIMIT <= SIM_BOUND) by (nonlinear_arith)
                requires i + 1 <= DIM_LIMIT,
            ;
            assert(i as int * COORD_LIMIT * COORD_LIMIT <= SIM_BOUND) by (nonlinear_arith)
                requires i <= DIM_LIMIT,
            ;
            assert(-(COORD_LIMIT * COORD_LIMIT) <= a@[i as int] * b@[i as int]
                <= COORD_LIMIT * COORD_LIMIT) by (nonlinear_arith)
                requires
                    -COORD_LIMIT <= a@[i as int] <= COORD_LIMIT,
                    -COORD_LIMIT <= b@[i as int] <= COORD_LIMIT,
            ;
            assert(-(COORD_LIMIT * COORD_LIMIT) <= a@[i as int] * a@[i as int]
                <= COORD_LIMIT * COORD_LIMIT) by (nonlinear_arith)
                requires -COORD_LIMIT <= a@[i as int] <= COORD_LIMIT,
            ;
            assert(-(COORD_LIMIT * COORD_LIMIT) <= b@[i as int] * b@[i as int]
                <= COORD_LIMIT * COORD_LIMIT) by (nonlinear_arith)
                requires -COORD_LIMIT <= b@[i as int] <= COORD_LIMIT,
            ;
        }
        dot = dot + a[i] * b[i];
        qq = qq + a[i] * a[i];
        vv = vv + b[i] * b[i];
        i = i + 1;
    }
    if qq == 0 || vv == 0 {
        Similarity { dot: 0, qq: 1, vv: 1 }
    } else {
        Similarity { dot, qq, vv }
    }
}

/// Sign of a score: the sign of its dot product.
pub open spec fn spec_sign(d: int) -> int {
    if d > 0 {
        1
    } else if d < 0 {
        -1
    } else {
        0
    }
}

/// `x` scores no higher than `y`, for two scores taken against the same
/// query (equal `qq`, or the canonical zero).  Signs decide first; scores of
/// equal sign compare by exact cross-multiplication of `dot^2` with the
/// opposite squared magnitude, which never divides and never rounds.
pub open spec fn rank_le(x: Similarity, y: Similarity) -> bool {
    if spec_sign(x.dot as int) != spec_sign(y.dot as int) {
        spec_sign(x.dot as int) < spec_sign(y.dot as int)
    } else if x.dot > 0 {
        x.dot * x.dot * y.vv <= y.dot * y.dot * x.vv
    } else if x.dot < 0 {
        x.dot * x.dot * y.vv >= y.dot * y.dot * x.vv
    } else {
        true
    }
}

/// `x` scores strictly lower than `y`.
pub open spec fn rank_lt(x: Similarity, y: Similarity) -> bool {
    !rank_le(y, x)
}

/// `x` and `y` have exactly equal scores.
pub open spec fn rank_eq(x: Similarity, y: Similarity) -> bool {
    rank_le(x, y) && rank_le(y, x)
}

/// `rank_le` is reflexive and total.
pub proof fn lemma_rank_le_total(x: Similarity, y: Similarity)
    ensures
        rank_le(x, x),
        rank_le(x, y) || rank_le(y, x),
{
}

/// Cross-multiplication transitivity over positive denominators.
proof fn lemma_cross_trans_le(sx: int, sy: int, sz: int, vx: int, vy: int, vz: int)
    requires
        vx >= 1,
        vy >= 1,
        vz >= 1,
        sx * vy <= sy * vx,
        sy * vz <= sz * vy,
    ensures
        sx * vz <= sz * vx,
{
    assert(sx * vz * vy <= sz * vx * vy) by (nonlinear_arith)
        requires
            vx >= 1,
            vy >= 1,
            vz >= 1,
            sx * vy <= sy * vx,
            sy * vz <= sz * vy,
    ;
    assert(sx * vz <= sz * vx) by (nonlinear_arith)
        requires
            sx * vz * vy <= sz * vx * vy,
            vy >= 1,
    ;
}

/// `rank_le` is transitive on well-formed scores.
pub proof fn lemma_rank_le_trans(x: Similarity, y: Similarity, z: Similarity)
    requires
        sim_inv(x),
        sim_inv(y),
        sim_inv(z),
        rank_le(x, y),
        rank_le(y, z),
    ensures
        rank_le(x, z),
{
    let sx = spec_sign(x.dot as int);
    let sy = spec_sign(y.dot as int);
    let sz = spec_sign(z.dot as int);
    if sx == sy && sy == sz {
        if x.dot > 0 {
            lemma_cross_trans_le(
                x.dot * x.dot, y.dot * y.dot, z.dot * z.dot, x.vv as int, y.vv as int, z.vv as int,
            );
        } else if x.dot < 0 {
            lemma_cross_trans_le(
                z.dot * z.dot, y.dot * y.dot, x.dot * x.dot, z.vv as int, y.vv as int, x.vv as int,
            );
        }
    }
}

/// Decides `rank_le` executably, in 128-bit arithmetic.
pub fn rank_le_exec(x: &Similarity, y: &Similarity) -> (r: bool)
    requires
        sim_inv(*x),
        sim_inv(*y),
    ensures
        r == rank_le(*x, *y),
{
    proof {
        assert(0 <= x.dot * x.dot <= SIM_BOUND * SIM_BOUND) by (nonlinear_arith)
            requires -SIM_BOUND <= x.dot <= SIM_BOUND,
        ;
        assert(0 <= y.dot * y.dot <= SIM_BOUND * SIM_BOUND) by (nonlinear_arith)
            requires -SIM_BOUND <= y.dot <= SIM_BOUND,
        ;
        assert(-(SIM_BOUND * SIM_BOUND * SIM_BOUND) <= x.dot * x.dot * y.vv
            <= SIM_BOUND * SIM_BOUND * SIM_BOUND) by (nonlinear_arith)
            requires
                -SIM_BOUND <= x.dot <= SIM_BOUND,
                1 <= y.vv <= SIM_BOUND,
        ;
        assert(-(SIM_BOUND * SIM_BOUND * SIM_BOUND) <= y.dot * y.dot * x.vv
            <= SIM_BOUND * SIM_BOUND * SIM_BOUND) by (nonlinear_arith)
            requires
                -SIM_BOUND <= y.dot <= SIM_BOUND,
                1 <= x.vv <= SIM_BOUND,
        ;
    }
    let sx: i64 = if x.dot > 0 { 1 } else if x.dot < 0 { -1 } else { 0 };
    let sy: i64 = if y.dot > 0 { 1 } else if y.dot < 0 { -1 } else { 0 };
    if sx != sy {
        sx < sy
    } else if sx == 1 {
        let xc: i128 = (x.dot as i128) * (x.dot as i128) * (y.vv as i128);
        let yc: i128 = (y.dot as i128) * (y.dot as i128) * (x.vv as i128);
        xc <= yc
    } else if sx == -1 {
        let xc: i128 = (x.dot as i128) * (x.dot as i128) * (y.vv as i128);
        let yc: i128 = (y.dot as i128) * (y.dot as i128) * (x.vv as i128);
        xc >= yc
    } else {
        true
    }
}

/// Sum of squared coordinate differences over the first `n` positions.
pub open spec fn dist_sq_to(a: Seq<i64>, b: Seq<i64>, n: int) -> int
    decreases n,
{
    if n <= 0 {
        0
    } else {
        dist_sq_to(a, b, n - 1) + (a[n - 1] - b[n - 1]) * (a[n - 1] - b[n - 1])
    }
}

/// Squared Euclidean distance of two equal-length vectors.
pub open spec fn spec_dist_sq(a: Seq<i64>, b: Seq<i64>) -> int {
    dist_sq_to(a, b, a.len() as int)
}

proof fn lemma_dist_sq_bound(a: Seq<i64>, b: Seq<i64>, n: int)
    requires
        coords_ok(a),
        coords_ok(b),
        0 <= n <= a.len(),
        n <= b.len(),
    ensures
        0 <= dist_sq_to(a, b, n) <= n * (4 * COORD_LIMIT * COORD_LIMIT),
    decreases n,
{
    if n > 0 {
        lemma_dist_sq_bound(a, b, n - 1);
        assert(0 <= (a[n - 1] - b[n - 1]) * (a[n - 1] - b[n - 1])
            <= 4 * COORD_LIMIT * COORD_LIMIT) by (nonlinear_arith)
            requires
                -COORD_LIMIT <= a[n - 1] <= COORD_LIMIT,
                -COORD_LIMIT <= b[n - 1] <= COORD_LIMIT,
        ;
        assert((n - 1) * (4 * COORD_LIMIT * COORD_LIMIT) + 4 * COORD_LIMIT * COORD_LIMIT
            == n * (4 * COORD_LIMIT * COORD_LIMIT)) by (nonlinear_arith);
    }
}

/// Squared Euclidean distance, exact in integers.  Comparing two distances to
/// a common point orders identically to the true Euclidean distance.  A
/// length mismatch yields the documented sentinel `u64::MAX`, which is
/// strictly larger than any achievable squared distance.
pub fn euclidean_distance(a: &Vec<i64>, b: &Vec<i64>) -> (r: u64)
    requires
        coords_ok(a@),
        coords_ok(b@),
    ensures
        a@.len() != b@.len() ==> r == u64::MAX,
        a@.len() == b@.len() ==> r == spec_dist_sq(a@, b@) && r < u64::MAX,
{
    if a.len() != b.len() {
        return u64::MAX;
    }
    let n = a.len();
    proof {
        lemma_dist_sq_bound(a@, b@, n as int);
        assert(n * (4 * COORD_LIMIT * COORD_LIMIT) < u64::MAX) by (nonlinear_arith)
            requires n <= DIM_LIMIT,
        ;
    }
    let mut acc: u64 = 0;
    let mut i: usize = 0;
    while i < n
        invariant
            a@.len() == n,
            b@.len() == n,
            0 <= i <= n,
            coords_ok(a@),
            coords_ok(b@),
            acc == dist_sq_to(a@, b@, i as int),
        decreases n - i,
    {
        proof {
            lemma_dist_sq_bound(a@, b@, i as int);
            lemma_dist_sq_bound(a@, b@, i + 1);
            assert((i + 1) * (4 * COORD_LIMIT * COORD_LIMIT) < u64::MAX) by (nonlinear_arith)
                requires i + 1 <= DIM_LIMIT,
            ;
            assert(0 <= (a@[i as int] - b@[i as int]) * (a@[i as int] - b@[i as int])
                <= 4 * COORD_LIMIT * COORD_LIMIT) by (nonlinear_arith)
                requires
                    -COORD_LIMIT <= a@[i as int] <= COORD_LIMIT,
                    -COORD_LIMIT <= b@[i as int] <= COORD_LIMIT,
            ;
        }
        let d: i64 = a[i] - b[i];
        acc = acc + (d * d) as u64;
        i = i + 1;
    }
    acc
}

} // verus!
