//! Planar vectors over fixed-point scalars, with an exact mathematical
//! model (`V2`, over unbounded integers) and the algebra laws the model
//! satisfies.

use vstd::prelude::*;
use crate::fixed::{is_sqrt_floor, lemma_sqrt_floor_is, sqrt_floor, isqrt, COORD_MAX, N_MAX};

verus! {

/// Mathematical image of a vector: a pair of unbounded integers.
pub struct V2 {
    pub x: int,
    pub y: int,
}

/// A planar vector; each component is a fixed-point scalar.
#[derive(Clone, Copy, Debug, PartialEq, Eq, Structural)]
pub struct Vec2 {
    pub x: i64,
    pub y: i64,
}

impl View for Vec2 {
    type V = V2;

    open spec fn view(&self) -> V2 {
        V2 { x: self.x as int, y: self.y as int }
    }
}

pub open spec fn v2_zero() -> V2 {
    V2 { x: 0, y: 0 }
}

pub open spec fn v2_add(a: V2, b: V2) -> V2 {
    V2 { x: a.x + b.x, y: a.y + b.y }
}

pub open spec fn v2_sub(a: V2, b: V2) -> V2 {
    V2 { x: a.x - b.x, y: a.y - b.y }
}

pub open spec fn v2_scale(a: V2, k: int) -> V2 {
    V2 { x: a.x * k, y: a.y * k }
}

pub open spec fn v2_dot(a: V2, b: V2) -> int {
    a.x * b.x + a.y * b.y
}

pub open spec fn v2_norm_sq(a: V2) -> int {
    v2_dot(a, a)
}

/// The Euclidean norm, rounded down to an integer.
pub open spec fn v2_norm(a: V2) -> int {
    sqrt_floor(v2_norm_sq(a))
}

/// Left-to-right sum of a sequence of vectors, with the zero vector as
/// the empty sum.
pub open spec fn v2_sum(s: Seq<V2>) -> V2
    decreases s.len(),
{
    if s.len() == 0 {
        v2_zero()
    } else {
        v2_add(v2_sum(s.drop_last()), s.last())
    }
}

/// The mathematical images of a sequence of stored vectors.
pub open spec fn v2_views(s: Seq<Vec2>) -> Seq<V2> {
    s.map_values(|v: Vec2| v@)
}

impl Vec2 {
    pub fn new(x: i64, y: i64) -> (v: Vec2)
        ensures
            v@ == (V2 { x: x as int, y: y as int }),
    {
        Vec2 { x, y }
    }

    pub fn add(&self, other: &Vec2) -> (r: Vec2)
        requires
            i64::MIN <= self@.x + other@.x <= i64::MAX,
            i64::MIN <= self@.y + other@.y <= i64::MAX,
        ensures
            r@ == v2_add(self@, other@),
    {
        Vec2 { x: self.x + other.x, y: self.y + other.y }
    }

    pub fn sub(&self, other: &Vec2) -> (r: Vec2)
        requires
            i64::MIN <= self@.x - other@.x <= i64::MAX,
            i64::MIN <= self@.y - other@.y <= i64::MAX,
        ensures
            r@ == v2_sub(self@, other@),
    {
        Vec2 { x: self.x - other.x, y: self.y - other.y }
    }

    /// Scaling by an integer factor (exact; no rounding is involved).
    pub fn scale(&self, k: i64) -> (r: Vec2)
        requires
            i64::MIN <= self@.x * k <= i64::MAX,
            i64::MIN <= self@.y * k <= i64::MAX,
        ensures
            r@ == v2_scale(self@, k as int),
    {
        Vec2 { x: self.x * k, y: self.y * k }
    }

    pub fn dot(&self, other: &Vec2) -> (r: i128)
        requires
            self@.x > i64::MIN,
            self@.y > i64::MIN,
            other@.x > i64::MIN,
            other@.y > i64::MIN,
        ensures
            r == v2_dot(self@, other@),
    {
        proof {
            lemma_prod_bound(self@.x, other@.x);
            lemma_prod_bound(self@.y, other@.y);
        }
        (self.x as i128) * (other.x as i128) + (self.y as i128) * (other.y as i128)
    }

    pub fn norm_sq(&self) -> (r: i128)
        requires
            self@.x > i64::MIN,
            self@.y > i64::MIN,
        ensures
            r == v2_norm_sq(self@),
            r >= 0,
    {
        proof {
            lemma_square_nonneg(self@.x);
            lemma_square_nonneg(self@.y);
        }
        self.dot(self)
    }

    pub fn norm(&self) -> (r: u64)
        requires
            self@.x > i64::MIN,
            self@.y > i64::MIN,
        ensures
            r == v2_norm(self@),
            is_sqrt_floor(v2_norm_sq(self@), r as int),
    {
        let ns: i128 = self.norm_sq();
        isqrt(ns as u128)
    }

    /// The sum of a set of vectors, as `v2_sum` gives it.
    pub fn sum(vs: &Vec<Vec2>) -> (r: Vec2)
        requires
            vs@.len() <= N_MAX,
            forall|i: int|
                0 <= i < vs@.len() ==> -COORD_MAX <= #[trigger] vs@[i]@.x <= COORD_MAX
                    && -COORD_MAX <= vs@[i]@.y <= COORD_MAX,
        ensures
            r@ == v2_sum(v2_views(vs@)),
    {
        let mut acc = Vec2 { x: 0, y: 0 };
        let mut i: usize = 0;
        proof {
            assert(v2_views(vs@).take(0) =~= Seq::<V2>::empty());
        }
        while i < vs.len()
            invariant
                i <= vs@.len() <= N_MAX,
                forall|k: int|
                    0 <= k < vs@.len() ==> -COORD_MAX <= #[trigger] vs@[k]@.x <= COORD_MAX
                        && -COORD_MAX <= vs@[k]@.y <= COORD_MAX,
                acc@ == v2_sum(v2_views(vs@).take(i as int)),
                -4_000_000_000 * (i as int) <= acc@.x <= 4_000_000_000 * (i as int),
                -4_000_000_000 * (i as int) <= acc@.y <= 4_000_000_000 * (i as int),
            decreases vs@.len() - i,
        {
            let v = vs[i];
            proof {
                let s = v2_views(vs@);
                assert(s.take(i + 1).drop_last() =~= s.take(i as int));
                assert(s.take(i + 1).last() == vs@[i as int]@);
                assert(-COORD_MAX <= vs@[i as int]@.x <= COORD_MAX);
                assert(-COORD_MAX <= vs@[i as int]@.y <= COORD_MAX);
                assert(v@ == vs@[i as int]@);
            }
            acc = Vec2 { x: acc.x + v.x, y: acc.y + v.y };
            i = i + 1;
        }
        proof {
            assert(v2_views(vs@).take(vs@.len() as int) =~= v2_views(vs@));
        }
        acc
    }
}

proof fn lemma_square_nonneg(a: int)
    by (nonlinear_arith)
    ensures
        a * a >= 0,
{
}

proof fn lemma_prod_bound(a: int, b: int)
    by (nonlinear_arith)
    requires
        -0x8000_0000_0000_0000 < a < 0x8000_0000_0000_0000,
        -0x8000_0000_0000_0000 < b < 0x8000_0000_0000_0000,
    ensures
        -0x4000_0000_0000_0000_0000_0000_0000_0000 < a * b
            < 0x4000_0000_0000_0000_0000_0000_0000_0000,
{
}

/// Every non-negative integer has an integer square root.
pub proof fn lemma_sqrt_exists(n: nat)
    ensures
        exists|r: int| is_sqrt_floor(n as int, r),
    decreases n,
{
    if n == 0 {
        assert(is_sqrt_floor(0, 0));
    } else {
        lemma_sqrt_exists((n - 1) as nat);
        let m: int = n - 1;
        let r = choose|r: int| is_sqrt_floor(m, r);
        if (r + 1) * (r + 1) <= n {
            assert(is_sqrt_floor(n as int, r + 1)) by (nonlinear_arith)
                requires
                    0 <= r,
                    (r + 1) * (r + 1) <= n,
                    n - 1 < (r + 1) * (r + 1),
            ;
        } else {
            assert(is_sqrt_floor(n as int, r));
        }
    }
}

/// Vector addition is commutative.
pub proof fn lemma_add_comm(u: V2, v: V2)
    ensures
        v2_add(u, v) == v2_add(v, u),
{
}

/// Vector addition is associative.
pub proof fn lemma_add_assoc(u: V2, v: V2, w: V2)
    ensures
        v2_add(v2_add(u, v), w) == v2_add(u, v2_add(v, w)),
{
}

/// Scaling distributes over vector addition (exactly: the factor is an
/// integer, so no rounding is involved).
pub proof fn lemma_scale_distributes_add(u: V2, v: V2, a: int)
    ensures
        v2_scale(v2_add(u, v), a) == v2_add(v2_scale(u, a), v2_scale(v, a)),
{
    assert((u.x + v.x) * a == u.x * a + v.x * a) by (nonlinear_arith);
    assert((u.y + v.y) * a == u.y * a + v.y * a) by (nonlinear_arith);
}

/// The dot product is symmetric.
pub proof fn lemma_dot_comm(u: V2, v: V2)
    ensures
        v2_dot(u, v) == v2_dot(v, u),
{
    assert(u.x * v.x == v.x * u.x) by (nonlinear_arith);
    assert(u.y * v.y == v.y * u.y) by (nonlinear_arith);
}

/// The norm is non-negative, and zero exactly on the zero vector.
pub proof fn lemma_norm_zero_iff(u: V2)
    ensures
        v2_norm(u) >= 0,
        v2_norm(u) == 0 <==> u == v2_zero(),
{
    lemma_square_nonneg(u.x);
    lemma_square_nonneg(u.y);
    let n = v2_norm_sq(u);
    lemma_sqrt_exists(n as nat);
    let r = sqrt_floor(n);
    assert(is_sqrt_floor(n, r));
    if u == v2_zero() {
        lemma_sqrt_floor_is(0, 0);
    }
    if r == 0 {
        assert(n == 0);
        assert(u.x == 0 && u.y == 0) by (nonlinear_arith)
            requires
                u.x * u.x + u.y * u.y == 0,
        ;
    }
}

} // verus!
