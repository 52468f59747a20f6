//! A gravitational body: mass, position and velocity, with the pairwise
//! timestep estimator, the leapfrog (kick-drift-kick) integration step and
//! the mechanical-energy diagnostic.
//!
//! The gravitational constant is a parameter `g` of the force-dependent
//! operations, in fixed-point form like every other scalar.
//!
//! Coincident bodies are a breakdown of the physical model (the force law
//! has no value at zero separation). The integer core makes the documented
//! degradation explicit: a pair at zero separation contributes no pull, and
//! a zero separation forces the timestep estimate itself to zero, so a run
//! degrades gracefully instead of propagating non-finite values.

use vstd::prelude::*;
use crate::fixed::{
    tdiv, is_sqrt_floor, lemma_tdiv_bound, lemma_tdiv_neg, lemma_tdiv_rem, div_trunc_wide, isqrt,
    COORD_MAX, DT_MAX, G_MAX, MASS_MAX, N_MAX, SCALE, VEL_FLOOR,
};
use crate::vec2::{
    Vec2, V2, lemma_sqrt_exists, v2_add, v2_norm, v2_norm_sq, v2_sub, v2_zero,
};

verus! {

/// Mathematical image of a body.
pub struct BodyV {
    pub mass: int,
    pub pos: V2,
    pub vel: V2,
}

/// A point mass. The mass never changes after construction; position and
/// velocity advance once per integration step.
#[derive(Clone, Copy, Debug, PartialEq, Eq, Structural)]
pub struct Body {
    pub mass: i64,
    pub pos: Vec2,
    pub vel: Vec2,
}

impl View for Body {
    type V = BodyV;

    open spec fn view(&self) -> BodyV {
        BodyV { mass: self.mass as int, pos: self.pos@, vel: self.vel@ }
    }
}

/// The mathematical images of a sequence of stored bodies.
pub open spec fn body_views(s: Seq<Body>) -> Seq<BodyV> {
    s.map_values(|b: Body| b@)
}

/// Both components lie in the admitted coordinate range.
pub open spec fn in_coord_range(a: V2) -> bool {
    -COORD_MAX <= a.x <= COORD_MAX && -COORD_MAX <= a.y <= COORD_MAX
}

/// A well-formed body: positive bounded mass, position and velocity in the
/// admitted range.
pub open spec fn body_wf(b: BodyV) -> bool {
    1 <= b.mass <= MASS_MAX && in_coord_range(b.pos) && in_coord_range(b.vel)
}

/// Every body of the sequence is well-formed.
pub open spec fn all_wf(s: Seq<BodyV>) -> bool {
    forall|i: int| 0 <= i < s.len() ==> body_wf(#[trigger] s[i])
}

/// What the timestep estimator returns for the ordered pair `(a, b)`:
/// no bound when `a` is essentially stationary, otherwise the time `a`
/// needs, at its current speed, to close a `thr` fraction of the current
/// separation.
pub open spec fn spec_estimate_timestep(a: BodyV, b: BodyV, thr: int) -> Option<int> {
    let speed = v2_norm(a.vel);
    if speed <= VEL_FLOOR {
        None
    } else {
        Some(tdiv(v2_norm(v2_sub(b.pos, a.pos)) * thr, speed))
    }
}

/// Half a drift: the position advanced by `dt / 2` at velocity `v`.
pub open spec fn half_drift(p: V2, v: V2, dt: int) -> V2 {
    V2 { x: p.x + tdiv(dt * v.x, 2 * SCALE), y: p.y + tdiv(dt * v.y, 2 * SCALE) }
}

/// The velocity change a body at `p` receives from a neighbour of mass `m`
/// at `q`, over one kick with combined factor `a == dt * g`. A neighbour at
/// zero separation contributes nothing (see the module note).
pub open spec fn kick_term(p: V2, q: V2, m: int, a: int) -> V2 {
    let diff = v2_sub(p, q);
    let d = v2_norm(diff);
    if d == 0 {
        v2_zero()
    } else {
        V2 { x: tdiv(a * m * diff.x, d * d * d), y: tdiv(a * m * diff.y, d * d * d) }
    }
}

/// The total kick a body at `p` receives from the neighbour set.
pub open spec fn kick_sum(p: V2, others: Seq<BodyV>, a: int) -> V2
    decreases others.len(),
{
    if others.len() == 0 {
        v2_zero()
    } else {
        v2_add(
            kick_sum(p, others.drop_last(), a),
            kick_term(p, others.last().pos, others.last().mass, a),
        )
    }
}

/// One leapfrog step of a single body against the frozen neighbour set:
/// half-drift, kick, half-drift. `None` when an intermediate position or
/// the new velocity leaves the admitted range (the integer analogue of a
/// numerical blow-up, which a caller must treat as fatal).
pub open spec fn spec_step(b: BodyV, dt: int, g: int, others: Seq<BodyV>) -> Option<BodyV> {
    let p1 = half_drift(b.pos, b.vel, dt);
    if !in_coord_range(p1) {
        None
    } else {
        let v1 = v2_sub(b.vel, kick_sum(p1, others, dt * g));
        if !in_coord_range(v1) {
            None
        } else {
            let p2 = half_drift(p1, v1, dt);
            if !in_coord_range(p2) {
                None
            } else {
                Some(BodyV { mass: b.mass, pos: p2, vel: v1 })
            }
        }
    }
}

/// The potential-energy sum of `b` against the neighbour set, scaled by
/// `SCALE * SCALE`.
pub open spec fn spec_potential(b: BodyV, others: Seq<BodyV>, g: int) -> int
    decreases others.len(),
{
    if others.len() == 0 {
        0
    } else {
        spec_potential(b, others.drop_last(), g) + tdiv(
            g * b.mass * others.last().mass,
            v2_norm(v2_sub(b.pos, others.last().pos)),
        )
    }
}

/// The mechanical energy of `b` against the neighbour set, scaled by
/// `SCALE * SCALE`: the kinetic term minus the potential sum.
pub open spec fn spec_energy(b: BodyV, others: Seq<BodyV>, g: int) -> int {
    tdiv(b.mass * v2_norm_sq(b.vel), 2 * SCALE) - spec_potential(b, others, g)
}

impl Body {
    pub fn new(mass: i64, pos: Vec2, vel: Vec2) -> (b: Body)
        ensures
            b@ == (BodyV { mass: mass as int, pos: pos@, vel: vel@ }),
    {
        Body { mass, pos, vel }
    }

    /// The time this body needs, at its current speed, to close a
    /// `dist_threshold` fraction of its current separation from `other`;
    /// `None` when this body is essentially stationary and so constrains
    /// no pair.
    pub fn estimate_timestep(&self, other: &Body, dist_threshold: i64) -> (r: Option<i128>)
        requires
            body_wf(self@),
            body_wf(other@),
            0 <= dist_threshold <= COORD_MAX,
        ensures
            r is Some <==> spec_estimate_timestep(self@, other@, dist_threshold as int) is Some,
            r is Some ==> r->0 == spec_estimate_timestep(self@, other@, dist_threshold as int)->0,
            r is Some ==> 0 <= r->0,
    {
        let speed: u64 = self.vel.norm();
        if speed <= VEL_FLOOR {
            None
        } else {
            let diff = other.pos.sub(&self.pos);
            let d: u64 = diff.norm();
            proof {
                assert(0 <= diff@.x * diff@.x + diff@.y * diff@.y
                    <= 128_000_000_000_000_000_000) by (nonlinear_arith)
                    requires
                        -8_000_000_000 <= diff@.x <= 8_000_000_000,
                        -8_000_000_000 <= diff@.y <= 8_000_000_000,
                ;
                assert((d as int) * (d as int) <= v2_norm_sq(diff@));
                assert(d <= 12_000_000_000u64) by (nonlinear_arith)
                    requires
                        (d as int) * (d as int) <= v2_norm_sq(diff@),
                        v2_norm_sq(diff@) <= 128_000_000_000_000_000_000,
                ;
            }
            proof {
                assert(0 <= (d as int) * (dist_threshold as int) <= 48_000_000_000_000_000_000)
                    by (nonlinear_arith)
                    requires
                        0 <= d as int <= 12_000_000_000,
                        0 <= dist_threshold as int <= 4_000_000_000,
                ;
            }
            let num: u128 = (d as u128) * (dist_threshold as u128);
            let est: u128 = num / (speed as u128);
            proof {
                vstd::arithmetic::div_mod::lemma_div_nonincreasing(num as int, speed as int);
                vstd::arithmetic::div_mod::lemma_div_pos_is_pos(num as int, speed as int);
            }
            Some(est as i128)
        }
    }

    /// One leapfrog step against the frozen neighbour set `others` (which
    /// a caller assembles without this body). Returns whether the step
    /// stayed in the admitted range; on `false` the body is unchanged.
    pub fn step(&mut self, dt: i64, g: i64, others: &Vec<Body>) -> (ok: bool)
        requires
            body_wf(old(self)@),
            all_wf(body_views(others@)),
            others@.len() < N_MAX,
            0 <= dt <= DT_MAX,
            0 <= g <= G_MAX,
        ensures
            ok == spec_step(old(self)@, dt as int, g as int, body_views(others@)) is Some,
            ok ==> Some(final(self)@) == spec_step(
                old(self)@,
                dt as int,
                g as int,
                body_views(others@),
            ),
            ok ==> body_wf(final(self)@),
            !ok ==> final(self)@ == old(self)@,
    {
        let ghost bs = body_views(others@);
        // first half-drift
        let p1 = drift_half(&self.pos, &self.vel, dt);
        proof {
            assert(p1@ == half_drift(old(self)@.pos, old(self)@.vel, dt as int));
        }
        if p1.x < -COORD_MAX || p1.x > COORD_MAX || p1.y < -COORD_MAX || p1.y > COORD_MAX {
            return false;
        }
        // kick, accumulated against the unchanged neighbour positions
        proof {
            assert(0 <= (dt as int) * (g as int) <= 128_000_000_000_000_000) by (nonlinear_arith)
                requires
                    0 <= dt as int <= 8_000_000_000,
                    0 <= g as int <= 16_000_000,
            ;
        }
        let a: i128 = (dt as i128) * (g as i128);
        let mut accx: i128 = 0;
        let mut accy: i128 = 0;
        let mut j: usize = 0;
        proof {
            assert(bs.take(0) =~= Seq::<BodyV>::empty());
        }
        while j < others.len()
            invariant
                j <= others@.len() < N_MAX,
                bs == body_views(others@),
                all_wf(bs),
                in_coord_range(p1@),
                0 <= a <= 128_000_000_000_000_000,
                accx == kick_sum(p1@, bs.take(j as int), a as int).x,
                accy == kick_sum(p1@, bs.take(j as int), a as int).y,
                -(j as int) * 1_024_000_000_000_000_000_000_000_000_000_000_000 <= accx
                    <= (j as int) * 1_024_000_000_000_000_000_000_000_000_000_000_000,
                -(j as int) * 1_024_000_000_000_000_000_000_000_000_000_000_000 <= accy
                    <= (j as int) * 1_024_000_000_000_000_000_000_000_000_000_000_000,
            decreases others@.len() - j,
        {
            let o = &others[j];
            proof {
                assert(bs[j as int] == o@);
                assert(body_wf(bs[j as int]));
                assert(bs.take(j + 1).drop_last() =~= bs.take(j as int));
                assert(bs.take(j + 1).last() == bs[j as int]);
            }
            let diff = p1.sub(&o.pos);
            let nsq: i128 = diff.norm_sq();
            let d: u64 = isqrt(nsq as u128);
            proof {
                assert(0 <= diff@.x * diff@.x + diff@.y * diff@.y
                    <= 128_000_000_000_000_000_000) by (nonlinear_arith)
                    requires
                        -8_000_000_000 <= diff@.x <= 8_000_000_000,
                        -8_000_000_000 <= diff@.y <= 8_000_000_000,
                ;
                assert((d as int) * (d as int) <= v2_norm_sq(diff@));
                assert(d <= 12_000_000_000u64) by (nonlinear_arith)
                    requires
                        (d as int) * (d as int) <= v2_norm_sq(diff@),
                        v2_norm_sq(diff@) <= 128_000_000_000_000_000_000,
                ;
            }
            if d > 0 {
                proof {
                    assert(1 <= (d as int) * (d as int) * (d as int)
                        <= 1_728_000_000_000_000_000_000_000_000_000) by (nonlinear_arith)
                        requires
                            1 <= d as int <= 12_000_000_000,
                    ;
                }
                let d3: i128 = (d as i128) * (d as i128) * (d as i128);
                proof {
                    assert(0 <= (a as int) * (o.mass as int)
                        <= 128_000_000_000_000_000_000_000_000) by (nonlinear_arith)
                        requires
                            0 <= a as int <= 128_000_000_000_000_000,
                            1 <= o.mass as int <= 1_000_000_000,
                    ;
                }
                let am: i128 = a * (o.mass as i128);
                proof {
                    assert(-1_024_000_000_000_000_000_000_000_000_000_000_000 <= (am as int)
                        * (diff.x as int) <= 1_024_000_000_000_000_000_000_000_000_000_000_000
                        && -1_024_000_000_000_000_000_000_000_000_000_000_000 <= (am as int)
                        * (diff.y as int) <= 1_024_000_000_000_000_000_000_000_000_000_000_000)
                        by (nonlinear_arith)
                        requires
                            0 <= am as int <= 128_000_000_000_000_000_000_000_000,
                            -8_000_000_000 <= diff.x as int <= 8_000_000_000,
                            -8_000_000_000 <= diff.y as int <= 8_000_000_000,
                    ;
                }
                let numx: i128 = am * (diff.x as i128);
                let numy: i128 = am * (diff.y as i128);
                let tx: i128 = div_trunc_wide(numx, d3);
                let ty: i128 = div_trunc_wide(numy, d3);
                proof {
                    lemma_kick_component_bound(numx as int, d3 as int);
                    lemma_kick_component_bound(numy as int, d3 as int);
                    assert(tx == kick_term(p1@, bs[j as int].pos, bs[j as int].mass, a as int).x);
                    assert(ty == kick_term(p1@, bs[j as int].pos, bs[j as int].mass, a as int).y);
                }
                accx = accx + tx;
                accy = accy + ty;
            } else {
                proof {
                    assert(kick_term(p1@, bs[j as int].pos, bs[j as int].mass, a as int)
                        == v2_zero());
                }
            }
            j = j + 1;
        }
        proof {
            assert(bs.take(others@.len() as int) =~= bs);
        }
        // the kick itself
        let v1x: i128 = (self.vel.x as i128) - accx;
        let v1y: i128 = (self.vel.y as i128) - accy;
        if v1x < -(COORD_MAX as i128) || v1x > COORD_MAX as i128 || v1y < -(COORD_MAX as i128)
            || v1y > COORD_MAX as i128 {
            return false;
        }
        let v1 = Vec2 { x: v1x as i64, y: v1y as i64 };
        // second half-drift, at the new velocity
        let p2 = drift_half(&p1, &v1, dt);
        if p2.x < -COORD_MAX || p2.x > COORD_MAX || p2.y < -COORD_MAX || p2.y > COORD_MAX {
            return false;
        }
        self.pos = p2;
        self.vel = v1;
        true
    }

    /// The mechanical energy this body contributes, scaled by
    /// `SCALE * SCALE`: kinetic term minus the potential sum against the
    /// neighbour set, which must be disjoint from this body's position.
    pub fn energy(&self, g: i64, others: &Vec<Body>) -> (r: i128)
        requires
            body_wf(self@),
            all_wf(body_views(others@)),
            others@.len() < N_MAX,
            0 <= g <= G_MAX,
            forall|j: int|
                0 <= j < others@.len() ==> (#[trigger] others@[j])@.pos != self@.pos,
        ensures
            r == spec_energy(self@, body_views(others@), g as int),
    {
        let ghost bs = body_views(others@);
        proof {
            assert(0 <= self@.vel.x * self@.vel.x + self@.vel.y * self@.vel.y
                <= 32_000_000_000_000_000_000) by (nonlinear_arith)
                requires
                    -4_000_000_000 <= self@.vel.x <= 4_000_000_000,
                    -4_000_000_000 <= self@.vel.y <= 4_000_000_000,
            ;
        }
        let nsq: i128 = self.vel.norm_sq();
        proof {
            assert(0 <= (self.mass as int) * (nsq as int)
                <= 32_000_000_000_000_000_000_000_000_000) by (nonlinear_arith)
                requires
                    1 <= self.mass as int <= 1_000_000_000,
                    0 <= nsq as int <= 32_000_000_000_000_000_000,
            ;
        }
        let mn: i128 = (self.mass as i128) * nsq;
        let kin: i128 = div_trunc_wide(mn, 200_000_000);
        let mut pot: i128 = 0;
        let mut j: usize = 0;
        proof {
            assert(bs.take(0) =~= Seq::<BodyV>::empty());
        }
        while j < others.len()
            invariant
                j <= others@.len() < N_MAX,
                bs == body_views(others@),
                all_wf(bs),
                body_wf(self@),
                0 <= g <= G_MAX,
                forall|k: int| 0 <= k < bs.len() ==> (#[trigger] bs[k]).pos != self@.pos,
                pot == spec_potential(self@, bs.take(j as int), g as int),
                -(j as int) * 16_000_000_000_000_000_000_000_000 <= pot
                    <= (j as int) * 16_000_000_000_000_000_000_000_000,
            decreases others@.len() - j,
        {
            let o = &others[j];
            proof {
                assert(bs[j as int] == o@);
                assert(body_wf(bs[j as int]));
                assert(bs[j as int].pos != self@.pos);
                assert(bs.take(j + 1).drop_last() =~= bs.take(j as int));
                assert(bs.take(j + 1).last() == bs[j as int]);
            }
            let diff = self.pos.sub(&o.pos);
            let nsqd: i128 = diff.norm_sq();
            let d: u64 = isqrt(nsqd as u128);
            proof {
                assert((nsqd as u128) as int == nsqd as int);
                if d == 0 {
                    assert((d as int + 1) * (d as int + 1) == 1) by (nonlinear_arith)
                        requires
                            d as int == 0,
                    ;
                    assert((nsqd as int) < 1);
                    assert(v2_norm_sq(diff@) == 0);
                    assert(diff@.x == 0 && diff@.y == 0) by (nonlinear_arith)
                        requires
                            diff@.x * diff@.x + diff@.y * diff@.y == 0,
                    ;
                    assert(o@.pos == self@.pos);
                    assert(false);
                }
                assert(0 <= (g as int) * (self.mass as int) <= 16_000_000_000_000_000)
                    by (nonlinear_arith)
                    requires
                        0 <= g as int <= 16_000_000,
                        1 <= self.mass as int <= 1_000_000_000,
                ;
            }
            let gm: i128 = (g as i128) * (self.mass as i128);
            proof {
                assert(0 <= (gm as int) * (o.mass as int) <= 16_000_000_000_000_000_000_000_000)
                    by (nonlinear_arith)
                    requires
                        0 <= gm as int <= 16_000_000_000_000_000,
                        1 <= o.mass as int <= 1_000_000_000,
                ;
            }
            let gmm: i128 = gm * (o.mass as i128);
            proof {
                lemma_tdiv_bound(gmm as int, d as int, 16_000_000_000_000_000_000_000_000);
                assert(16_000_000_000_000_000_000_000_000 * (d as int)
                    >= 16_000_000_000_000_000_000_000_000) by (nonlinear_arith)
                    requires
                        d >= 1,
                ;
            }
            let term: i128 = div_trunc_wide(gmm, d as i128);
            pot = pot + term;
            j = j + 1;
        }
        proof {
            assert(bs.take(others@.len() as int) =~= bs);
        }
        kin - pot
    }
}

/// The position advanced by `dt / 2` at velocity `v`, exactly as
/// `half_drift` states it.
fn drift_half(p: &Vec2, v: &Vec2, dt: i64) -> (r: Vec2)
    requires
        -COORD_MAX <= p@.x <= COORD_MAX,
        -COORD_MAX <= p@.y <= COORD_MAX,
        -COORD_MAX <= v@.x <= COORD_MAX,
        -COORD_MAX <= v@.y <= COORD_MAX,
        0 <= dt <= DT_MAX,
    ensures
        r@ == half_drift(p@, v@, dt as int),
{
    proof {
        assert(-32_000_000_000_000_000_000 <= (dt as int) * (v.x as int)
            <= 32_000_000_000_000_000_000
            && -32_000_000_000_000_000_000 <= (dt as int) * (v.y as int)
            <= 32_000_000_000_000_000_000) by (nonlinear_arith)
            requires
                0 <= dt as int <= 8_000_000_000,
                -4_000_000_000 <= v.x as int <= 4_000_000_000,
                -4_000_000_000 <= v.y as int <= 4_000_000_000,
        ;
    }
    let hx: i128 = (dt as i128) * (v.x as i128);
    let hy: i128 = (dt as i128) * (v.y as i128);
    proof {
        lemma_tdiv_bound(hx as int, 200_000_000, 160_000_000_000);
        lemma_tdiv_bound(hy as int, 200_000_000, 160_000_000_000);
    }
    let ox: i128 = div_trunc_wide(hx, 200_000_000);
    let oy: i128 = div_trunc_wide(hy, 200_000_000);
    Vec2 { x: p.x + (ox as i64), y: p.y + (oy as i64) }
}

/// A single kick term is bounded by the magnitude of its numerator.
proof fn lemma_kick_component_bound(num: int, d3: int)
    requires
        d3 >= 1,
        -1_024_000_000_000_000_000_000_000_000_000_000_000 <= num
            <= 1_024_000_000_000_000_000_000_000_000_000_000_000,
    ensures
        -1_024_000_000_000_000_000_000_000_000_000_000_000 <= tdiv(num, d3)
            <= 1_024_000_000_000_000_000_000_000_000_000_000_000,
{
    assert(1_024_000_000_000_000_000_000_000_000_000_000_000 * d3
        >= 1_024_000_000_000_000_000_000_000_000_000_000_000) by (nonlinear_arith)
        requires
            d3 >= 1,
    ;
    lemma_tdiv_bound(num, d3, 1_024_000_000_000_000_000_000_000_000_000_000_000);
}

/// The two kicks of a pair balance: scaled by the masses, the velocity
/// changes the two bodies of a pair give each other cancel up to the
/// fixed-point truncation, and exactly when the masses are equal. Both
/// kicks are evaluated at a common pair of positions, as in a synchronized
/// kick; the per-body half-drift staggers the evaluation positions, so for
/// a whole step the balance holds to the same order, not exactly.
pub proof fn lemma_kick_pair_balance(p: V2, q: V2, m1: int, m2: int, a: int)
    requires
        m1 >= 1,
        m2 >= 1,
    ensures
        -(m1 + m2) < m1 * kick_term(p, q, m2, a).x + m2 * kick_term(q, p, m1, a).x < m1 + m2,
        -(m1 + m2) < m1 * kick_term(p, q, m2, a).y + m2 * kick_term(q, p, m1, a).y < m1 + m2,
        m1 == m2 ==> kick_term(q, p, m1, a) == v2_sub(v2_zero(), kick_term(p, q, m2, a)),
{
    let diff = v2_sub(p, q);
    let rdiff = v2_sub(q, p);
    assert(rdiff.x * rdiff.x + rdiff.y * rdiff.y == diff.x * diff.x + diff.y * diff.y)
        by (nonlinear_arith)
        requires
            rdiff.x == -diff.x,
            rdiff.y == -diff.y,
    ;
    assert(v2_norm_sq(rdiff) == v2_norm_sq(diff));
    assert(v2_norm_sq(diff) >= 0) by (nonlinear_arith)
        requires
            v2_norm_sq(diff) == diff.x * diff.x + diff.y * diff.y,
    ;
    lemma_sqrt_exists(v2_norm_sq(diff) as nat);
    let d = v2_norm(diff);
    assert(is_sqrt_floor(v2_norm_sq(diff), d));
    assert(v2_norm(rdiff) == d);
    if d == 0 {
        assert(m1 * 0 + m2 * 0 == 0) by (nonlinear_arith);
    } else {
        let d3 = d * d * d;
        assert(d3 >= 1) by (nonlinear_arith)
            requires
                d >= 1,
                d3 == d * d * d,
        ;
        lemma_kick_balance_component(diff.x, m1, m2, a, d3);
        lemma_kick_balance_component(diff.y, m1, m2, a, d3);
        if m1 == m2 {
            lemma_tdiv_neg(a * m1 * diff.x, d3);
            lemma_tdiv_neg(a * m1 * diff.y, d3);
            assert(a * m1 * rdiff.x == -(a * m1 * diff.x)) by (nonlinear_arith)
                requires
                    rdiff.x == -diff.x,
            ;
            assert(a * m1 * rdiff.y == -(a * m1 * diff.y)) by (nonlinear_arith)
                requires
                    rdiff.y == -diff.y,
            ;
        }
    }
}

/// Momentum conservation over one leapfrog step of a closed pair, in the
/// synchronized case: when the half-drifts vanish, so that both kicks are
/// evaluated at the pair's current positions, the total momentum
/// `m1 * v1 + m2 * v2` moves by less than one mass-weighted quantum per
/// component (the internal forces are equal and opposite up to the
/// fixed-point truncation), and not at all when the masses are equal.
/// With nonzero half-drifts the two kicks are evaluated at slightly
/// staggered positions and the balance holds to the same order, not
/// exactly.
pub proof fn lemma_two_body_momentum(b1: BodyV, b2: BodyV, dt: int, g: int)
    requires
        b1.mass >= 1,
        b2.mass >= 1,
        half_drift(b1.pos, b1.vel, dt) == b1.pos,
        half_drift(b2.pos, b2.vel, dt) == b2.pos,
        spec_step(b1, dt, g, seq![b2]) is Some,
        spec_step(b2, dt, g, seq![b1]) is Some,
    ensures
        ({
            let s1 = spec_step(b1, dt, g, seq![b2])->0;
            let s2 = spec_step(b2, dt, g, seq![b1])->0;
            let dpx = b1.mass * s1.vel.x + b2.mass * s2.vel.x - (b1.mass * b1.vel.x + b2.mass
                * b2.vel.x);
            let dpy = b1.mass * s1.vel.y + b2.mass * s2.vel.y - (b1.mass * b1.vel.y + b2.mass
                * b2.vel.y);
            -(b1.mass + b2.mass) < dpx < b1.mass + b2.mass && -(b1.mass + b2.mass) < dpy < b1.mass
                + b2.mass && (b1.mass == b2.mass ==> dpx == 0 && dpy == 0)
        }),
{
    let a = dt * g;
    let k1 = kick_term(b1.pos, b2.pos, b2.mass, a);
    let k2 = kick_term(b2.pos, b1.pos, b1.mass, a);
    assert(seq![b2].drop_last() =~= Seq::<BodyV>::empty());
    assert(seq![b1].drop_last() =~= Seq::<BodyV>::empty());
    assert(seq![b2].last() == b2);
    assert(seq![b1].last() == b1);
    assert(kick_sum(b1.pos, Seq::<BodyV>::empty(), a) == v2_zero());
    assert(kick_sum(b2.pos, Seq::<BodyV>::empty(), a) == v2_zero());
    assert(kick_sum(b1.pos, seq![b2], a) == (V2 { x: 0 + k1.x, y: 0 + k1.y }));
    assert(kick_sum(b2.pos, seq![b1], a) == (V2 { x: 0 + k2.x, y: 0 + k2.y }));
    let s1 = spec_step(b1, dt, g, seq![b2])->0;
    let s2 = spec_step(b2, dt, g, seq![b1])->0;
    assert(s1.vel == v2_sub(b1.vel, (V2 { x: 0 + k1.x, y: 0 + k1.y })));
    assert(s2.vel == v2_sub(b2.vel, (V2 { x: 0 + k2.x, y: 0 + k2.y })));
    lemma_kick_pair_balance(b1.pos, b2.pos, b1.mass, b2.mass, a);
    assert(b1.mass * (b1.vel.x - k1.x) == b1.mass * b1.vel.x - b1.mass * k1.x
        && b1.mass * (b1.vel.y - k1.y) == b1.mass * b1.vel.y - b1.mass * k1.y
        && b2.mass * (b2.vel.x - k2.x) == b2.mass * b2.vel.x - b2.mass * k2.x
        && b2.mass * (b2.vel.y - k2.y) == b2.mass * b2.vel.y - b2.mass * k2.y)
        by (nonlinear_arith);
    if b1.mass == b2.mass {
        assert(k2 == v2_sub(v2_zero(), k1));
        assert(b2.mass * k2.x == -(b1.mass * k1.x) && b2.mass * k2.y == -(b1.mass * k1.y))
            by (nonlinear_arith)
            requires
                b1.mass == b2.mass,
                k2.x == -k1.x,
                k2.y == -k1.y,
        ;
    }
}

/// One component of the pair balance, for separations already reduced to
/// a positive cubed distance.
proof fn lemma_kick_balance_component(dx: int, m1: int, m2: int, a: int, d3: int)
    requires
        m1 >= 1,
        m2 >= 1,
        d3 >= 1,
    ensures
        -(m1 + m2) < m1 * tdiv(a * m2 * dx, d3) + m2 * tdiv(a * m1 * (-dx), d3) < m1 + m2,
{
    let n2 = a * m2 * dx;
    let n1 = a * m1 * dx;
    let q1 = tdiv(n2, d3);
    let q2 = tdiv(n1, d3);
    lemma_tdiv_neg(n1, d3);
    assert(a * m1 * (-dx) == -n1) by (nonlinear_arith)
        requires
            n1 == a * m1 * dx,
    ;
    assert(tdiv(a * m1 * (-dx), d3) == -q2);
    lemma_tdiv_rem(n2, d3);
    lemma_tdiv_rem(n1, d3);
    let r1 = n2 - q1 * d3;
    let r2 = n1 - q2 * d3;
    assert(m1 * n2 == m2 * n1) by (nonlinear_arith)
        requires
            n2 == a * m2 * dx,
            n1 == a * m1 * dx,
    ;
    assert(-(m1 + m2) < m1 * q1 - m2 * q2 < m1 + m2) by (nonlinear_arith)
        requires
            m1 >= 1,
            m2 >= 1,
            d3 >= 1,
            -d3 < r1 < d3,
            -d3 < r2 < d3,
            r1 == n2 - q1 * d3,
            r2 == n1 - q2 * d3,
            m1 * n2 == m2 * n1,
    ;
    assert(m2 * (-q2) == -(m2 * q2)) by (nonlinear_arith);
}

} // verus!
