//! The frame normalizer: center of mass, center-of-mass velocity, and the
//! re-centering of a body set into the zero-momentum, centroid-at-origin
//! frame, applied once before integration begins.

use vstd::prelude::*;
use crate::fixed::{
    tdiv, lemma_tdiv_bound, lemma_tdiv_rem, lemma_tdiv_small, div_trunc_wide, COORD_MAX, MASS_MAX,
    N_MAX,
};
use crate::vec2::{Vec2, V2, v2_add, v2_scale, v2_sub, v2_zero};
use crate::body::{Body, BodyV, all_wf, body_views, body_wf, in_coord_range};

verus! {

/// Total mass of a body set.
pub open spec fn sum_mass(s: Seq<BodyV>) -> int
    decreases s.len(),
{
    if s.len() == 0 {
        0
    } else {
        sum_mass(s.drop_last()) + s.last().mass
    }
}

/// Mass-weighted sum of the positions.
pub open spec fn sum_mpos(s: Seq<BodyV>) -> V2
    decreases s.len(),
{
    if s.len() == 0 {
        v2_zero()
    } else {
        v2_add(sum_mpos(s.drop_last()), v2_scale(s.last().pos, s.last().mass))
    }
}

/// Mass-weighted sum of the velocities.
pub open spec fn sum_mvel(s: Seq<BodyV>) -> V2
    decreases s.len(),
{
    if s.len() == 0 {
        v2_zero()
    } else {
        v2_add(sum_mvel(s.drop_last()), v2_scale(s.last().vel, s.last().mass))
    }
}

/// The center of mass: the mass-weighted position sum over the total mass.
pub open spec fn spec_center_of_mass(s: Seq<BodyV>) -> V2 {
    V2 { x: tdiv(sum_mpos(s).x, sum_mass(s)), y: tdiv(sum_mpos(s).y, sum_mass(s)) }
}

/// The center-of-mass velocity, analogous with the velocities.
pub open spec fn spec_center_of_mass_velocity(s: Seq<BodyV>) -> V2 {
    V2 { x: tdiv(sum_mvel(s).x, sum_mass(s)), y: tdiv(sum_mvel(s).y, sum_mass(s)) }
}

/// Every body shifted by `-c` in position and `-cv` in velocity.
pub open spec fn shift_all(s: Seq<BodyV>, c: V2, cv: V2) -> Seq<BodyV> {
    s.map_values(
        |b: BodyV| BodyV { mass: b.mass, pos: v2_sub(b.pos, c), vel: v2_sub(b.vel, cv) },
    )
}

/// Both components lie in half the admitted coordinate range, so that
/// re-centering cannot leave it.
pub open spec fn in_half_range(a: V2) -> bool {
    -(COORD_MAX / 2) <= a.x <= COORD_MAX / 2 && -(COORD_MAX / 2) <= a.y <= COORD_MAX / 2
}

/// A body set a run may start from: well-formed, with room to re-center.
pub open spec fn start_wf(s: Seq<BodyV>) -> bool {
    all_wf(s) && forall|i: int|
        0 <= i < s.len() ==> in_half_range((#[trigger] s[i]).pos) && in_half_range(s[i].vel)
}

/// A set of positive masses weighs at least one quantum per body.
pub proof fn lemma_sum_mass_ge_len(s: Seq<BodyV>)
    requires
        forall|i: int| 0 <= i < s.len() ==> (#[trigger] s[i]).mass >= 1,
    ensures
        sum_mass(s) >= s.len(),
    decreases s.len(),
{
    if s.len() > 0 {
        lemma_sum_mass_ge_len(s.drop_last());
    }
}

/// The mass-weighted sums are bounded by the coordinate bound times the
/// total mass.
pub proof fn lemma_sums_bounded(s: Seq<BodyV>, c: int)
    requires
        c >= 0,
        forall|i: int|
            0 <= i < s.len() ==> (#[trigger] s[i]).mass >= 1 && -c <= s[i].pos.x <= c && -c
                <= s[i].pos.y <= c && -c <= s[i].vel.x <= c && -c <= s[i].vel.y <= c,
    ensures
        sum_mass(s) >= s.len(),
        -c * sum_mass(s) <= sum_mpos(s).x <= c * sum_mass(s),
        -c * sum_mass(s) <= sum_mpos(s).y <= c * sum_mass(s),
        -c * sum_mass(s) <= sum_mvel(s).x <= c * sum_mass(s),
        -c * sum_mass(s) <= sum_mvel(s).y <= c * sum_mass(s),
    decreases s.len(),
{
    lemma_sum_mass_ge_len(s);
    if s.len() == 0 {
        assert(c * 0 == 0) by (nonlinear_arith);
    } else {
        lemma_sums_bounded(s.drop_last(), c);
        let b = s.last();
        let m0 = sum_mass(s.drop_last());
        assert(-c * m0 + -c * b.mass == -c * (m0 + b.mass) && c * m0 + c * b.mass == c * (m0
            + b.mass)) by (nonlinear_arith);
        assert(-c * b.mass <= b.pos.x * b.mass <= c * b.mass && -c * b.mass <= b.pos.y * b.mass
            <= c * b.mass && -c * b.mass <= b.vel.x * b.mass <= c * b.mass && -c * b.mass
            <= b.vel.y * b.mass <= c * b.mass) by (nonlinear_arith)
            requires
                b.mass >= 1,
                -c <= b.pos.x <= c,
                -c <= b.pos.y <= c,
                -c <= b.vel.x <= c,
                -c <= b.vel.y <= c,
        ;
    }
}

/// The center of mass of the bodies (total mass over zero quanta is a
/// caller error, excluded by the non-empty well-formed set).
pub fn center_of_mass(bodys: &Vec<Body>) -> (r: Vec2)
    requires
        1 <= bodys@.len() <= N_MAX,
        all_wf(body_views(bodys@)),
    ensures
        r@ == spec_center_of_mass(body_views(bodys@)),
        in_coord_range(r@),
{
    let ghost bs = body_views(bodys@);
    let mut msum: i128 = 0;
    let mut mx: i128 = 0;
    let mut my: i128 = 0;
    let mut i: usize = 0;
    proof {
        assert(bs.take(0) =~= Seq::<BodyV>::empty());
    }
    while i < bodys.len()
        invariant
            i <= bodys@.len() <= N_MAX,
            bs == body_views(bodys@),
            all_wf(bs),
            msum == sum_mass(bs.take(i as int)),
            mx == sum_mpos(bs.take(i as int)).x,
            my == sum_mpos(bs.take(i as int)).y,
            i as int <= msum <= (i as int) * 1_000_000_000,
            -4_000_000_000 * msum <= mx <= 4_000_000_000 * msum,
            -4_000_000_000 * msum <= my <= 4_000_000_000 * msum,
        decreases bodys@.len() - i,
    {
        let b = &bodys[i];
        proof {
            assert(bs[i as int] == b@);
            assert(body_wf(bs[i as int]));
            assert(bs.take(i + 1).drop_last() =~= bs.take(i as int));
            assert(bs.take(i + 1).last() == bs[i as int]);
            assert(-4_000_000_000 * (b.mass as int) <= (b.pos.x as int) * (b.mass as int)
                <= 4_000_000_000 * (b.mass as int) && -4_000_000_000 * (b.mass as int) <= (
            b.pos.y as int) * (b.mass as int) <= 4_000_000_000 * (b.mass as int))
                by (nonlinear_arith)
                requires
                    1 <= b.mass as int <= 1_000_000_000,
                    -4_000_000_000 <= b.pos.x as int <= 4_000_000_000,
                    -4_000_000_000 <= b.pos.y as int <= 4_000_000_000,
            ;
        }
        let mpx: i128 = (b.pos.x as i128) * (b.mass as i128);
        let mpy: i128 = (b.pos.y as i128) * (b.mass as i128);
        msum = msum + (b.mass as i128);
        mx = mx + mpx;
        my = my + mpy;
        i = i + 1;
    }
    proof {
        assert(bs.take(bodys@.len() as int) =~= bs);
        lemma_tdiv_bound(mx as int, msum as int, 4_000_000_000);
        lemma_tdiv_bound(my as int, msum as int, 4_000_000_000);
    }
    let cx: i128 = div_trunc_wide(mx, msum);
    let cy: i128 = div_trunc_wide(my, msum);
    Vec2 { x: cx as i64, y: cy as i64 }
}

/// The center-of-mass velocity of the bodies.
pub fn center_of_mass_velocity(bodys: &Vec<Body>) -> (r: Vec2)
    requires
        1 <= bodys@.len() <= N_MAX,
        all_wf(body_views(bodys@)),
    ensures
        r@ == spec_center_of_mass_velocity(body_views(bodys@)),
        in_coord_range(r@),
{
    let ghost bs = body_views(bodys@);
    let mut msum: i128 = 0;
    let mut mx: i128 = 0;
    let mut my: i128 = 0;
    let mut i: usize = 0;
    proof {
        assert(bs.take(0) =~= Seq::<BodyV>::empty());
    }
    while i < bodys.len()
        invariant
            i <= bodys@.len() <= N_MAX,
            bs == body_views(bodys@),
            all_wf(bs),
            msum == sum_mass(bs.take(i as int)),
            mx == sum_mvel(bs.take(i as int)).x,
            my == sum_mvel(bs.take(i as int)).y,
            i as int <= msum <= (i as int) * 1_000_000_000,
            -4_000_000_000 * msum <= mx <= 4_000_000_000 * msum,
            -4_000_000_000 * msum <= my <= 4_000_000_000 * msum,
        decreases bodys@.len() - i,
    {
        let b = &bodys[i];
        proof {
            assert(bs[i as int] == b@);
            assert(body_wf(bs[i as int]));
            assert(bs.take(i + 1).drop_last() =~= bs.take(i as int));
            assert(bs.take(i + 1).last() == bs[i as int]);
            assert(-4_000_000_000 * (b.mass as int) <= (b.vel.x as int) * (b.mass as int)
                <= 4_000_000_000 * (b.mass as int) && -4_000_000_000 * (b.mass as int) <= (
            b.vel.y as int) * (b.mass as int) <= 4_000_000_000 * (b.mass as int))
                by (nonlinear_arith)
                requires
                    1 <= b.mass as int <= 1_000_000_000,
                    -4_000_000_000 <= b.vel.x as int <= 4_000_000_000,
                    -4_000_000_000 <= b.vel.y as int <= 4_000_000_000,
            ;
        }
        let mvx: i128 = (b.vel.x as i128) * (b.mass as i128);
        let mvy: i128 = (b.vel.y as i128) * (b.mass as i128);
        msum = msum + (b.mass as i128);
        mx = mx + mvx;
        my = my + mvy;
        i = i + 1;
    }
    proof {
        assert(bs.take(bodys@.len() as int) =~= bs);
        lemma_tdiv_bound(mx as int, msum as int, 4_000_000_000);
        lemma_tdiv_bound(my as int, msum as int, 4_000_000_000);
    }
    let cx: i128 = div_trunc_wide(mx, msum);
    let cy: i128 = div_trunc_wide(my, msum);
    Vec2 { x: cx as i64, y: cy as i64 }
}

/// Re-center every body into the zero-momentum, centroid-at-origin frame:
/// subtract the center of mass from every position and the center-of-mass
/// velocity from every velocity.
pub fn normalize_frame(bodies: &mut Vec<Body>)
    requires
        1 <= old(bodies)@.len() <= N_MAX,
        start_wf(body_views(old(bodies)@)),
    ensures
        final(bodies)@.len() == old(bodies)@.len(),
        body_views(final(bodies)@) == shift_all(
            body_views(old(bodies)@),
            spec_center_of_mass(body_views(old(bodies)@)),
            spec_center_of_mass_velocity(body_views(old(bodies)@)),
        ),
        all_wf(body_views(final(bodies)@)),
{
    let ghost bs = body_views(old(bodies)@);
    proof {
        lemma_sums_bounded(bs, 2_000_000_000);
        lemma_tdiv_bound(sum_mpos(bs).x, sum_mass(bs), 2_000_000_000);
        lemma_tdiv_bound(sum_mpos(bs).y, sum_mass(bs), 2_000_000_000);
        lemma_tdiv_bound(sum_mvel(bs).x, sum_mass(bs), 2_000_000_000);
        lemma_tdiv_bound(sum_mvel(bs).y, sum_mass(bs), 2_000_000_000);
    }
    let cm = center_of_mass(bodies);
    let cmv = center_of_mass_velocity(bodies);
    let mut i: usize = 0;
    while i < bodies.len()
        invariant
            bodies@.len() == bs.len(),
            1 <= bs.len() <= N_MAX,
            i <= bs.len(),
            bs == body_views(old(bodies)@),
            start_wf(bs),
            cm@ == spec_center_of_mass(bs),
            cmv@ == spec_center_of_mass_velocity(bs),
            -2_000_000_000 <= cm@.x <= 2_000_000_000,
            -2_000_000_000 <= cm@.y <= 2_000_000_000,
            -2_000_000_000 <= cmv@.x <= 2_000_000_000,
            -2_000_000_000 <= cmv@.y <= 2_000_000_000,
            forall|k: int|
                0 <= k < i as int ==> #[trigger] bodies@[k]@ == (BodyV {
                    mass: bs[k].mass,
                    pos: v2_sub(bs[k].pos, cm@),
                    vel: v2_sub(bs[k].vel, cmv@),
                }),
            forall|k: int| i as int <= k < bs.len() ==> #[trigger] bodies@[k]@ == bs[k],
        decreases bs.len() - i,
    {
        let mut b = bodies[i];
        proof {
            assert(bodies@[i as int]@ == bs[i as int]);
            assert(body_wf(bs[i as int]));
            assert(in_half_range(bs[i as int].pos) && in_half_range(bs[i as int].vel));
        }
        b.pos = b.pos.sub(&cm);
        b.vel = b.vel.sub(&cmv);
        bodies.set(i, b);
        i = i + 1;
    }
    proof {
        assert(body_views(bodies@) =~= shift_all(bs, cm@, cmv@));
    }
}

/// Shifting every body shifts the mass-weighted sums by the shift times
/// the total mass, and keeps the total mass.
proof fn lemma_shift_sums(s: Seq<BodyV>, c: V2, cv: V2)
    ensures
        sum_mass(shift_all(s, c, cv)) == sum_mass(s),
        sum_mpos(shift_all(s, c, cv)) == v2_sub(sum_mpos(s), v2_scale(c, sum_mass(s))),
        sum_mvel(shift_all(s, c, cv)) == v2_sub(sum_mvel(s), v2_scale(cv, sum_mass(s))),
    decreases s.len(),
{
    let t = shift_all(s, c, cv);
    if s.len() == 0 {
        assert(t =~= Seq::<BodyV>::empty());
        assert(c.x * 0 == 0 && c.y * 0 == 0 && cv.x * 0 == 0 && cv.y * 0 == 0)
            by (nonlinear_arith);
    } else {
        assert(t.drop_last() =~= shift_all(s.drop_last(), c, cv));
        lemma_shift_sums(s.drop_last(), c, cv);
        let b = s.last();
        let m0 = sum_mass(s.drop_last());
        assert(t.last() == (BodyV {
            mass: b.mass,
            pos: v2_sub(b.pos, c),
            vel: v2_sub(b.vel, cv),
        }));
        assert((b.pos.x - c.x) * b.mass == b.pos.x * b.mass - c.x * b.mass && (b.pos.y - c.y)
            * b.mass == b.pos.y * b.mass - c.y * b.mass && (b.vel.x - cv.x) * b.mass == b.vel.x
            * b.mass - cv.x * b.mass && (b.vel.y - cv.y) * b.mass == b.vel.y * b.mass - cv.y
            * b.mass) by (nonlinear_arith);
        assert(c.x * m0 + c.x * b.mass == c.x * (m0 + b.mass) && c.y * m0 + c.y * b.mass == c.y
            * (m0 + b.mass) && cv.x * m0 + cv.x * b.mass == cv.x * (m0 + b.mass) && cv.y * m0
            + cv.y * b.mass == cv.y * (m0 + b.mass)) by (nonlinear_arith);
    }
}

/// After re-centering, the recomputed center of mass and center-of-mass
/// velocity are exactly the zero vector: the mass-weighted remainders left
/// by the truncated division are smaller than the total mass, and truncate
/// to zero when divided by it.
pub proof fn lemma_normalize_zeroes_frame(s: Seq<BodyV>)
    requires
        s.len() >= 1,
        forall|i: int| 0 <= i < s.len() ==> (#[trigger] s[i]).mass >= 1,
    ensures
        spec_center_of_mass(
            shift_all(s, spec_center_of_mass(s), spec_center_of_mass_velocity(s)),
        ) == v2_zero(),
        spec_center_of_mass_velocity(
            shift_all(s, spec_center_of_mass(s), spec_center_of_mass_velocity(s)),
        ) == v2_zero(),
{
    let c = spec_center_of_mass(s);
    let cv = spec_center_of_mass_velocity(s);
    let m = sum_mass(s);
    lemma_sum_mass_ge_len(s);
    lemma_shift_sums(s, c, cv);
    lemma_tdiv_rem(sum_mpos(s).x, m);
    lemma_tdiv_rem(sum_mpos(s).y, m);
    lemma_tdiv_rem(sum_mvel(s).x, m);
    lemma_tdiv_rem(sum_mvel(s).y, m);
    lemma_tdiv_small(sum_mpos(s).x - c.x * m, m);
    lemma_tdiv_small(sum_mpos(s).y - c.y * m, m);
    lemma_tdiv_small(sum_mvel(s).x - cv.x * m, m);
    lemma_tdiv_small(sum_mvel(s).y - cv.y * m, m);
}

} // verus!
