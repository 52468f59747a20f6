//! The simulation loop: per-iteration global timestep selection, lock-step
//! advancement of the whole body set against the frozen previous
//! generation, and snapshot emission at a configurable cadence.

use vstd::prelude::*;
use crate::fixed::{COORD_MAX, DT_MAX, G_MAX, N_MAX, STEPS_MAX};
use crate::vec2::{Vec2, V2, v2_views};
use crate::body::{Body, BodyV, all_wf, body_views, body_wf, spec_estimate_timestep, spec_step};
use crate::frame::{
    normalize_frame, shift_all, spec_center_of_mass, spec_center_of_mass_velocity, start_wf,
};

verus! {

/// `cur` lowered by every bound that body `i` gets from the bodies before
/// index `j` (skipping itself).
pub open spec fn row_min(bs: Seq<BodyV>, i: int, thr: int, cur: int, j: nat) -> int
    decreases j,
{
    if j == 0 {
        cur
    } else {
        let prev = row_min(bs, i, thr, cur, (j - 1) as nat);
        if i == j - 1 {
            prev
        } else {
            match spec_estimate_timestep(bs[i], bs[j - 1], thr) {
                Some(e) => if e < prev {
                    e
                } else {
                    prev
                },
                None => prev,
            }
        }
    }
}

/// `cur` lowered by every bound of every ordered pair whose first body has
/// index below `i`.
pub open spec fn rows_min(bs: Seq<BodyV>, thr: int, cur: int, i: nat) -> int
    decreases i,
{
    if i == 0 {
        cur
    } else {
        row_min(bs, i - 1, thr, rows_min(bs, thr, cur, (i - 1) as nat), bs.len() as nat)
    }
}

/// The global timestep of one iteration: the configured ceiling lowered by
/// every pairwise bound of every ordered pair of distinct bodies.
pub open spec fn spec_global_timestep(bs: Seq<BodyV>, max_dt: int, thr: int) -> int {
    rows_min(bs, thr, max_dt, bs.len() as nat)
}

/// One whole-system step: every body advanced with the shared timestep
/// against the frozen previous generation, excluding itself by index.
/// `None` when any body leaves the admitted range.
pub open spec fn spec_advance(bs: Seq<BodyV>, dt: int, g: int) -> Option<Seq<BodyV>> {
    if forall|i: int|
        0 <= i < bs.len() ==> (#[trigger] spec_step(bs[i], dt, g, bs.remove(i))) is Some {
        Some(Seq::new(bs.len(), |i: int| spec_step(bs[i], dt, g, bs.remove(i))->0))
    } else {
        None
    }
}

/// The positions of a generation.
pub open spec fn positions_of(bs: Seq<BodyV>) -> Seq<V2> {
    bs.map_values(|b: BodyV| b.pos)
}

/// The generation and elapsed time after `k` iterations from the (already
/// normalized) initial set; `None` once any iteration has degenerated.
pub open spec fn spec_states(bs0: Seq<BodyV>, max_dt: int, thr: int, g: int, k: nat) -> Option<
    (Seq<BodyV>, int),
>
    decreases k,
{
    if k == 0 {
        Some((bs0, 0))
    } else {
        match spec_states(bs0, max_dt, thr, g, (k - 1) as nat) {
            None => None,
            Some((s, t)) => {
                let dt = spec_global_timestep(s, max_dt, thr);
                match spec_advance(s, dt, g) {
                    None => None,
                    Some(s2) => Some((s2, t + dt)),
                }
            },
        }
    }
}

/// The snapshots emitted through iteration `upto`: one at iteration zero,
/// then one per completed iteration whose index is a multiple of `ws`.
pub open spec fn spec_snapshots(
    bs0: Seq<BodyV>,
    max_dt: int,
    thr: int,
    g: int,
    ws: int,
    upto: nat,
) -> Seq<(int, Seq<V2>)>
    decreases upto,
{
    if upto == 0 {
        seq![(0int, positions_of(bs0))]
    } else {
        let prev = spec_snapshots(bs0, max_dt, thr, g, ws, (upto - 1) as nat);
        match spec_states(bs0, max_dt, thr, g, upto) {
            Some((s, t)) => if upto as int % ws == 0 {
                prev.push((t, positions_of(s)))
            } else {
                prev
            },
            None => prev,
        }
    }
}

/// A state of the simulation once degenerate stays degenerate, and emits
/// no further snapshot.
pub proof fn lemma_degenerate_stays(
    bs0: Seq<BodyV>,
    max_dt: int,
    thr: int,
    g: int,
    ws: int,
    i: nat,
    k: nat,
)
    requires
        spec_states(bs0, max_dt, thr, g, i) is None,
        i <= k,
    ensures
        spec_states(bs0, max_dt, thr, g, k) is None,
        spec_snapshots(bs0, max_dt, thr, g, ws, k) == spec_snapshots(
            bs0,
            max_dt,
            thr,
            g,
            ws,
            (i - 1) as nat,
        ),
    decreases k - i,
{
    if k > i {
        lemma_degenerate_stays(bs0, max_dt, thr, g, ws, i, (k - 1) as nat);
    }
}

/// An emitted snapshot: the elapsed simulation time and the positions of
/// the generation it was taken from.
pub struct Snapshot {
    pub t: i64,
    pub positions: Vec<Vec2>,
}

/// The mathematical image of a snapshot.
pub open spec fn snap_view(s: Snapshot) -> (int, Seq<V2>) {
    (s.t as int, v2_views(s.positions@))
}

/// The mathematical images of a sequence of snapshots.
pub open spec fn snaps_views(s: Seq<Snapshot>) -> Seq<(int, Seq<V2>)> {
    s.map_values(|sn: Snapshot| snap_view(sn))
}

/// The global timestep of one iteration (see `spec_global_timestep`): the
/// minimum of the ceiling `max_dt` and every pairwise bound that
/// `estimate_timestep` returns for an ordered pair of distinct bodies.
pub fn global_timestep(bodys: &Vec<Body>, max_dt: i64, dist_threshold: i64) -> (dt: i64)
    requires
        1 <= bodys@.len() <= N_MAX,
        all_wf(body_views(bodys@)),
        0 < max_dt <= DT_MAX,
        0 <= dist_threshold <= COORD_MAX,
    ensures
        dt == spec_global_timestep(body_views(bodys@), max_dt as int, dist_threshold as int),
        0 <= dt <= max_dt,
{
    let ghost bs = body_views(bodys@);
    let mut dt: i64 = max_dt;
    let mut i: usize = 0;
    while i < bodys.len()
        invariant
            i <= bodys@.len() <= N_MAX,
            bs == body_views(bodys@),
            all_wf(bs),
            0 < max_dt <= DT_MAX,
            0 <= dist_threshold <= COORD_MAX,
            dt == rows_min(bs, dist_threshold as int, max_dt as int, i as nat),
            0 <= dt <= max_dt,
        decreases bodys@.len() - i,
    {
        let mut j: usize = 0;
        while j < bodys.len()
            invariant
                i < bodys@.len() <= N_MAX,
                j <= bodys@.len(),
                bs == body_views(bodys@),
                all_wf(bs),
                0 < max_dt <= DT_MAX,
                0 <= dist_threshold <= COORD_MAX,
                dt == row_min(
                    bs,
                    i as int,
                    dist_threshold as int,
                    rows_min(bs, dist_threshold as int, max_dt as int, i as nat),
                    j as nat,
                ),
                0 <= dt <= max_dt,
            decreases bodys@.len() - j,
        {
            if j != i {
                proof {
                    assert(bs[i as int] == bodys@[i as int]@);
                    assert(bs[j as int] == bodys@[j as int]@);
                    assert(body_wf(bs[i as int]) && body_wf(bs[j as int]));
                }
                match bodys[i].estimate_timestep(&bodys[j], dist_threshold) {
                    Some(e) => {
                        if e < dt as i128 {
                            dt = e as i64;
                        }
                    },
                    None => {},
                }
            }
            j = j + 1;
        }
        i = i + 1;
    }
    dt
}

/// Advance the whole set one leapfrog step with the shared timestep `dt`:
/// every body is stepped against the frozen previous generation, excluding
/// itself by index, and the set is replaced atomically. Returns whether
/// every body stayed in the admitted range; on `false` the set is
/// unchanged.
pub fn advance(bodies: &mut Vec<Body>, dt: i64, g: i64) -> (ok: bool)
    requires
        all_wf(body_views(old(bodies)@)),
        old(bodies)@.len() <= N_MAX,
        0 <= dt <= DT_MAX,
        0 <= g <= G_MAX,
    ensures
        ok == spec_advance(body_views(old(bodies)@), dt as int, g as int) is Some,
        ok ==> Some(body_views(final(bodies)@)) == spec_advance(
            body_views(old(bodies)@),
            dt as int,
            g as int,
        ),
        ok ==> all_wf(body_views(final(bodies)@)) && final(bodies)@.len() == old(bodies)@.len(),
        !ok ==> final(bodies)@ == old(bodies)@,
{
    let ghost bs = body_views(old(bodies)@);
    let n = bodies.len();
    let mut next: Vec<Body> = Vec::new();
    let mut i: usize = 0;
    while i < n
        invariant
            i <= n == bodies@.len() <= N_MAX,
            bodies@ == old(bodies)@,
            bs == body_views(bodies@),
            all_wf(bs),
            0 <= dt <= DT_MAX,
            0 <= g <= G_MAX,
            next@.len() == i as int,
            forall|k: int|
                0 <= k < i as int ==> (#[trigger] spec_step(
                    bs[k],
                    dt as int,
                    g as int,
                    bs.remove(k),
                )) is Some && Some(next@[k]@) == spec_step(bs[k], dt as int, g as int, bs.remove(k))
                    && body_wf(next@[k]@),
        decreases n - i,
    {
        // the frozen neighbour set: the previous generation without body i
        let mut others: Vec<Body> = Vec::new();
        let mut j: usize = 0;
        while j < n
            invariant
                i < n == bodies@.len(),
                j <= n,
                j <= i as int ==> others@ == bodies@.subrange(0, j as int),
                j > i as int ==> others@ == bodies@.subrange(0, i as int) + bodies@.subrange(
                    i as int + 1,
                    j as int,
                ),
            decreases n - j,
        {
            if j != i {
                others.push(bodies[j]);
                proof {
                    if j > i {
                        assert(others@ =~= bodies@.subrange(0, i as int) + bodies@.subrange(
                            i as int + 1,
                            j as int + 1,
                        ));
                    }
                }
            } else {
                proof {
                    assert(others@ =~= bodies@.subrange(0, i as int) + bodies@.subrange(
                        i as int + 1,
                        i as int + 1,
                    ));
                }
            }
            j = j + 1;
        }
        proof {
            assert(others@ =~= bodies@.subrange(0, i as int) + bodies@.subrange(
                i as int + 1,
                n as int,
            ));
            assert(body_views(others@) =~= bs.remove(i as int));
        }
        let mut b = bodies[i];
        proof {
            assert(b@ == bs[i as int]);
            assert(body_wf(bs[i as int]));
        }
        let ok = b.step(dt, g, &others);
        if !ok {
            proof {
                assert(spec_step(bs[i as int], dt as int, g as int, bs.remove(i as int)) is None);
            }
            return false;
        }
        next.push(b);
        i = i + 1;
    }
    proof {
        assert(spec_advance(bs, dt as int, g as int) is Some);
        let r = spec_advance(bs, dt as int, g as int)->0;
        assert(body_views(next@) =~= r);
    }
    *bodies = next;
    true
}

/// The positions of the bodies, in order.
fn positions_vec(bodies: &Vec<Body>) -> (r: Vec<Vec2>)
    ensures
        v2_views(r@) == positions_of(body_views(bodies@)),
{
    let mut r: Vec<Vec2> = Vec::new();
    let mut i: usize = 0;
    while i < bodies.len()
        invariant
            i <= bodies@.len(),
            r@.len() == i as int,
            forall|k: int| 0 <= k < i as int ==> (#[trigger] r@[k]) == bodies@[k].pos,
        decreases bodies@.len() - i,
    {
        r.push(bodies[i].pos);
        i = i + 1;
    }
    proof {
        assert(v2_views(r@) =~= positions_of(body_views(bodies@)));
    }
    r
}

/// Run a whole simulation: normalize the frame, emit the snapshot of the
/// normalized initial state, then for iterations `1 .. number_of_steps`
/// select the global timestep, advance the set in lock-step, accumulate
/// the elapsed time and emit a snapshot every `write_step` iterations.
/// The second result is `false` when a generation degenerated (left the
/// admitted range) and the run stopped early; the snapshots to that point
/// are returned either way.
pub fn run(
    bodies: Vec<Body>,
    max_dt: i64,
    dist_threshold: i64,
    g: i64,
    number_of_steps: usize,
    write_step: usize,
) -> (out: (Vec<Snapshot>, bool))
    requires
        1 <= bodies@.len() <= N_MAX,
        start_wf(body_views(bodies@)),
        0 < max_dt <= DT_MAX,
        0 <= dist_threshold <= COORD_MAX,
        0 <= g <= G_MAX,
        1 <= number_of_steps <= STEPS_MAX,
        write_step >= 1,
    ensures
        ({
            let bs0 = shift_all(
                body_views(bodies@),
                spec_center_of_mass(body_views(bodies@)),
                spec_center_of_mass_velocity(body_views(bodies@)),
            );
            out.1 == spec_states(
                bs0,
                max_dt as int,
                dist_threshold as int,
                g as int,
                (number_of_steps - 1) as nat,
            ) is Some && snaps_views(out.0@) == spec_snapshots(
                bs0,
                max_dt as int,
                dist_threshold as int,
                g as int,
                write_step as int,
                (number_of_steps - 1) as nat,
            )
        }),
{
    let ghost orig: Seq<Body> = bodies@;
    let mut gen = bodies;
    normalize_frame(&mut gen);
    let ghost bs0 = body_views(gen@);
    proof {
        assert(bs0 == shift_all(
            body_views(orig),
            spec_center_of_mass(body_views(orig)),
            spec_center_of_mass_velocity(body_views(orig)),
        ));
    }
    let ghost thr: int = dist_threshold as int;
    let mut snaps: Vec<Snapshot> = Vec::new();
    let first = Snapshot { t: 0, positions: positions_vec(&gen) };
    snaps.push(first);
    proof {
        assert(snaps_views(snaps@) =~= spec_snapshots(
            bs0,
            max_dt as int,
            thr,
            g as int,
            write_step as int,
            0,
        ));
    }
    let mut t: i64 = 0;
    let mut i: usize = 1;
    while i < number_of_steps
        invariant
            1 <= i <= number_of_steps <= STEPS_MAX,
            0 < max_dt <= DT_MAX,
            0 <= dist_threshold <= COORD_MAX,
            thr == dist_threshold as int,
            0 <= g <= G_MAX,
            write_step >= 1,
            1 <= gen@.len() <= N_MAX,
            bs0.len() == gen@.len(),
            orig == bodies@,
            bs0 == shift_all(
                body_views(orig),
                spec_center_of_mass(body_views(orig)),
                spec_center_of_mass_velocity(body_views(orig)),
            ),
            all_wf(body_views(gen@)),
            spec_states(bs0, max_dt as int, thr, g as int, (i - 1) as nat) == Some(
                (body_views(gen@), t as int),
            ),
            0 <= t <= (i - 1) * 8_000_000_000,
            snaps_views(snaps@) == spec_snapshots(
                bs0,
                max_dt as int,
                thr,
                g as int,
                write_step as int,
                (i - 1) as nat,
            ),
        decreases number_of_steps - i,
    {
        let dt = global_timestep(&gen, max_dt, dist_threshold);
        let ok = advance(&mut gen, dt, g);
        if !ok {
            proof {
                assert(spec_states(bs0, max_dt as int, thr, g as int, i as nat) is None);
                lemma_degenerate_stays(
                    bs0,
                    max_dt as int,
                    thr,
                    g as int,
                    write_step as int,
                    i as nat,
                    (number_of_steps - 1) as nat,
                );
                assert(spec_states(
                    bs0,
                    max_dt as int,
                    thr,
                    g as int,
                    (number_of_steps - 1) as nat,
                ) is None);
                assert(spec_snapshots(
                    bs0,
                    max_dt as int,
                    thr,
                    g as int,
                    write_step as int,
                    (number_of_steps - 1) as nat,
                ) == snaps_views(snaps@));
            }
            return (snaps, false);
        }
        t = t + dt;
        proof {
            assert(spec_states(bs0, max_dt as int, thr, g as int, i as nat) == Some(
                (body_views(gen@), t as int),
            ));
        }
        if i % write_step == 0 {
            let snap = Snapshot { t, positions: positions_vec(&gen) };
            snaps.push(snap);
        }
        proof {
            assert(snaps_views(snaps@) =~= spec_snapshots(
                bs0,
                max_dt as int,
                thr,
                g as int,
                write_step as int,
                i as nat,
            ));
        }
        i = i + 1;
    }
    (snaps, true)
}

} // verus!
