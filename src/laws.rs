//! Properties that relate several operations of the game, proved over the
//! specifications that those operations guarantee.
use crate::aliens::{
    advance_lasers, in_view, stays_in_view, stepped_laser,
    descend, first_turn, formation, formation_step, flipped, nonempty_rows,
    shifted_row, Aliens, };
use crate::bunker::{
    absorbed, bunker_cells, cells_within, eroded, first_bunker_hit, lemma_absorbed_shrinks,
    lemma_absorbed_within, near, total_cells,
};
use crate::game::ticks_after;
use crate::state::{
    aliens_updated, collisions_applied, enemy_fire_decided, enemy_fire_decided_with,
    enemy_lasers_resolved, lemma_resolve_shrinks, lemma_resolve_within, player_laser_updated,
    tick_step,
};
use crate::player::{laser_views, LaserView};
use crate::geometry::{shifted_all, Coord};
use crate::state::{player_laser_resolved, State};
use vstd::prelude::*;

verus! {

/// Instantiating a template at `(dx, dy)` yields exactly the cells of its
/// instance at the origin `(0, 0)`, each moved by `(dx, dy)`, wherever no
/// coordinate leaves the `u16` range.
pub proof fn law_instances_differ_by_origin(t: Seq<Coord>, dx: u16, dy: u16)
    requires
        forall|i: int|
            0 <= i < t.len() ==> (#[trigger] t[i]).x + dx <= u16::MAX && t[i].y + dy <= u16::MAX,
    ensures
        shifted_all(t, dx as int, dy as int).len() == shifted_all(t, 0, 0).len(),
        forall|i: int|
            0 <= i < t.len() ==> (#[trigger] shifted_all(t, dx as int, dy as int)[i] == (Coord {
                x: (shifted_all(t, 0, 0)[i].x + dx) as u16,
                y: (shifted_all(t, 0, 0)[i].y + dy) as u16,
                ch: shifted_all(t, 0, 0)[i].ch,
            })),
{
    assert forall|i: int| 0 <= i < t.len() implies #[trigger] shifted_all(
        t,
        dx as int,
        dy as int,
    )[i] == (Coord {
        x: (shifted_all(t, 0, 0)[i].x + dx) as u16,
        y: (shifted_all(t, 0, 0)[i].y + dy) as u16,
        ch: shifted_all(t, 0, 0)[i].ch,
    }) by {
        assert(t[i].x + dx <= u16::MAX);
    }
}

/// A strike at `s` removes from a bunker exactly the cells on the row of `s`
/// in columns `s.x - 1`, `s.x` and `s.x + 1`; every other cell stays.
pub proof fn law_erosion_is_local(cells: Seq<Coord>, s: Coord)
    ensures
        forall|p: Coord|
            (#[trigger] eroded(cells, s).contains(p)) == (cells.contains(p) && !near(p, s)),
{
    let pred = |p: Coord| !near(p, s);
    assert forall|p: Coord|
        (#[trigger] eroded(cells, s).contains(p)) == (cells.contains(p) && !near(p, s)) by {
        #[allow(deprecated)]
        cells.filter_lemma(pred);
        if eroded(cells, s).contains(p) {
            cells.lemma_filter_contains_rev(pred, p);
            let k = choose|k: int| 0 <= k < eroded(cells, s).len() && eroded(cells, s)[k] == p;
            assert(pred(eroded(cells, s)[k]));
        }
        if cells.contains(p) && !near(p, s) {
            let k = choose|k: int| 0 <= k < cells.len() && cells[k] == p;
            assert(pred(cells[k]));
        }
    }
}

/// The player's laser is tested against the bunkers first: where it strikes
/// a bunker, that bunker erodes, the laser is gone, and every alien stays,
/// even one that the laser overlaps too.
pub proof fn law_bunkers_shield_aliens(a: State, b: State)
    requires
        player_laser_resolved(a, b),
        a.player.laser is Some,
        first_bunker_hit(
            bunker_cells(a.bunkers.positions@),
            a.player.laser->Some_0.position@,
        ) < a.bunkers.positions.len(),
    ensures
        b.aliens == a.aliens,
        formation(b.aliens.aliens_rows@) == formation(a.aliens.aliens_rows@),
        b.player.laser is None,
        bunker_cells(b.bunkers.positions@) == absorbed(
            bunker_cells(a.bunkers.positions@),
            a.player.laser->Some_0.position@,
        ),
{
}

/// When a due row would cross the bound, the formation turns: its direction
/// flips once, no row takes a horizontal step, and every row that still holds
/// aliens moves one descent step down, keeping its columns.
pub proof fn law_turn_replaces_march(a: Aliens, b: Aliens, now: u64)
    requires
        formation_step(a, b, now),
        first_turn(
            formation(a.aliens_rows@),
            now,
            a.times_slower_than_cycle,
            a.direction,
        ) < a.aliens_rows.len(),
    ensures
        ({
            let kept = nonempty_rows(formation(a.aliens_rows@));
            &&& b.direction == flipped(a.direction)
            &&& formation(b.aliens_rows@).len() == kept.len()
            &&& forall|i: int|
                0 <= i < kept.len() ==> (#[trigger] formation(b.aliens_rows@)[i]).aliens
                    == shifted_row(kept[i].aliens, 0, Aliens::Y_SHIFT_PER_UPDATE as int)
        }),
{
    let v = formation(a.aliens_rows@);
    let kept = nonempty_rows(v);
    assert(v.len() == a.aliens_rows.len());
    assert(formation(b.aliens_rows@) == descend(v, now));
    assert(formation(b.aliens_rows@).len() == kept.len());
    assert forall|i: int| 0 <= i < kept.len() implies (#[trigger] formation(b.aliens_rows@)[i]).aliens
        == shifted_row(kept[i].aliens, 0, Aliens::Y_SHIFT_PER_UPDATE as int) by {
        assert(descend(v, now)[i].aliens == shifted_row(
            kept[i].aliens,
            0,
            Aliens::Y_SHIFT_PER_UPDATE as int,
        ));
    }
}

/// After the enemy lasers step, every laser that remains has a cell above the
/// bottom bound: a laser whose step takes all its cells past it is gone.
pub proof fn law_advanced_lasers_in_view(v: Seq<LaserView>, now: u64)
    ensures
        forall|i: int|
            0 <= i < advance_lasers(v, now).len() ==> in_view(#[trigger] advance_lasers(v, now)[i]),
{
    let pred = |l: LaserView| stays_in_view(l, now);
    let f = v.filter(pred);
    assert forall|i: int| 0 <= i < advance_lasers(v, now).len() implies in_view(
        #[trigger] advance_lasers(v, now)[i],
    ) by {
        #[allow(deprecated)]
        v.filter_lemma(pred);
        assert(pred(f[i]));
        let l = f[i];
        let a = advance_lasers(v, now)[i];
        assert(a == stepped_laser(l, now));
        if now >= l.last_update + l.times_slower_than_cycle {
            let k = choose|k: int|
                0 <= k < l.position.len() && (#[trigger] l.position[k]).y + Aliens::LASER_SPEED
                    < crate::geometry::VIEWPORT_MAX_Y;
            assert(a.position[k].y < crate::geometry::VIEWPORT_MAX_Y);
        }
    }
}

/// One tick never adds an alien, never adds or moves a bunker cell, and
/// never raises the player's health.
pub proof fn law_tick_never_adds(a: State, b: State, now: u64)
    requires
        tick_step(a, b, now),
    ensures
        b.aliens.count() <= a.aliens.count(),
        total_cells(bunker_cells(b.bunkers.positions@)) <= total_cells(
            bunker_cells(a.bunkers.positions@),
        ),
        cells_within(bunker_cells(b.bunkers.positions@), bunker_cells(a.bunkers.positions@)),
        b.player.health <= a.player.health,
{
    let s1 = choose|s1: State|
        #[trigger] player_laser_updated(a, s1, now) && exists|s2: State|
            #[trigger] aliens_updated(s1, s2, now) && exists|s3: State|
                #[trigger] enemy_fire_decided(s2, s3, now) && collisions_applied(s3, b);
    let s2 = choose|s2: State|
        #[trigger] aliens_updated(s1, s2, now) && exists|s3: State|
            #[trigger] enemy_fire_decided(s2, s3, now) && collisions_applied(s3, b);
    let s3 = choose|s3: State| #[trigger] enemy_fire_decided(s2, s3, now) && collisions_applied(s3, b);
    let rolls = choose|rolls: Seq<u32>|
        {
            &&& rolls.len() == Aliens::MAX_LASERS_AT_A_TIME
            &&& forall|i: int| 0 <= i < rolls.len() ==> #[trigger] rolls[i] < Aliens::SHOT_DIE_SIDES
            &&& #[trigger] enemy_fire_decided_with(s2, s3, now, rolls)
        };
    assert(s3.aliens.aliens_rows == s2.aliens.aliens_rows);
    let mid = choose|mid: State| player_laser_resolved(s3, mid) && #[trigger] enemy_lasers_resolved(mid, b);
    if let Some(l) = s3.player.laser {
        lemma_absorbed_shrinks(bunker_cells(s3.bunkers.positions@), l.position@);
        lemma_absorbed_within(bunker_cells(s3.bunkers.positions@), l.position@);
    }
    lemma_resolve_shrinks(
        laser_views(mid.aliens.lasers@),
        bunker_cells(mid.bunkers.positions@),
        mid.player.health,
        mid.player.position@,
    );
    lemma_resolve_within(
        laser_views(mid.aliens.lasers@),
        bunker_cells(mid.bunkers.positions@),
        mid.player.health,
        mid.player.position@,
    );
    let b0 = bunker_cells(a.bunkers.positions@);
    let b3 = bunker_cells(mid.bunkers.positions@);
    let b4 = bunker_cells(b.bunkers.positions@);
    assert(b0 == bunker_cells(s3.bunkers.positions@));
    assert(cells_within(b3, b0));
    assert forall|i: int, p: Coord| 0 <= i < b4.len() && #[trigger] b4[i].contains(p) implies b0[
        i].contains(p) by {
        assert(b3[i].contains(p));
    }
    assert(b.aliens.aliens_rows == mid.aliens.aliens_rows);
}

/// Across any run of ticks within one life, the number of aliens and of
/// bunker cells never grows, no bunker gains or moves a cell, and the
/// player's health never grows.
pub proof fn law_ticks_never_add(trace: Seq<State>, start: u64)
    requires
        trace.len() >= 1,
        forall|i: int|
            0 <= i < trace.len() - 1 ==> tick_step(
                #[trigger] trace[i],
                trace[i + 1],
                ticks_after(start, i + 1),
            ),
    ensures
        trace.last().aliens.count() <= trace[0].aliens.count(),
        total_cells(bunker_cells(trace.last().bunkers.positions@)) <= total_cells(
            bunker_cells(trace[0].bunkers.positions@),
        ),
        cells_within(
            bunker_cells(trace.last().bunkers.positions@),
            bunker_cells(trace[0].bunkers.positions@),
        ),
        trace.last().player.health <= trace[0].player.health,
    decreases trace.len(),
{
    if trace.len() > 1 {
        let front = trace.drop_last();
        assert forall|i: int| 0 <= i < front.len() - 1 implies tick_step(
            #[trigger] front[i],
            front[i + 1],
            ticks_after(start, i + 1),
        ) by {
            assert(front[i] == trace[i]);
            assert(front[i + 1] == trace[i + 1]);
        }
        law_ticks_never_add(front, start);
        let n = trace.len() - 1;
        assert(tick_step(trace[n - 1], trace[n], ticks_after(start, n)));
        law_tick_never_adds(trace[n - 1], trace[n], ticks_after(start, n));
        let first = bunker_cells(trace[0].bunkers.positions@);
        let mid = bunker_cells(trace[n - 1].bunkers.positions@);
        let last = bunker_cells(trace[n].bunkers.positions@);
        assert(front.last() == trace[n - 1]);
        assert forall|i: int, p: Coord| 0 <= i < last.len() && #[trigger] last[i].contains(
            p,
        ) implies first[i].contains(p) by {
            assert(mid[i].contains(p));
        }
    }
}

} // verus!
