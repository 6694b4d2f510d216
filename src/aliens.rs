//! The alien formation: rows that march side to side, turn and descend at the
//! edges, speed up as they thin out, and fire at the player.
use crate::geometry::{
    any_y_below, distance2, find_hit, some_hit, generate_row_of_aliens, lemma_wrap_add, row_origin_x, shift_cells, shift_prototype,
    shifted_all, squared_distance, wrap, Coord, Row, VIEWPORT_MAX_X, VIEWPORT_MAX_Y, VIEWPORT_MIN_X,
};
use crate::player::{laser_views, Laser, LaserView};
use rand::Rng;
use vstd::prelude::*;

verus! {

/// One alien: its cells. A single hit destroys it.
#[derive(Debug)]
pub struct Alien {
    pub position: Vec<Coord>,
}

impl Row for Alien {
    open spec fn cells(&self) -> Seq<Coord> {
        self.position@
    }

    fn generate(position: Vec<Coord>) -> (r: Alien) {
        Alien { position }
    }
}

/// A row of aliens that share one pattern, and the tick it last stepped at
/// (a tick in the future delays its next step).
#[derive(Debug)]
pub struct AliensRow {
    pub aliens: Vec<Alien>,
    pub last_update: u64,
}

/// What a row is made of: the cells of each alien, and its schedule.
pub struct RowView {
    pub aliens: Seq<Seq<Coord>>,
    pub last_update: u64,
}

impl View for AliensRow {
    type V = RowView;

    open spec fn view(&self) -> RowView {
        RowView { aliens: self.aliens@.map_values(|a: Alien| a.position@), last_update: self.last_update }
    }
}

/// The side the formation marches to.
#[derive(Debug, Clone, Copy, PartialEq, Eq, Structural)]
pub enum AlienDirection {
    Left,
    Right,
}

/// The whole formation, its lasers in flight, its cadence (ticks between two
/// steps of a row), its direction and the tick of its last shot.
#[derive(Debug)]
pub struct Aliens {
    pub aliens_rows: Vec<AliensRow>,
    pub lasers: Vec<Laser>,
    pub times_slower_than_cycle: u64,
    pub direction: AlienDirection,
    pub last_shot: u64,
}

/// The rows of a formation, as views.
pub open spec fn formation(rows: Seq<AliensRow>) -> Seq<RowView> {
    rows.map_values(|r: AliensRow| r@)
}

/// The number of aliens in a formation.
pub open spec fn aliens_count(v: Seq<RowView>) -> nat
    decreases v.len(),
{
    if v.len() == 0 {
        0
    } else {
        aliens_count(v.drop_last()) + v.last().aliens.len()
    }
}

/// The formation's cadence for a given number of aliens: the fewer are left,
/// the faster it moves.
pub open spec fn speed_for(count: int) -> u64 {
    if count >= 50 {
        100
    } else if count >= 40 {
        80
    } else if count >= 30 {
        50
    } else if count >= 20 {
        20
    } else if count >= 10 {
        5
    } else if count >= 5 {
        3
    } else if count >= 2 {
        2
    } else {
        1
    }
}

/// The other direction.
pub open spec fn flipped(d: AlienDirection) -> AlienDirection {
    match d {
        AlienDirection::Left => AlienDirection::Right,
        AlienDirection::Right => AlienDirection::Left,
    }
}

/// The horizontal step of one march in direction `d`.
pub open spec fn x_step(d: AlienDirection) -> int {
    match d {
        AlienDirection::Left => -Aliens::X_SHIFT_PER_UPDATE,
        AlienDirection::Right => Aliens::X_SHIFT_PER_UPDATE as int,
    }
}

/// Every alien of a row moved by `(dx, dy)`.
pub open spec fn shifted_row(aliens: Seq<Seq<Coord>>, dx: int, dy: int) -> Seq<Seq<Coord>> {
    aliens.map_values(|a: Seq<Coord>| shifted_all(a, dx, dy))
}

/// A row's next march in direction `d` would take its leading alien (the
/// first one going left, the last one going right) past the bound.
pub open spec fn would_cross(r: RowView, d: AlienDirection) -> bool {
    r.aliens.len() > 0 && match d {
        AlienDirection::Left => exists|i: int|
            0 <= i < r.aliens[0].len() && (#[trigger] r.aliens[0][i]).x - Aliens::X_SHIFT_PER_UPDATE
                < VIEWPORT_MIN_X,
        AlienDirection::Right => exists|i: int|
            0 <= i < r.aliens.last().len() && (#[trigger] r.aliens.last()[i]).x
                + Aliens::X_SHIFT_PER_UPDATE > VIEWPORT_MAX_X,
    }
}

/// `now + d`, held at the largest tick.
pub open spec fn tick_after(now: u64, d: int) -> u64 {
    if now + d > u64::MAX {
        u64::MAX
    } else {
        (now + d) as u64
    }
}

/// The rows that still hold aliens.
pub open spec fn nonempty_rows(v: Seq<RowView>) -> Seq<RowView> {
    v.filter(|r: RowView| r.aliens.len() > 0)
}

/// The tick that row `i` of `count` rows waits for after a descent: the rear
/// row first, each row further forward a fixed delay later.
pub open spec fn descent_schedule(now: u64, count: int, i: int) -> u64 {
    tick_after(now, Aliens::ROWS_DELAY_SHIFT * (count - 1 - i))
}

/// The formation after a turn: empty rows are dropped, every other row moves
/// one descent step down and is rescheduled.
pub open spec fn descend(v: Seq<RowView>, now: u64) -> Seq<RowView> {
    let kept = nonempty_rows(v);
    kept.map(|i: int, r: RowView| descended_row(r, now, kept.len() as int, i))
}

proof fn lemma_count_nonneg_rows(v: Seq<RowView>, i: int)
    requires
        0 <= i <= v.len(),
    ensures
        aliens_count(v.subrange(0, i)) <= aliens_count(v),
    decreases v.len() - i,
{
    if i < v.len() {
        lemma_count_nonneg_rows(v, i + 1);
        assert(v.subrange(0, i + 1).drop_last() =~= v.subrange(0, i));
    } else {
        assert(v.subrange(0, i) =~= v);
    }
}

/// A row's wait since its last step is over at tick `now`.
pub open spec fn row_due(r: RowView, now: u64, cadence: u64) -> bool {
    now >= r.last_update + cadence
}

/// A row that is due and whose march would cross the bound: the formation turns.
pub open spec fn turns(r: RowView, now: u64, cadence: u64, d: AlienDirection) -> bool {
    row_due(r, now, cadence) && would_cross(r, d)
}

/// The first row from `i` on that makes the formation turn, or the number of
/// rows where none does.
pub open spec fn first_turn_from(
    v: Seq<RowView>,
    now: u64,
    cadence: u64,
    d: AlienDirection,
    i: int,
) -> int
    decreases v.len() - i,
{
    if i < 0 || i >= v.len() {
        v.len() as int
    } else if turns(v[i], now, cadence, d) {
        i
    } else {
        first_turn_from(v, now, cadence, d, i + 1)
    }
}

/// The first row that makes the formation turn, or the number of rows.
pub open spec fn first_turn(v: Seq<RowView>, now: u64, cadence: u64, d: AlienDirection) -> int {
    first_turn_from(v, now, cadence, d, 0)
}

/// A row after its march: moved one step and stamped with `now` if it was
/// due, untouched otherwise.
pub open spec fn marched_row(r: RowView, now: u64, cadence: u64, d: AlienDirection) -> RowView {
    if row_due(r, now, cadence) {
        RowView { aliens: shifted_row(r.aliens, x_step(d), 0), last_update: now }
    } else {
        r
    }
}

/// The formation after rows `0..k` have marched.
pub open spec fn march(v: Seq<RowView>, now: u64, cadence: u64, d: AlienDirection, k: int) -> Seq<
    RowView,
> {
    Seq::new(
        v.len(),
        |j: int|
            if j < k {
                marched_row(v[j], now, cadence, d)
            } else {
                v[j]
            },
    )
}

/// One row after a descent, as the `i`-th of `count` rows.
pub open spec fn descended_row(r: RowView, now: u64, count: int, i: int) -> RowView {
    RowView {
        aliens: shifted_row(r.aliens, 0, Aliens::Y_SHIFT_PER_UPDATE as int),
        last_update: descent_schedule(now, count, i),
    }
}

/// An enemy laser after its step at tick `now`: moved down if it was due.
pub open spec fn stepped_laser(l: LaserView, now: u64) -> LaserView {
    if now >= l.last_update + l.times_slower_than_cycle {
        LaserView {
            position: shifted_all(l.position, 0, Aliens::LASER_SPEED as int),
            last_update: now,
            times_slower_than_cycle: l.times_slower_than_cycle,
        }
    } else {
        l
    }
}

/// Some cell of the laser is still above the bottom bound.
pub open spec fn in_view(l: LaserView) -> bool {
    exists|i: int| 0 <= i < l.position.len() && (#[trigger] l.position[i]).y < VIEWPORT_MAX_Y
}

/// The laser still has a cell above the bottom bound after its step at tick
/// `now`; the test is made on the moved rows as integers, so a step past the
/// end of the coordinate range leaves the view too.
pub open spec fn stays_in_view(l: LaserView, now: u64) -> bool {
    if now >= l.last_update + l.times_slower_than_cycle {
        exists|i: int|
            0 <= i < l.position.len() && (#[trigger] l.position[i]).y + Aliens::LASER_SPEED
                < VIEWPORT_MAX_Y
    } else {
        in_view(l)
    }
}

/// The enemy lasers after one step: those whose step leaves the view are
/// gone, and each remaining laser that is due moves down.
pub open spec fn advance_lasers(v: Seq<LaserView>, now: u64) -> Seq<LaserView> {
    v.filter(|l: LaserView| stays_in_view(l, now)).map_values(|l: LaserView| stepped_laser(l, now))
}

/// The leading (first) cell of every alien, row by row.
pub open spec fn leads_of(v: Seq<RowView>) -> Seq<Coord>
    decreases v.len(),
{
    if v.len() == 0 {
        Seq::empty()
    } else {
        leads_of(v.drop_last()) + v.last().aliens.map_values(|a: Seq<Coord>| a[0])
    }
}

/// Every alien of the formation has a cell.
pub open spec fn all_aliens_have_cells(v: Seq<RowView>) -> bool {
    forall|i: int, j: int|
        0 <= i < v.len() && 0 <= j < v[i].aliens.len() ==> (#[trigger] v[i].aliens[j]).len() > 0
}

/// `i` comes before `j` when ordered by distance, ties kept in list order.
pub open spec fn closer(d: Seq<u64>, i: int, j: int) -> bool {
    d[i] < d[j] || (d[i] == d[j] && i < j)
}

/// `r` lists the (at most) `k` entries of `d` with the smallest distances,
/// nearest first: the first `k` of a stable sort by distance.
pub open spec fn is_nearest_order(d: Seq<u64>, r: Seq<usize>, k: int) -> bool {
    &&& r.len() <= k
    &&& forall|p: int| 0 <= p < r.len() ==> #[trigger] r[p] < d.len()
    &&& forall|p: int, q: int|
        0 <= p < q < r.len() ==> closer(d, #[trigger] r[p] as int, #[trigger] r[q] as int)
    &&& forall|i: usize|
        i < d.len() && !#[trigger] r.contains(i) ==> r.len() == k && forall|p: int|
            0 <= p < r.len() ==> closer(d, #[trigger] r[p] as int, i as int)
}

/// The nearest-first candidate order of `d`; `is_nearest_order` admits only
/// one, see `lemma_nearest_order_unique`.
pub open spec fn nearest_order(d: Seq<u64>, k: int) -> Seq<usize> {
    choose|r: Seq<usize>| is_nearest_order(d, r, k)
}

proof fn lemma_nearest_prefix_agree(d: Seq<u64>, r1: Seq<usize>, r2: Seq<usize>, k: int, p: int)
    requires
        is_nearest_order(d, r1, k),
        is_nearest_order(d, r2, k),
        0 <= p <= r1.len(),
        p <= r2.len(),
    ensures
        forall|q: int| 0 <= q < p ==> r1[q] == r2[q],
    decreases p,
{
    if p > 0 {
        let j = p - 1;
        lemma_nearest_prefix_agree(d, r1, r2, k, j);
        let a = r1[j];
        let b = r2[j];
        if a != b {
            let ba = if r2.contains(a) {
                let q = choose|q: int| 0 <= q < r2.len() && r2[q] == a;
                if q < j {
                    assert(r1[q] == r2[q]);
                    assert(closer(d, r1[q] as int, r1[j] as int));
                }
                q > j
            } else {
                assert(closer(d, r2[j] as int, a as int));
                true
            };
            assert(closer(d, b as int, a as int));
            if r1.contains(b) {
                let q = choose|q: int| 0 <= q < r1.len() && r1[q] == b;
                if q < j {
                    assert(r2[q] == r1[q]);
                    assert(closer(d, r2[q] as int, r2[j] as int));
                }
                assert(q > j);
                assert(closer(d, a as int, b as int));
            } else {
                assert(closer(d, r1[j] as int, b as int));
            }
        }
    }
}

/// Two orders that both satisfy `is_nearest_order` are the same.
pub proof fn lemma_nearest_order_unique(d: Seq<u64>, r1: Seq<usize>, r2: Seq<usize>, k: int)
    requires
        is_nearest_order(d, r1, k),
        is_nearest_order(d, r2, k),
    ensures
        r1 == r2,
{
    if r1.len() < r2.len() {
        lemma_nearest_prefix_agree(d, r1, r2, k, r1.len() as int);
        let b = r2[r1.len() as int];
        assert(r1.contains(b));
        let q = choose|q: int| 0 <= q < r1.len() && r1[q] == b;
        assert(r2[q] == r1[q]);
        assert(closer(d, r2[q] as int, r2[r1.len() as int] as int));
    } else if r2.len() < r1.len() {
        lemma_nearest_prefix_agree(d, r2, r1, k, r2.len() as int);
        let b = r1[r2.len() as int];
        assert(r2.contains(b));
        let q = choose|q: int| 0 <= q < r2.len() && r2[q] == b;
        assert(r1[q] == r2[q]);
        assert(closer(d, r1[q] as int, r1[r2.len() as int] as int));
    } else {
        lemma_nearest_prefix_agree(d, r1, r2, k, r1.len() as int);
        assert(r1 =~= r2);
    }
}

/// The first of the rolls `p..n` that comes up one, or `n` where none does.
pub open spec fn first_one_from(rolls: Seq<u32>, n: int, p: int) -> int
    decreases n - p,
{
    if p < 0 || p >= n {
        n
    } else if rolls[p] == 1 {
        p
    } else {
        first_one_from(rolls, n, p + 1)
    }
}

/// The distances from each alien's leading cell to the player's first cell.
pub open spec fn lead_distances(v: Seq<RowView>, player: Seq<Coord>) -> Seq<u64> {
    leads_of(v).map_values(|c: Coord| distance2(c, player[0]) as u64)
}

/// The laser an alien fires from the leading cell `lead`.
pub open spec fn enemy_laser(prototype: Seq<Coord>, lead: Coord, now: u64) -> LaserView {
    LaserView {
        position: shifted_all(prototype, lead.x as int, wrap(lead.y + Laser::MODEL_HEIGHT) as int),
        last_update: now,
        times_slower_than_cycle: Aliens::LASER_SLOWER_THAN_CYCLE,
    }
}

/// The formation may shoot at tick `now`: enough time has passed since its
/// last shot and fewer lasers than the cap are in flight.
pub open spec fn may_shoot(a: Aliens, now: u64) -> bool {
    now > a.last_shot + Aliens::SHOTS_MIN_INTERVAL && a.lasers.len() < Aliens::MAX_LASERS_AT_A_TIME
}

/// How a shot decision turns `a` into `b`, given the player's cells, the laser
/// template and one roll of a five-sided die per candidate: the nearest
/// candidates are tried in order, and the first whose roll is one fires.
pub open spec fn shot_outcome(
    a: Aliens,
    b: Aliens,
    now: u64,
    player: Seq<Coord>,
    prototype: Seq<Coord>,
    rolls: Seq<u32>,
) -> bool {
    let v = formation(a.aliens_rows@);
    let d = lead_distances(v, player);
    &&& b.aliens_rows == a.aliens_rows
    &&& b.times_slower_than_cycle == a.times_slower_than_cycle
    &&& b.direction == a.direction
    &&& if !may_shoot(a, now) {
        b.lasers == a.lasers && b.last_shot == a.last_shot
    } else {
        let order = nearest_order(d, Aliens::MAX_LASERS_AT_A_TIME as int);
        let p = first_one_from(rolls, order.len() as int, 0);
        if p < order.len() {
            &&& laser_views(b.lasers@) == laser_views(a.lasers@).push(
                enemy_laser(prototype, leads_of(v)[order[p] as int], now),
            )
            &&& b.last_shot == now
        } else {
            b.lasers == a.lasers && b.last_shot == a.last_shot
        }
    }
}

/// Relies on rand::thread_rng and rand::Rng::gen_range: a value drawn from
/// `0..sides`, which must not be empty.
#[verifier::external_body]
fn roll_die(sides: u32) -> (r: u32)
    requires
        sides > 0,
    ensures
        r < sides,
{
    rand::thread_rng().gen_range(0..sides)
}

/// `j` may come next after the entries already chosen in `r`.
pub open spec fn after_chosen(d: Seq<u64>, r: Seq<usize>, j: int) -> bool {
    r.len() == 0 || closer(d, r.last() as int, j)
}

fn closer_exec(d: &Vec<u64>, i: usize, j: usize) -> (r: bool)
    requires
        i < d.len(),
        j < d.len(),
    ensures
        r == closer(d@, i as int, j as int),
{
    d[i] < d[j] || (d[i] == d[j] && i < j)
}

/// The indices of the `k` smallest distances, nearest first; ties keep list order.
pub fn nearest(d: &Vec<u64>, k: usize) -> (r: Vec<usize>)
    ensures
        is_nearest_order(d@, r@, k as int),
        r@ == nearest_order(d@, k as int),
{
    let n = d.len();
    let mut r: Vec<usize> = Vec::new();
    while r.len() < k
        invariant
            n == d.len(),
            r.len() <= k,
            forall|p: int| 0 <= p < r.len() ==> #[trigger] r@[p] < n,
            forall|p: int, q: int|
                0 <= p < q < r.len() ==> closer(d@, #[trigger] r@[p] as int, #[trigger] r@[q] as int),
            forall|i: usize|
                i < n && !#[trigger] r@.contains(i) ==> forall|p: int|
                    0 <= p < r.len() ==> closer(d@, #[trigger] r@[p] as int, i as int),
        decreases k - r.len(),
    {
        let len = r.len();
        let mut best: usize = n;
        let mut i: usize = 0;
        while i < n
            invariant
                n == d.len(),
                len == r.len(),
                forall|p: int| 0 <= p < r.len() ==> #[trigger] r@[p] < n,
                i <= n,
                best == n || (best < i && after_chosen(d@, r@, best as int)),
                forall|j: int|
                    0 <= j < i && #[trigger] after_chosen(d@, r@, j) ==> best < n && (j == best
                        || closer(d@, best as int, j)),
            decreases n - i,
        {
            let candidate = len == 0 || closer_exec(d, r[len - 1], i);
            assert(candidate == after_chosen(d@, r@, i as int));
            if candidate && (best == n || closer_exec(d, i, best)) {
                best = i;
            }
            i += 1;
        }
        if best == n {
            assert forall|j: usize| j < n implies #[trigger] r@.contains(j) by {
                if !r@.contains(j) {
                    if len > 0 {
                        assert(closer(d@, r@[len - 1] as int, j as int));
                    }
                    assert(after_chosen(d@, r@, j as int));
                }
            }
            assert(is_nearest_order(d@, r@, k as int));
            proof {
                lemma_nearest_order_unique(d@, r@, nearest_order(d@, k as int), k as int);
            }
            return r;
        }
        proof {
            if r@.contains(best) {
                let p = choose|p: int| 0 <= p < r.len() && r@[p] == best;
                if p < len - 1 {
                    assert(closer(d@, r@[p] as int, r@[len - 1] as int));
                }
            }
        }
        let ghost before = r@;
        r.push(best);
        assert forall|i: usize|
            i < n && !#[trigger] r@.contains(i) implies forall|p: int|
            0 <= p < r.len() ==> closer(d@, #[trigger] r@[p] as int, i as int) by {
            assert(!before.contains(i)) by {
                if before.contains(i) {
                    let p = choose|p: int| 0 <= p < before.len() && before[p] == i;
                    assert(r@[p] == i);
                }
            }
            if len > 0 {
                assert(closer(d@, before[len - 1] as int, i as int));
            }
            assert(after_chosen(d@, before, i as int));
            assert(r@[len as int] == best);
            assert(i != best);
        }
    }
    assert(is_nearest_order(d@, r@, k as int));
    proof {
        lemma_nearest_order_unique(d@, r@, nearest_order(d@, k as int), k as int);
    }
    r
}

/// The template of row `idx` of a new formation: squids at the back, then
/// two rows of crabs, then two rows of octopuses.
pub open spec fn row_template(
    idx: int,
    squid: Seq<Coord>,
    crab: Seq<Coord>,
    octopus: Seq<Coord>,
) -> Seq<Coord> {
    if idx == 0 {
        squid
    } else if idx <= 2 {
        crab
    } else {
        octopus
    }
}

/// Row `idx` of a new formation, built from its template.
pub open spec fn initial_row(prototype: Seq<Coord>, idx: int, now: u64) -> RowView {
    RowView {
        aliens: Seq::new(
            Aliens::NUMBER as nat,
            |i: int|
                shifted_all(
                    prototype,
                    row_origin_x(Aliens::INITIAL_X as int, Aliens::STEP as int, i),
                    Aliens::INITIAL_Y + idx * Aliens::ROWS_STEP,
                ),
        ),
        last_update: tick_after(now, Aliens::ROWS_DELAY_SHIFT * (Aliens::ROWS_NUMBER - 1 - idx)),
    }
}

/// The first alien from `j` on that the laser strikes, or the number of aliens.
pub open spec fn first_alien_hit_from(aliens: Seq<Seq<Coord>>, laser: Seq<Coord>, j: int) -> int
    decreases aliens.len() - j,
{
    if j < 0 || j >= aliens.len() {
        aliens.len() as int
    } else if some_hit(aliens[j], laser) {
        j
    } else {
        first_alien_hit_from(aliens, laser, j + 1)
    }
}

/// The laser strikes some alien of the row.
pub open spec fn row_hit(r: RowView, laser: Seq<Coord>) -> bool {
    first_alien_hit_from(r.aliens, laser, 0) < r.aliens.len()
}

/// The rearmost row at or before `i` that the laser strikes, or -1.
pub open spec fn last_row_hit_from(v: Seq<RowView>, laser: Seq<Coord>, i: int) -> int
    decreases i + 1,
{
    if i < 0 || i >= v.len() {
        -1
    } else if row_hit(v[i], laser) {
        i
    } else {
        last_row_hit_from(v, laser, i - 1)
    }
}

/// The rearmost row that the laser strikes, or -1.
pub open spec fn last_row_hit(v: Seq<RowView>, laser: Seq<Coord>) -> int {
    last_row_hit_from(v, laser, v.len() - 1)
}

/// The formation after a laser has been tested against it: rows from the
/// rear forward, aliens in row order; the first alien struck is gone.
pub open spec fn after_kill(v: Seq<RowView>, laser: Seq<Coord>) -> Seq<RowView> {
    let r = last_row_hit(v, laser);
    if r >= 0 {
        v.update(
            r,
            RowView {
                aliens: v[r].aliens.remove(first_alien_hit_from(v[r].aliens, laser, 0)),
                last_update: v[r].last_update,
            },
        )
    } else {
        v
    }
}

/// `b` is the formation `a` after its step at tick `now`: if some due row
/// would cross the bound, the formation turns and descends, and no row takes a
/// horizontal step; otherwise every due row marches.
pub open spec fn formation_step(a: Aliens, b: Aliens, now: u64) -> bool {
    let v = formation(a.aliens_rows@);
    let cadence = a.times_slower_than_cycle;
    let d = a.direction;
    &&& if first_turn(v, now, cadence, d) < v.len() {
        &&& b.direction == flipped(d)
        &&& formation(b.aliens_rows@) == descend(v, now)
    } else {
        &&& b.direction == d
        &&& formation(b.aliens_rows@) == march(v, now, cadence, d, v.len() as int)
    }
    &&& b.lasers == a.lasers
    &&& b.times_slower_than_cycle == a.times_slower_than_cycle
    &&& b.last_shot == a.last_shot
}

/// Every laser of the list has at least two cells.
pub open spec fn lasers_have_two_cells(ls: Seq<LaserView>) -> bool {
    forall|i: int| 0 <= i < ls.len() ==> (#[trigger] ls[i]).position.len() >= 2
}

/// Stepping lasers and dropping those out of view keeps them whole.
pub proof fn lemma_advance_keeps_shapes(v: Seq<LaserView>, now: u64)
    requires
        lasers_have_two_cells(v),
    ensures
        lasers_have_two_cells(advance_lasers(v, now)),
        advance_lasers(v, now).len() <= v.len(),
{
    let f = v.filter(|l: LaserView| stays_in_view(l, now));
    let a = advance_lasers(v, now);
    v.lemma_filter_len(|l: LaserView| stays_in_view(l, now));
    assert forall|i: int| 0 <= i < a.len() implies (#[trigger] a[i]).position.len() >= 2 by {
        assert(f.contains(f[i]));
        v.lemma_filter_contains_rev(|l: LaserView| stays_in_view(l, now), f[i]);
        let q = choose|q: int| 0 <= q < v.len() && v[q] == f[i];
        assert(v[q].position.len() >= 2);
    }
}

/// Two formations whose rows hold as many aliens each hold as many aliens.
pub proof fn lemma_count_same_sizes(v: Seq<RowView>, w: Seq<RowView>)
    requires
        v.len() == w.len(),
        forall|i: int| 0 <= i < v.len() ==> (#[trigger] v[i]).aliens.len() == w[i].aliens.len(),
    ensures
        aliens_count(v) == aliens_count(w),
    decreases v.len(),
{
    if v.len() > 0 {
        lemma_count_same_sizes(v.drop_last(), w.drop_last());
    }
}

/// Dropping empty rows loses no alien.
pub proof fn lemma_count_nonempty(v: Seq<RowView>)
    ensures
        aliens_count(nonempty_rows(v)) == aliens_count(v),
    decreases v.len(),
{
    reveal(Seq::filter);
    if v.len() > 0 {
        lemma_count_nonempty(v.drop_last());
        let f = nonempty_rows(v.drop_last());
        if v.last().aliens.len() > 0 {
            assert(nonempty_rows(v) == f.push(v.last()));
            assert(f.push(v.last()).drop_last() =~= f);
        }
    }
}

/// Replacing one row changes the count by the difference in its size.
pub proof fn lemma_count_update(v: Seq<RowView>, r: int, row: RowView)
    requires
        0 <= r < v.len(),
    ensures
        aliens_count(v.update(r, row)) == aliens_count(v) - v[r].aliens.len() + row.aliens.len(),
    decreases v.len(),
{
    if r == v.len() - 1 {
        assert(v.update(r, row).drop_last() =~= v.drop_last());
    } else {
        lemma_count_update(v.drop_last(), r, row);
        assert(v.update(r, row).drop_last() =~= v.drop_last().update(r, row));
    }
}

/// Marching and descending move aliens; they neither add nor remove one, and
/// leave every alien its cells.
pub proof fn lemma_step_keeps_aliens(
    v: Seq<RowView>,
    now: u64,
    cadence: u64,
    d: AlienDirection,
    k: int,
)
    ensures
        aliens_count(march(v, now, cadence, d, k)) == aliens_count(v),
        aliens_count(descend(v, now)) == aliens_count(v),
        all_aliens_have_cells(v) ==> all_aliens_have_cells(march(v, now, cadence, d, k)),
        all_aliens_have_cells(v) ==> all_aliens_have_cells(descend(v, now)),
{
    let m = march(v, now, cadence, d, k);
    assert forall|i: int| 0 <= i < v.len() implies (#[trigger] v[i]).aliens.len()
        == m[i].aliens.len() by {}
    lemma_count_same_sizes(v, m);
    let kept = nonempty_rows(v);
    let e = descend(v, now);
    assert forall|i: int| 0 <= i < kept.len() implies (#[trigger] kept[i]).aliens.len()
        == e[i].aliens.len() by {}
    lemma_count_same_sizes(kept, e);
    lemma_count_nonempty(v);
    if all_aliens_have_cells(v) {
        assert forall|i: int, j: int|
            0 <= i < m.len() && 0 <= j < m[i].aliens.len() implies (
            #[trigger] m[i].aliens[j]).len() > 0 by {
            assert(v[i].aliens[j].len() > 0);
        }
        assert forall|i: int, j: int|
            0 <= i < e.len() && 0 <= j < e[i].aliens.len() implies (
            #[trigger] e[i].aliens[j]).len() > 0 by {
            assert(kept.contains(kept[i]));
            v.lemma_filter_contains_rev(|r: RowView| r.aliens.len() > 0, kept[i]);
            assert(v.contains(kept[i]));
            let q = choose|q: int| 0 <= q < v.len() && v[q] == kept[i];
            assert(v[q].aliens[j].len() > 0);
        }
    }
}

proof fn lemma_nonempty_prefix_len(v: Seq<RowView>, t: int)
    requires
        0 <= t <= v.len(),
    ensures
        nonempty_rows(v.subrange(0, t)).len() <= nonempty_rows(v).len(),
    decreases v.len() - t,
{
    reveal(Seq::filter);
    if t < v.len() {
        lemma_nonempty_prefix_len(v, t + 1);
        assert(v.subrange(0, t + 1).drop_last() =~= v.subrange(0, t));
    } else {
        assert(v.subrange(0, t) =~= v);
    }
}

impl AliensRow {
    /// Moves every alien of the row by `(x_shift, y_shift)`.
    pub fn shift_aliens(&mut self, x_shift: i16, y_shift: i16)
        ensures
            final(self)@.aliens == shifted_row(old(self)@.aliens, x_shift as int, y_shift as int),
            final(self).last_update == old(self).last_update,
    {
        let mut moved: Vec<Alien> = Vec::new();
        let ghost before = old(self)@.aliens;
        let ghost n = before.len();
        while self.aliens.len() > 0
            invariant
                moved.len() + self.aliens.len() == n,
                self.last_update == old(self).last_update,
                forall|j: int|
                    0 <= j < moved.len() ==> (#[trigger] moved@[j]).position@ == shifted_all(
                        before[j],
                        x_shift as int,
                        y_shift as int,
                    ),
                forall|j: int|
                    0 <= j < self.aliens.len() ==> (#[trigger] self.aliens@[j]).position@
                        == before[moved.len() + j],
            decreases self.aliens.len(),
        {
            let alien = self.aliens.remove(0);
            let position = shift_cells(&alien.position, x_shift, y_shift);
            moved.push(Alien { position });
        }
        self.aliens = moved;
        assert(self@.aliens =~= shifted_row(before, x_shift as int, y_shift as int));
    }

    /// Whether the row's next march in `direction` would cross the bound.
    pub fn need_to_change_direction(&self, direction: AlienDirection) -> (r: bool)
        ensures
            r == would_cross(self@, direction),
    {
        if self.aliens.len() == 0 {
            return false;
        }
        match direction {
            AlienDirection::Left => {
                let alien = &self.aliens[0];
                assert(self@.aliens[0] == alien.position@);
                let mut i: usize = 0;
                while i < alien.position.len()
                    invariant
                        i <= alien.position.len(),
                        self@.aliens.len() > 0,
                        self@.aliens[0] == alien.position@,
                        direction == AlienDirection::Left,
                        forall|j: int| 0 <= j < i ==> #[trigger] alien.position@[j].x - 1 >= 1,
                    decreases alien.position.len() - i,
                {
                    if (alien.position[i].x as i32 - Aliens::X_SHIFT_PER_UPDATE as i32) < (
                    VIEWPORT_MIN_X as i32) {
                        assert(self@.aliens[0][i as int] == alien.position@[i as int]);
                        return true;
                    }
                    i += 1;
                }
                false
            },
            AlienDirection::Right => {
                let last = self.aliens.len() - 1;
                let alien = &self.aliens[last];
                assert(self@.aliens.last() == alien.position@);
                let mut i: usize = 0;
                while i < alien.position.len()
                    invariant
                        i <= alien.position.len(),
                        self@.aliens.len() > 0,
                        self@.aliens.last() == alien.position@,
                        direction == AlienDirection::Right,
                        forall|j: int| 0 <= j < i ==> #[trigger] alien.position@[j].x + 1 <= 200,
                    decreases alien.position.len() - i,
                {
                    if alien.position[i].x as i32 + Aliens::X_SHIFT_PER_UPDATE as i32
                        > VIEWPORT_MAX_X as i32 {
                        assert(self@.aliens.last()[i as int] == alien.position@[i as int]);
                        return true;
                    }
                    i += 1;
                }
                false
            },
        }
    }
}

impl Aliens {
    pub const INITIAL_X: u16 = 1;

    pub const INITIAL_Y: u16 = 1;

    pub const NUMBER: u16 = 4;

    pub const SLOWER_THAN_CYCLE: u64 = 100;

    pub const X_SHIFT_PER_UPDATE: i16 = 1;

    pub const Y_SHIFT_PER_UPDATE: i16 = 2;

    pub const ROWS_DELAY_SHIFT: u64 = 20;

    pub const ROWS_NUMBER: usize = 5;

    pub const ROWS_STEP: u16 = 5;

    pub const STEP: u16 = 14;

    pub const MAX_LASERS_AT_A_TIME: usize = 3;

    pub const LASER_SPEED: u16 = 2;

    pub const SHOTS_MIN_INTERVAL: u64 = 200;

    pub const LASER_SLOWER_THAN_CYCLE: u64 = 25;

    /// A candidate fires when its roll of a die with this many sides is one.
    pub const SHOT_DIE_SIDES: u32 = 5;

    /// The number of aliens left in the formation.
    pub open spec fn count(&self) -> nat {
        aliens_count(formation(self.aliens_rows@))
    }

    pub fn get_aliens_count(&self) -> (r: usize)
        requires
            self.count() <= usize::MAX,
        ensures
            r == self.count(),
    {
        let ghost v = formation(self.aliens_rows@);
        let mut total: usize = 0;
        let mut i: usize = 0;
        while i < self.aliens_rows.len()
            invariant
                v == formation(self.aliens_rows@),
                aliens_count(v) <= usize::MAX,
                i <= v.len(),
                total == aliens_count(v.subrange(0, i as int)),
            decreases v.len() - i,
        {
            assert(v.subrange(0, i + 1).drop_last() =~= v.subrange(0, i as int));
            proof {
                lemma_count_nonneg_rows(v, i + 1);
            }
            total = total + self.aliens_rows[i].aliens.len();
            i += 1;
        }
        assert(v.subrange(0, i as int) =~= v);
        total
    }

    /// Turns the formation: flips its direction, drops the rows that are empty,
    /// and moves every other row one descent step down, rescheduled so that
    /// the rear row moves first.
    pub fn change_direction(&mut self, now: u64)
        ensures
            final(self).direction == flipped(old(self).direction),
            formation(final(self).aliens_rows@) == descend(formation(old(self).aliens_rows@), now),
            final(self).lasers == old(self).lasers,
            final(self).times_slower_than_cycle == old(self).times_slower_than_cycle,
            final(self).last_shot == old(self).last_shot,
    {
        self.direction = match self.direction {
            AlienDirection::Left => AlienDirection::Right,
            AlienDirection::Right => AlienDirection::Left,
        };
        let ghost v = formation(self.aliens_rows@);
        let ghost m = nonempty_rows(v).len() as int;
        let n = self.aliens_rows.len();
        let mut rows_left: usize = 0;
        let mut i: usize = 0;
        while i < n
            invariant
                n == v.len(),
                v == formation(self.aliens_rows@),
                i <= n,
                rows_left == nonempty_rows(v.subrange(0, i as int)).len(),
                rows_left <= i,
            decreases n - i,
        {
            proof {
                reveal(Seq::filter);
                assert(v.subrange(0, i + 1).drop_last() =~= v.subrange(0, i as int));
            }
            if self.aliens_rows[i].aliens.len() > 0 {
                rows_left = rows_left + 1;
            }
            i += 1;
        }
        assert(v.subrange(0, n as int) =~= v);
        let mut rest: Vec<AliensRow> = Vec::new();
        std::mem::swap(&mut self.aliens_rows, &mut rest);
        let mut kept: Vec<AliensRow> = Vec::new();
        let ghost mut t: int = 0;
        assert(formation(rest@) =~= v.subrange(0, n as int));
        while rest.len() > 0
            invariant
                n == v.len(),
                m == nonempty_rows(v).len(),
                rows_left == m,
                0 <= t <= n,
                formation(rest@) == v.subrange(t, n as int),
                formation(kept@) == nonempty_rows(v.subrange(0, t)).map(
                    |j: int, r: RowView| descended_row(r, now, m, j),
                ),
                self.direction == flipped(old(self).direction),
                self.lasers == old(self).lasers,
                self.times_slower_than_cycle == old(self).times_slower_than_cycle,
                self.last_shot == old(self).last_shot,
            decreases rest.len(),
        {
            let ghost prev = nonempty_rows(v.subrange(0, t));
            let ghost before = rest@;
            assert(formation(before).len() == before.len());
            assert(t < n);
            assert(formation(before)[0] == before[0]@);
            assert(v.subrange(t, n as int)[0] == v[t]);
            let mut row = rest.remove(0);
            assert(row@ == v[t]);
            proof {
                reveal(Seq::filter);
                assert(v.subrange(0, t + 1).drop_last() =~= v.subrange(0, t));
                lemma_nonempty_prefix_len(v, t + 1);
                assert forall|j: int| 0 <= j < rest.len() implies #[trigger] formation(rest@)[j]
                    == v.subrange(t + 1, n as int)[j] by {
                    assert(rest@[j] == before[j + 1]);
                    assert(formation(before)[j + 1] == before[j + 1]@);
                }
                assert(formation(rest@) =~= v.subrange(t + 1, n as int));
            }
            if row.aliens.len() > 0 {
                let idx = kept.len();
                assert(formation(kept@).len() == kept.len());
                assert(nonempty_rows(v.subrange(0, t + 1)) == prev.push(v[t]));
                row.shift_aliens(0, Self::Y_SHIFT_PER_UPDATE);
                let behind = (rows_left - 1 - idx) as u64;
                let wait = if behind <= u64::MAX / Self::ROWS_DELAY_SHIFT {
                    Self::ROWS_DELAY_SHIFT * behind
                } else {
                    u64::MAX
                };
                row.last_update = now.saturating_add(wait);
                assert(row@ == descended_row(v[t], now, m, idx as int));
                let ghost kept_before = kept@;
                kept.push(row);
                assert forall|j: int| 0 <= j < kept.len() implies #[trigger] formation(kept@)[j]
                    == prev.push(v[t]).map(|j: int, r: RowView| descended_row(r, now, m, j))[j] by {
                    if j < idx {
                        assert(kept@[j] == kept_before[j]);
                        assert(formation(kept_before)[j] == kept_before[j]@);
                    }
                }
                assert(formation(kept@) =~= prev.push(v[t]).map(
                    |j: int, r: RowView| descended_row(r, now, m, j),
                ));
            } else {
                assert(prev =~= nonempty_rows(v.subrange(0, t + 1)));
            }
            proof {
                t = t + 1;
            }
        }
        assert(v.subrange(0, t) =~= v);
        self.aliens_rows = kept;
    }

    /// One formation step at tick `now`. If some due row would cross the
    /// bound, the formation turns and descends, and no row marches in this
    /// tick; otherwise each due row marches one step in the current direction.
    pub fn update(&mut self, now: u64)
        ensures
            formation_step(*old(self), *final(self), now),
            final(self).count() == old(self).count(),
            all_aliens_have_cells(formation(old(self).aliens_rows@)) ==> all_aliens_have_cells(
                formation(final(self).aliens_rows@),
            ),
    {
        let ghost v = formation(self.aliens_rows@);
        let cadence = self.times_slower_than_cycle;
        proof {
            lemma_step_keeps_aliens(v, now, cadence, self.direction, v.len() as int);
        }
        let d = self.direction;
        let n = self.aliens_rows.len();
        let mut i: usize = 0;
        while i < n
            invariant
                n == v.len(),
                n == self.aliens_rows.len(),
                i <= n,
                first_turn(v, now, cadence, d) == first_turn_from(v, now, cadence, d, i as int),
                formation(self.aliens_rows@) == v,
                cadence == self.times_slower_than_cycle,
                d == self.direction,
                cadence == old(self).times_slower_than_cycle,
                d == old(self).direction,
                v == formation(old(self).aliens_rows@),
                self.lasers == old(self).lasers,
                self.last_shot == old(self).last_shot,
            decreases n - i,
        {
            assert(formation(self.aliens_rows@)[i as int] == self.aliens_rows@[i as int]@);
            let last = self.aliens_rows[i].last_update;
            if now >= last && now - last >= cadence && self.aliens_rows[i].need_to_change_direction(
                d,
            ) {
                self.change_direction(now);
                proof {
                    lemma_step_keeps_aliens(v, now, cadence, d, v.len() as int);
                }
                return;
            }
            i += 1;
        }
        let mut i: usize = 0;
        assert(march(v, now, cadence, d, 0) =~= v);
        while i < n
            invariant
                n == v.len(),
                n == self.aliens_rows.len(),
                i <= n,
                formation(self.aliens_rows@) == march(v, now, cadence, d, i as int),
                cadence == self.times_slower_than_cycle,
                d == self.direction,
                cadence == old(self).times_slower_than_cycle,
                d == old(self).direction,
                v == formation(old(self).aliens_rows@),
                self.lasers == old(self).lasers,
                self.last_shot == old(self).last_shot,
            decreases n - i,
        {
            assert(formation(self.aliens_rows@)[i as int] == self.aliens_rows@[i as int]@);
            assert(self.aliens_rows@[i as int]@ == v[i as int]);
            let last = self.aliens_rows[i].last_update;
            if !(now >= last && now - last >= cadence) {
                assert(march(v, now, cadence, d, i + 1) =~= march(v, now, cadence, d, i as int));
                i += 1;
                continue;
            }
            let dx: i16 = match d {
                AlienDirection::Left => -Self::X_SHIFT_PER_UPDATE,
                AlienDirection::Right => Self::X_SHIFT_PER_UPDATE,
            };
            let ghost before = self.aliens_rows@;
            self.aliens_rows[i].shift_aliens(dx, 0);
            self.aliens_rows[i].last_update = now;
            assert(formation(self.aliens_rows@) =~= march(v, now, cadence, d, i + 1)) by {
                assert forall|j: int| 0 <= j < n implies #[trigger] formation(
                    self.aliens_rows@,
                )[j] == march(v, now, cadence, d, i + 1)[j] by {
                    assert(formation(before)[j] == before[j]@);
                    if j != i {
                        assert(self.aliens_rows@[j] == before[j]);
                    }
                }
            }
            i += 1;
        }
    }

    /// Builds row `idx` of a new formation.
    fn make_row(prototype: &Vec<Coord>, idx: usize, now: u64) -> (r: AliensRow)
        requires
            idx < Self::ROWS_NUMBER,
        ensures
            r@ == initial_row(prototype@, idx as int, now),
    {
        let y = Self::INITIAL_Y + (idx as u16) * Self::ROWS_STEP;
        let aliens: Vec<Alien> = generate_row_of_aliens(
            prototype,
            Self::INITIAL_X,
            y,
            Self::NUMBER,
            Self::STEP,
        );
        let behind = (Self::ROWS_NUMBER - 1 - idx) as u64;
        let last_update = now.saturating_add(Self::ROWS_DELAY_SHIFT * behind);
        let r = AliensRow { aliens, last_update };
        assert forall|i: int| 0 <= i < Self::NUMBER implies #[trigger] r@.aliens[i] == initial_row(
            prototype@,
            idx as int,
            now,
        ).aliens[i] by {
            assert(r@.aliens[i] == aliens@[i].cells());
        }
        assert(r@.aliens =~= initial_row(prototype@, idx as int, now).aliens);
        r
    }

    /// This is the formation that `init` builds from these templates at tick `now`.
    pub open spec fn is_initial(
        &self,
        squid: Seq<Coord>,
        crab: Seq<Coord>,
        octopus: Seq<Coord>,
        now: u64,
    ) -> bool {
        &&& self.aliens_rows.len() == Self::ROWS_NUMBER
        &&& forall|idx: int|
            0 <= idx < Self::ROWS_NUMBER ==> #[trigger] formation(self.aliens_rows@)[idx]
                == initial_row(row_template(idx, squid, crab, octopus), idx, now)
        &&& self.lasers.len() == 0
        &&& self.times_slower_than_cycle == Self::SLOWER_THAN_CYCLE
        &&& self.direction == AlienDirection::Right
        &&& self.last_shot == now
    }

    /// A new formation at tick `now`: five rows of four aliens, marching right
    /// at the slowest cadence, the rear row due first.
    pub fn init(squid: &Vec<Coord>, crab: &Vec<Coord>, octopus: &Vec<Coord>, now: u64) -> (r: Aliens)
        ensures
            r.is_initial(squid@, crab@, octopus@, now),
    {
        let mut rows: Vec<AliensRow> = Vec::new();
        rows.push(Self::make_row(squid, 0, now));
        rows.push(Self::make_row(crab, 1, now));
        rows.push(Self::make_row(crab, 2, now));
        rows.push(Self::make_row(octopus, 3, now));
        rows.push(Self::make_row(octopus, 4, now));
        Aliens {
            aliens_rows: rows,
            lasers: Vec::new(),
            times_slower_than_cycle: Self::SLOWER_THAN_CYCLE,
            direction: AlienDirection::Right,
            last_shot: now,
        }
    }

    /// Steps each enemy laser that is due one move down, and drops those that
    /// have no cell left above the bottom bound.
    pub fn update_existing_aliens_lasers(&mut self, now: u64)
        ensures
            laser_views(final(self).lasers@) == advance_lasers(laser_views(old(self).lasers@), now),
            final(self).aliens_rows == old(self).aliens_rows,
            final(self).times_slower_than_cycle == old(self).times_slower_than_cycle,
            final(self).direction == old(self).direction,
            final(self).last_shot == old(self).last_shot,
    {
        let ghost v = laser_views(self.lasers@);
        let ghost n = v.len();
        let mut rest: Vec<Laser> = Vec::new();
        std::mem::swap(&mut self.lasers, &mut rest);
        let mut kept: Vec<Laser> = Vec::new();
        let ghost mut t: int = 0;
        assert(laser_views(rest@) =~= v.subrange(0, n as int));
        assert(advance_lasers(v.subrange(0, 0), now) =~= Seq::<LaserView>::empty()) by {
            reveal(Seq::filter);
        }
        while rest.len() > 0
            invariant
                0 <= t <= n,
                n == v.len(),
                laser_views(rest@) == v.subrange(t, n as int),
                laser_views(kept@) == advance_lasers(v.subrange(0, t), now),
                self.aliens_rows == old(self).aliens_rows,
                self.times_slower_than_cycle == old(self).times_slower_than_cycle,
                self.direction == old(self).direction,
                self.last_shot == old(self).last_shot,
            decreases rest.len(),
        {
            let ghost before = rest@;
            assert(laser_views(before).len() == before.len());
            assert(t < n);
            assert(laser_views(before)[0] == before[0]@);
            assert(v.subrange(t, n as int)[0] == v[t]);
            let mut l = rest.remove(0);
            assert forall|j: int| 0 <= j < rest.len() implies #[trigger] laser_views(rest@)[j]
                == v.subrange(t + 1, n as int)[j] by {
                assert(rest@[j] == before[j + 1]);
                assert(laser_views(before)[j + 1] == before[j + 1]@);
            }
            assert(laser_views(rest@) =~= v.subrange(t + 1, n as int));
            let due = l.due(now);
            let stays = if due {
                any_y_below(&l.position, VIEWPORT_MAX_Y - Self::LASER_SPEED)
            } else {
                any_y_below(&l.position, VIEWPORT_MAX_Y)
            };
            proof {
                if stays {
                    let k = choose|k: int|
                        0 <= k < l.position.len() && #[trigger] l.position@[k].y < (if due {
                            VIEWPORT_MAX_Y - Self::LASER_SPEED
                        } else {
                            VIEWPORT_MAX_Y as int
                        });
                    assert(l@.position[k] == l.position@[k]);
                }
            }
            assert(stays == stays_in_view(v[t], now));
            if due {
                l.position = shift_cells(&l.position, 0, Self::LASER_SPEED as i16);
                l.last_update = now;
            }
            assert(l@ == stepped_laser(v[t], now));
            let ghost prev = v.subrange(0, t).filter(|x: LaserView| stays_in_view(x, now));
            assert(v.subrange(0, t + 1).drop_last() =~= v.subrange(0, t));
            reveal(Seq::filter);
            let ghost kept_before = kept@;
            if stays {
                assert(v.subrange(0, t + 1).filter(|x: LaserView| stays_in_view(x, now))
                    == prev.push(v[t]));
                assert(laser_views(kept_before).len() == kept_before.len());
                assert(advance_lasers(v.subrange(0, t), now).len() == prev.len());
                assert(kept_before.len() == prev.len());
                kept.push(l);
                assert forall|j: int| 0 <= j < kept.len() implies #[trigger] laser_views(kept@)[j]
                    == advance_lasers(v.subrange(0, t + 1), now)[j] by {
                    if j < kept.len() - 1 {
                        assert(kept@[j] == kept_before[j]);
                        assert(laser_views(kept_before)[j] == kept_before[j]@);
                        assert(prev.push(v[t])[j] == prev[j]);
                    }
                }
                assert(laser_views(kept@) =~= advance_lasers(v.subrange(0, t + 1), now));
            } else {
                assert(v.subrange(0, t + 1).filter(|x: LaserView| stays_in_view(x, now)) == prev);
                assert(laser_views(kept@) =~= advance_lasers(v.subrange(0, t + 1), now));
            }
            proof {
                t = t + 1;
            }
        }
        assert(v.subrange(0, t) =~= v);
        self.lasers = kept;
    }

    /// The leading cell of every alien, row by row.
    fn lead_cells(&self) -> (r: Vec<Coord>)
        requires
            all_aliens_have_cells(formation(self.aliens_rows@)),
        ensures
            r@ == leads_of(formation(self.aliens_rows@)),
    {
        let ghost v = formation(self.aliens_rows@);
        let mut r: Vec<Coord> = Vec::new();
        let mut i: usize = 0;
        while i < self.aliens_rows.len()
            invariant
                v == formation(self.aliens_rows@),
                all_aliens_have_cells(v),
                i <= v.len(),
                r@ == leads_of(v.subrange(0, i as int)),
            decreases v.len() - i,
        {
            let row = &self.aliens_rows[i];
            assert(v[i as int] == row@);
            let ghost firsts = row@.aliens.map_values(|a: Seq<Coord>| a[0]);
            let mut j: usize = 0;
            while j < row.aliens.len()
                invariant
                    v[i as int] == row@,
                    all_aliens_have_cells(v),
                    i < v.len(),
                    j <= row.aliens.len(),
                    firsts == row@.aliens.map_values(|a: Seq<Coord>| a[0]),
                    r@ == leads_of(v.subrange(0, i as int)) + firsts.subrange(0, j as int),
                decreases row.aliens.len() - j,
            {
                assert(row@.aliens[j as int] == row.aliens@[j as int].position@);
                assert(row@.aliens[j as int].len() > 0);
                r.push(row.aliens[j].position[0]);
                assert(r@ =~= leads_of(v.subrange(0, i as int)) + firsts.subrange(0, j + 1));
                j += 1;
            }
            assert(v.subrange(0, i + 1).drop_last() =~= v.subrange(0, i as int));
            assert(firsts.subrange(0, j as int) =~= firsts);
            i += 1;
        }
        assert(v.subrange(0, i as int) =~= v);
        r
    }

    /// Decides one shot at tick `now`, given one roll of a five-sided die per
    /// candidate. The candidates are the aliens whose leading cells are
    /// nearest to the player's first cell, nearest first; the first whose roll
    /// is one fires a laser from its leading cell.
    pub fn shoot_with(
        &mut self,
        now: u64,
        player: &Vec<Coord>,
        laser_prototype: &Vec<Coord>,
        rolls: &Vec<u32>,
    )
        requires
            all_aliens_have_cells(formation(old(self).aliens_rows@)),
            player.len() >= 1,
            rolls.len() >= Self::MAX_LASERS_AT_A_TIME,
        ensures
            shot_outcome(*old(self), *final(self), now, player@, laser_prototype@, rolls@),
    {
        if !(now > self.last_shot && now - self.last_shot > Self::SHOTS_MIN_INTERVAL) {
            return;
        }
        if self.lasers.len() >= Self::MAX_LASERS_AT_A_TIME {
            return;
        }
        let ghost v = formation(self.aliens_rows@);
        let leads = self.lead_cells();
        let target = player[0];
        let mut dists: Vec<u64> = Vec::new();
        let mut i: usize = 0;
        while i < leads.len()
            invariant
                i <= leads.len(),
                player.len() >= 1,
                target == player@[0],
                dists@ == leads@.subrange(0, i as int).map_values(
                    |c: Coord| distance2(c, player@[0]) as u64,
                ),
            decreases leads.len() - i,
        {
            dists.push(squared_distance(&leads[i], &target));
            assert(dists@ =~= leads@.subrange(0, i + 1).map_values(
                |c: Coord| distance2(c, player@[0]) as u64,
            ));
            i += 1;
        }
        assert(leads@.subrange(0, i as int) =~= leads@);
        let order = nearest(&dists, Self::MAX_LASERS_AT_A_TIME);
        proof {
            let d = lead_distances(v, player@);
            let k = Self::MAX_LASERS_AT_A_TIME as int;
            assert(is_nearest_order(d, order@, k));
            lemma_nearest_order_unique(d, order@, nearest_order(d, k), k);
        }
        let mut p: usize = 0;
        while p < order.len()
            invariant
                p <= order.len(),
                order.len() <= rolls.len(),
                v == formation(old(self).aliens_rows@),
                leads@ == leads_of(v),
                order@ == nearest_order(
                    lead_distances(v, player@),
                    Self::MAX_LASERS_AT_A_TIME as int,
                ),
                may_shoot(*old(self), now),
                first_one_from(rolls@, order.len() as int, 0) == first_one_from(
                    rolls@,
                    order.len() as int,
                    p as int,
                ),
                forall|q: int| 0 <= q < order.len() ==> #[trigger] order@[q] < leads.len(),
                self.aliens_rows == old(self).aliens_rows,
                self.lasers == old(self).lasers,
                self.last_shot == old(self).last_shot,
                self.times_slower_than_cycle == old(self).times_slower_than_cycle,
                self.direction == old(self).direction,
            decreases order.len() - p,
        {
            if rolls[p] == 1 {
                let lead = leads[order[p]];
                proof {
                    lemma_wrap_add(lead.y, Laser::MODEL_HEIGHT);
                }
                let position = shift_prototype(
                    laser_prototype,
                    lead.x,
                    lead.y.wrapping_add(Laser::MODEL_HEIGHT),
                );
                let ghost before = self.lasers@;
                self.lasers.push(
                    Laser {
                        position,
                        last_update: now,
                        times_slower_than_cycle: Self::LASER_SLOWER_THAN_CYCLE,
                    },
                );
                self.last_shot = now;
                assert(laser_views(self.lasers@) =~= laser_views(before).push(
                    enemy_laser(laser_prototype@, leads_of(v)[order@[p as int] as int], now),
                ));
                return;
            }
            p += 1;
        }
    }

    /// Decides one shot at tick `now`, rolling the dice for the candidates.
    pub fn shoot(&mut self, now: u64, player: &Vec<Coord>, laser_prototype: &Vec<Coord>)
        requires
            all_aliens_have_cells(formation(old(self).aliens_rows@)),
            player.len() >= 1,
        ensures
            exists|rolls: Seq<u32>|
                rolls.len() == Self::MAX_LASERS_AT_A_TIME && (forall|i: int|
                    0 <= i < rolls.len() ==> #[trigger] rolls[i] < Self::SHOT_DIE_SIDES) && shot_outcome(
                    *old(self),
                    *final(self),
                    now,
                    player@,
                    laser_prototype@,
                    rolls,
                ),
    {
        let mut rolls: Vec<u32> = Vec::new();
        while rolls.len() < Self::MAX_LASERS_AT_A_TIME
            invariant
                rolls.len() <= Self::MAX_LASERS_AT_A_TIME,
                forall|i: int| 0 <= i < rolls.len() ==> #[trigger] rolls@[i] < Self::SHOT_DIE_SIDES,
            decreases Self::MAX_LASERS_AT_A_TIME - rolls.len(),
        {
            rolls.push(roll_die(Self::SHOT_DIE_SIDES));
        }
        self.shoot_with(now, player, laser_prototype, &rolls);
    }

    /// Tests the player's laser against the formation, rear row first and in
    /// row order within a row; the first alien it strikes is destroyed and the
    /// cadence is recomputed. Returns whether an alien was struck.
    pub fn kill_hit_alien(&mut self, laser: &Vec<Coord>) -> (r: bool)
        requires
            laser.len() >= 2,
            old(self).count() <= usize::MAX,
        ensures
            r == (last_row_hit(formation(old(self).aliens_rows@), laser@) >= 0),
            formation(final(self).aliens_rows@) == after_kill(
                formation(old(self).aliens_rows@),
                laser@,
            ),
            r ==> final(self).count() == old(self).count() - 1,
            r ==> final(self).times_slower_than_cycle == speed_for(final(self).count() as int),
            !r ==> *final(self) == *old(self),
            final(self).lasers == old(self).lasers,
            final(self).direction == old(self).direction,
            final(self).last_shot == old(self).last_shot,
            all_aliens_have_cells(formation(old(self).aliens_rows@)) ==> all_aliens_have_cells(
                formation(final(self).aliens_rows@),
            ),
    {
        let ghost v = formation(self.aliens_rows@);
        let mut i: usize = self.aliens_rows.len();
        while i > 0
            invariant
                v == formation(self.aliens_rows@),
                v == formation(old(self).aliens_rows@),
                self.aliens_rows.len() == v.len(),
                i <= v.len(),
                laser.len() >= 2,
                last_row_hit(v, laser@) == last_row_hit_from(v, laser@, i - 1),
                self.lasers == old(self).lasers,
                self.direction == old(self).direction,
                self.last_shot == old(self).last_shot,
                self.times_slower_than_cycle == old(self).times_slower_than_cycle,
                self.count() == old(self).count(),
                old(self).count() <= usize::MAX,
                *self == *old(self),
            decreases i,
        {
            i -= 1;
            assert(formation(self.aliens_rows@)[i as int] == self.aliens_rows@[i as int]@);
            let ghost row = v[i as int];
            let n = self.aliens_rows[i].aliens.len();
            let mut j: usize = 0;
            while j < n
                invariant
                    v == formation(self.aliens_rows@),
                    row == v[i as int],
                    i < v.len(),
                    self.aliens_rows.len() == v.len(),
                    n == row.aliens.len(),
                    j <= n,
                    laser.len() >= 2,
                    v == formation(old(self).aliens_rows@),
                    last_row_hit(v, laser@) == last_row_hit_from(v, laser@, i as int),
                    self.lasers == old(self).lasers,
                    self.direction == old(self).direction,
                    self.last_shot == old(self).last_shot,
                    self.times_slower_than_cycle == old(self).times_slower_than_cycle,
                    self.count() == old(self).count(),
                    old(self).count() <= usize::MAX,
                    *self == *old(self),
                    first_alien_hit_from(row.aliens, laser@, 0) == first_alien_hit_from(
                        row.aliens,
                        laser@,
                        j as int,
                    ),
                decreases n - j,
            {
                assert(formation(self.aliens_rows@)[i as int] == self.aliens_rows@[i as int]@);
                assert(row.aliens[j as int] == self.aliens_rows@[i as int].aliens@[j as int].position@);
                if find_hit(&self.aliens_rows[i].aliens[j].position, laser).is_some() {
                    let ghost before = self.aliens_rows@;
                    let ghost new_row = RowView {
                        aliens: row.aliens.remove(j as int),
                        last_update: row.last_update,
                    };
                    self.aliens_rows[i].aliens.remove(j);
                    assert(self.aliens_rows@[i as int]@.aliens =~= new_row.aliens);
                    assert(formation(self.aliens_rows@) =~= v.update(i as int, new_row)) by {
                        assert forall|q: int| 0 <= q < v.len() && q != i implies #[trigger] self.aliens_rows@[q]
                            == before[q] by {}
                    }
                    proof {
                        lemma_count_update(v, i as int, new_row);
                        if all_aliens_have_cells(v) {
                            let w = formation(self.aliens_rows@);
                            assert forall|a: int, b: int|
                                0 <= a < w.len() && 0 <= b < w[a].aliens.len() implies (
                                #[trigger] w[a].aliens[b]).len() > 0 by {
                                if a == i {
                                    if b < j {
                                        assert(w[a].aliens[b] == v[a].aliens[b]);
                                    } else {
                                        assert(w[a].aliens[b] == v[a].aliens[b + 1]);
                                    }
                                } else {
                                    assert(w[a] == v[a]);
                                }
                            }
                        }
                    }
                    self.set_speed();
                    return true;
                }
                j += 1;
            }
        }
        false
    }

    /// Recomputes the cadence from the number of aliens left.
    pub fn set_speed(&mut self)
        requires
            old(self).count() <= usize::MAX,
        ensures
            final(self).times_slower_than_cycle == speed_for(old(self).count() as int),
            final(self).aliens_rows == old(self).aliens_rows,
            final(self).lasers == old(self).lasers,
            final(self).direction == old(self).direction,
            final(self).last_shot == old(self).last_shot,
    {
        let c = self.get_aliens_count();
        self.times_slower_than_cycle = if c >= 50 {
            Self::SLOWER_THAN_CYCLE
        } else if c >= 40 {
            80
        } else if c >= 30 {
            50
        } else if c >= 20 {
            20
        } else if c >= 10 {
            5
        } else if c >= 5 {
            3
        } else if c >= 2 {
            2
        } else {
            1
        };
    }
}

} // verus!
