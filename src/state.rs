//! The world of one life: the player, the formation, the bunkers, and the
//! rules that move them and resolve their collisions.
use crate::aliens::{
    advance_lasers, after_kill, aliens_count, all_aliens_have_cells, formation, formation_step,
    last_row_hit, lasers_have_two_cells, lemma_advance_keeps_shapes, shot_outcome, speed_for,
    Aliens, RowView,
};
use crate::asset::{parse_prototype, parse_text, AssetError};
use crate::bunker::{
    absorbed, bunker_cells, cells_within, first_bunker_hit, lemma_absorbed_shrinks,
    lemma_absorbed_within, total_cells, Bunkers,
};
use crate::geometry::{
    any_y_below, shift_cells, shift_prototype, shifted_all, some_hit, wrap, Coord, VIEWPORT_MIN_Y,
};
use crate::player::{
    blocked_left, blocked_right, health_after_hit, laser_views, Laser, LaserView, Player, RgbColor,
};
use vstd::prelude::*;

verus! {

/// The texts of the sprite templates that a world is built from.
pub struct Assets {
    pub player: String,
    pub laser: String,
    pub squid: String,
    pub crab: String,
    pub octopus: String,
    pub bunker: String,
}

/// The templates that the world needs while it runs.
#[derive(Debug)]
pub struct Prototypes {
    pub laser: Vec<Coord>,
}

/// Everything that one life of the game is made of.
#[derive(Debug)]
pub struct State {
    pub player: Player,
    pub aliens: Aliens,
    pub bunkers: Bunkers,
    pub prototypes: Prototypes,
    pub player_color: RgbColor,
}

/// A template read from text that must have at least `min_cells` cells.
pub open spec fn shape_of(text: Seq<char>, min_cells: nat) -> Result<Seq<Coord>, AssetError> {
    match parse_text(text) {
        Err(e) => Err(e),
        Ok(c) => if c.len() < min_cells {
            Err(AssetError::TooFewCells)
        } else {
            Ok(c)
        },
    }
}

/// The ship needs a tip, a laser its two cells, an alien a leading cell.
pub open spec fn player_shape(a: Assets) -> Result<Seq<Coord>, AssetError> {
    shape_of(a.player@, 1)
}

pub open spec fn laser_shape(a: Assets) -> Result<Seq<Coord>, AssetError> {
    shape_of(a.laser@, 2)
}

pub open spec fn squid_shape(a: Assets) -> Result<Seq<Coord>, AssetError> {
    shape_of(a.squid@, 1)
}

pub open spec fn crab_shape(a: Assets) -> Result<Seq<Coord>, AssetError> {
    shape_of(a.crab@, 1)
}

pub open spec fn octopus_shape(a: Assets) -> Result<Seq<Coord>, AssetError> {
    shape_of(a.octopus@, 1)
}

pub open spec fn bunker_shape(a: Assets) -> Result<Seq<Coord>, AssetError> {
    shape_of(a.bunker@, 0)
}

/// The first error among the templates, read in the order player, laser,
/// squid, crab, octopus, bunker; `None` where all of them are good.
pub open spec fn assets_error(a: Assets) -> Option<AssetError> {
    if player_shape(a) is Err {
        Some(player_shape(a)->Err_0)
    } else if laser_shape(a) is Err {
        Some(laser_shape(a)->Err_0)
    } else if squid_shape(a) is Err {
        Some(squid_shape(a)->Err_0)
    } else if crab_shape(a) is Err {
        Some(crab_shape(a)->Err_0)
    } else if octopus_shape(a) is Err {
        Some(octopus_shape(a)->Err_0)
    } else if bunker_shape(a) is Err {
        Some(bunker_shape(a)->Err_0)
    } else {
        None
    }
}

/// The player's laser after its step at tick `now`: unchanged until it is
/// due; gone if the step would take a cell above the top bound; else moved up.
pub open spec fn player_laser_step(l: LaserView, now: u64) -> Option<LaserView> {
    if now < l.last_update + l.times_slower_than_cycle {
        Some(l)
    } else if exists|i: int|
        0 <= i < l.position.len() && (#[trigger] l.position[i]).y - Player::LASER_SPEED
            < VIEWPORT_MIN_Y {
        None
    } else {
        Some(
            LaserView {
                position: shifted_all(l.position, 0, -Player::LASER_SPEED),
                last_update: now,
                times_slower_than_cycle: l.times_slower_than_cycle,
            },
        )
    }
}

/// The laser that the ship of `s` fires at tick `now`: the template placed
/// at the ship's tip (its first cell), its tail just above the ship.
pub open spec fn fired_laser(s: State, now: u64) -> LaserView {
    LaserView {
        position: shifted_all(
            s.prototypes.laser@,
            s.player.position@[0].x as int,
            wrap(s.player.position@[0].y - Laser::MODEL_HEIGHT) as int,
        ),
        last_update: now,
        times_slower_than_cycle: Player::LASER_SLOWER_THAN_CYCLE,
    }
}

/// The view of an optional laser.
pub open spec fn laser_view_of(o: Option<Laser>) -> Option<LaserView> {
    match o {
        Some(l) => Some(l@),
        None => None,
    }
}

/// `b` is `a` after its player's laser has been resolved: tested against the
/// bunkers first, in order, then against the aliens, rear row first; the
/// first thing struck takes the damage and the laser is gone.
pub open spec fn player_laser_resolved(a: State, b: State) -> bool {
    &&& b.player.health == a.player.health
    &&& b.player.position == a.player.position
    &&& b.prototypes == a.prototypes
    &&& b.player_color == a.player_color
    &&& match a.player.laser {
        None => {
            &&& b.player.laser is None
            &&& b.aliens == a.aliens
            &&& b.bunkers == a.bunkers
        },
        Some(l) => {
            let cells = bunker_cells(a.bunkers.positions@);
            let v = formation(a.aliens.aliens_rows@);
            if first_bunker_hit(cells, l.position@) < cells.len() {
                &&& bunker_cells(b.bunkers.positions@) == absorbed(cells, l.position@)
                &&& b.player.laser is None
                &&& b.aliens == a.aliens
            } else if last_row_hit(v, l.position@) >= 0 {
                &&& bunker_cells(b.bunkers.positions@) == cells
                &&& formation(b.aliens.aliens_rows@) == after_kill(v, l.position@)
                &&& b.aliens.count() == a.aliens.count() - 1
                &&& b.aliens.times_slower_than_cycle == speed_for(b.aliens.count() as int)
                &&& b.aliens.lasers == a.aliens.lasers
                &&& b.aliens.direction == a.aliens.direction
                &&& b.aliens.last_shot == a.aliens.last_shot
                &&& b.player.laser is None
            } else {
                &&& bunker_cells(b.bunkers.positions@) == cells
                &&& b.aliens == a.aliens
                &&& b.player.laser == a.player.laser
            }
        },
    }
}

/// What one enemy laser does: the first bunker it strikes erodes; else, if it
/// strikes the ship, health drops by one. The flag tells whether it is gone.
pub open spec fn enemy_laser_effect(
    b: Seq<Seq<Coord>>,
    health: usize,
    player: Seq<Coord>,
    l: Seq<Coord>,
) -> (Seq<Seq<Coord>>, usize, bool) {
    if first_bunker_hit(b, l) < b.len() {
        (absorbed(b, l), health, true)
    } else if some_hit(player, l) {
        (b, health_after_hit(health), true)
    } else {
        (b, health, false)
    }
}

/// The enemy lasers resolved one after the other, in order: the lasers that
/// remain, the bunkers' cells and the player's health.
pub open spec fn resolve_enemy_lasers(
    ls: Seq<LaserView>,
    b: Seq<Seq<Coord>>,
    health: usize,
    player: Seq<Coord>,
) -> (Seq<LaserView>, Seq<Seq<Coord>>, usize)
    decreases ls.len(),
{
    if ls.len() == 0 {
        (ls, b, health)
    } else {
        let e = enemy_laser_effect(b, health, player, ls[0].position);
        let rest = resolve_enemy_lasers(ls.drop_first(), e.0, e.1, player);
        (
            if e.2 {
                rest.0
            } else {
                seq![ls[0]] + rest.0
            },
            rest.1,
            rest.2,
        )
    }
}

/// Enemy lasers never add a bunker cell, never raise health, and never add a laser.
pub proof fn lemma_resolve_shrinks(
    ls: Seq<LaserView>,
    b: Seq<Seq<Coord>>,
    health: usize,
    player: Seq<Coord>,
)
    ensures
        ({
            let r = resolve_enemy_lasers(ls, b, health, player);
            &&& r.0.len() <= ls.len()
            &&& r.1.len() == b.len()
            &&& total_cells(r.1) <= total_cells(b)
            &&& r.2 <= health
        }),
    decreases ls.len(),
{
    if ls.len() > 0 {
        let e = enemy_laser_effect(b, health, player, ls[0].position);
        lemma_absorbed_shrinks(b, ls[0].position);
        lemma_resolve_shrinks(ls.drop_first(), e.0, e.1, player);
    }
}

/// Enemy lasers only remove bunker cells.
pub proof fn lemma_resolve_within(
    ls: Seq<LaserView>,
    b: Seq<Seq<Coord>>,
    health: usize,
    player: Seq<Coord>,
)
    ensures
        cells_within(resolve_enemy_lasers(ls, b, health, player).1, b),
    decreases ls.len(),
{
    if ls.len() > 0 {
        let e = enemy_laser_effect(b, health, player, ls[0].position);
        lemma_absorbed_within(b, ls[0].position);
        lemma_resolve_within(ls.drop_first(), e.0, e.1, player);
    }
}

/// `b` is `a` after its enemy lasers have been resolved.
pub open spec fn enemy_lasers_resolved(a: State, b: State) -> bool {
    let r = resolve_enemy_lasers(
        laser_views(a.aliens.lasers@),
        bunker_cells(a.bunkers.positions@),
        a.player.health,
        a.player.position@,
    );
    &&& laser_views(b.aliens.lasers@) == r.0
    &&& bunker_cells(b.bunkers.positions@) == r.1
    &&& b.player.health == r.2
    &&& b.player.position == a.player.position
    &&& b.player.laser == a.player.laser
    &&& b.aliens.aliens_rows == a.aliens.aliens_rows
    &&& b.aliens.times_slower_than_cycle == a.aliens.times_slower_than_cycle
    &&& b.aliens.direction == a.aliens.direction
    &&& b.aliens.last_shot == a.aliens.last_shot
    &&& b.prototypes == a.prototypes
    &&& b.player_color == a.player_color
}

/// Some cell of the alien is on the row of a cell of the ship, or below it.
pub open spec fn alien_reaches(a: Seq<Coord>, player: Seq<Coord>) -> bool {
    exists|c: int, p: int|
        0 <= c < a.len() && 0 <= p < player.len() && (#[trigger] a[c]).y >= (#[trigger] player[p]).y
}

/// Some alien of the formation has reached the ship's rows.
pub open spec fn invaded(v: Seq<RowView>, player: Seq<Coord>) -> bool {
    exists|i: int, j: int|
        0 <= i < v.len() && 0 <= j < v[i].aliens.len() && #[trigger] alien_reaches(
            v[i].aliens[j],
            player,
        )
}

/// One glyph cell to draw, with its colour where it has one.
#[derive(Debug, Clone, Copy, PartialEq, Eq, Structural)]
pub struct Cell {
    pub coord: Coord,
    pub color: Option<RgbColor>,
}

/// Cells to draw in one colour.
pub open spec fn painted(cells: Seq<Coord>, color: Option<RgbColor>) -> Seq<Cell> {
    cells.map_values(|c: Coord| Cell { coord: c, color })
}

/// The cells of every alien, rear row first.
pub open spec fn formation_cells(v: Seq<RowView>) -> Seq<Coord> {
    v.map_values(|r: RowView| r.aliens.flatten_alt()).flatten_alt()
}

/// The cells of every laser of a list.
pub open spec fn lasers_cells(ls: Seq<LaserView>) -> Seq<Coord> {
    ls.map_values(|l: LaserView| l.position).flatten_alt()
}

/// What a frame shows, in drawing order: the ship and its laser in the
/// player's colour, the aliens and their lasers uncoloured, and the bunkers
/// in the player's colour.
pub open spec fn frame(s: State) -> Seq<Cell> {
    let color = Some(s.player_color);
    let shot = match s.player.laser {
        Some(l) => l.position@,
        None => Seq::empty(),
    };
    painted(s.player.position@, color) + painted(shot, color) + painted(
        formation_cells(formation(s.aliens.aliens_rows@)),
        None,
    ) + painted(lasers_cells(laser_views(s.aliens.lasers@)), None) + painted(
        bunker_cells(s.bunkers.positions@).flatten_alt(),
        color,
    )
}

/// Appends `cells` in `color` to `out`.
fn paint(out: &mut Vec<Cell>, cells: &Vec<Coord>, color: Option<RgbColor>)
    ensures
        final(out)@ == old(out)@ + painted(cells@, color),
{
    let ghost start = out@;
    let mut i: usize = 0;
    while i < cells.len()
        invariant
            i <= cells.len(),
            out@ == start + painted(cells@.subrange(0, i as int), color),
        decreases cells.len() - i,
    {
        out.push(Cell { coord: cells[i], color });
        i += 1;
        assert(out@ =~= start + painted(cells@.subrange(0, i as int), color));
    }
    assert(cells@.subrange(0, i as int) =~= cells@);
}

proof fn lemma_painted_add(a: Seq<Coord>, b: Seq<Coord>, color: Option<RgbColor>)
    ensures
        painted(a + b, color) == painted(a, color) + painted(b, color),
{
    assert(painted(a + b, color) =~= painted(a, color) + painted(b, color));
}

/// `b` is `a` after its player's laser has stepped at tick `now`.
pub open spec fn player_laser_updated(a: State, b: State, now: u64) -> bool {
    &&& laser_view_of(b.player.laser) == match a.player.laser {
        None => None,
        Some(l) => player_laser_step(l@, now),
    }
    &&& b.player.health == a.player.health
    &&& b.player.position == a.player.position
    &&& b.aliens == a.aliens
    &&& b.bunkers == a.bunkers
    &&& b.prototypes == a.prototypes
    &&& b.player_color == a.player_color
}

/// `b` is `a` after its formation has stepped at tick `now`.
pub open spec fn aliens_updated(a: State, b: State, now: u64) -> bool {
    &&& formation_step(a.aliens, b.aliens, now)
    &&& b.aliens.count() == a.aliens.count()
    &&& b.player == a.player
    &&& b.bunkers == a.bunkers
    &&& b.prototypes == a.prototypes
    &&& b.player_color == a.player_color
}

/// `b` is `a` after its enemy lasers have stepped at tick `now` and the
/// formation has decided a shot with the die rolls `rolls`.
pub open spec fn enemy_fire_decided_with(a: State, b: State, now: u64, rolls: Seq<u32>) -> bool {
    &&& exists|mid: Aliens|
        {
            &&& mid.aliens_rows == a.aliens.aliens_rows
            &&& mid.times_slower_than_cycle == a.aliens.times_slower_than_cycle
            &&& mid.direction == a.aliens.direction
            &&& mid.last_shot == a.aliens.last_shot
            &&& laser_views(mid.lasers@) == advance_lasers(laser_views(a.aliens.lasers@), now)
            &&& #[trigger] shot_outcome(
                mid,
                b.aliens,
                now,
                a.player.position@,
                a.prototypes.laser@,
                rolls,
            )
        }
    &&& b.aliens.aliens_rows == a.aliens.aliens_rows
    &&& b.player == a.player
    &&& b.bunkers == a.bunkers
    &&& b.prototypes == a.prototypes
    &&& b.player_color == a.player_color
}

/// `b` is `a` after its enemy lasers have stepped at tick `now` and the
/// formation has decided a shot with some roll of the dice.
pub open spec fn enemy_fire_decided(a: State, b: State, now: u64) -> bool {
    exists|rolls: Seq<u32>|
        {
            &&& rolls.len() == Aliens::MAX_LASERS_AT_A_TIME
            &&& forall|i: int| 0 <= i < rolls.len() ==> #[trigger] rolls[i] < Aliens::SHOT_DIE_SIDES
            &&& #[trigger] enemy_fire_decided_with(a, b, now, rolls)
        }
}

/// `b` is `a` after the collisions of a tick: its player's laser first, then
/// its enemy lasers.
pub open spec fn collisions_applied(a: State, b: State) -> bool {
    exists|mid: State| player_laser_resolved(a, mid) && #[trigger] enemy_lasers_resolved(mid, b)
}

/// `b` is `a` after one tick at `now`, in the fixed order: the player's
/// laser, the formation, the enemy lasers and the formation's shot, then the
/// collisions.
pub open spec fn tick_step(a: State, b: State, now: u64) -> bool {
    exists|s1: State|
        #[trigger] player_laser_updated(a, s1, now) && exists|s2: State|
            #[trigger] aliens_updated(s1, s2, now) && exists|s3: State|
                #[trigger] enemy_fire_decided(s2, s3, now) && collisions_applied(s3, b)
}

/// Reads one template and checks its size.
fn load(text: &String, min_cells: usize) -> (r: Result<Vec<Coord>, AssetError>)
    ensures
        match r {
            Ok(c) => shape_of(text@, min_cells as nat) == Ok::<Seq<Coord>, AssetError>(c@),
            Err(e) => shape_of(text@, min_cells as nat) == Err::<Seq<Coord>, AssetError>(e),
        },
{
    match parse_prototype(text.as_str()) {
        Err(e) => Err(e),
        Ok(cells) => {
            if cells.len() < min_cells {
                Err(AssetError::TooFewCells)
            } else {
                Ok(cells)
            }
        },
    }
}

impl State {
    /// The invariant of a world: health within its range, a ship with a tip,
    /// lasers of two cells at least and no more enemy lasers than the cap,
    /// aliens with a leading cell, and a count of aliens that fits a `usize`.
    pub open spec fn wf(&self) -> bool {
        &&& self.player.health <= Player::HEALTH
        &&& self.player.position.len() >= 1
        &&& self.prototypes.laser.len() >= 2
        &&& (self.player.laser matches Some(l) ==> l.position.len() >= 2)
        &&& lasers_have_two_cells(laser_views(self.aliens.lasers@))
        &&& self.aliens.lasers.len() <= Aliens::MAX_LASERS_AT_A_TIME
        &&& all_aliens_have_cells(formation(self.aliens.aliens_rows@))
        &&& self.aliens.count() <= usize::MAX
    }

    /// This is the world that `new` builds from good templates at tick `now`.
    pub open spec fn is_initial(&self, a: Assets, now: u64) -> bool {
        &&& self.player.health == Player::HEALTH
        &&& self.player.position@ == shifted_all(
            player_shape(a)->Ok_0,
            Player::INITIAL_X as int,
            Player::INITIAL_Y as int,
        )
        &&& self.player.laser is None
        &&& self.aliens.is_initial(
            squid_shape(a)->Ok_0,
            crab_shape(a)->Ok_0,
            octopus_shape(a)->Ok_0,
            now,
        )
        &&& self.bunkers.is_initial(bunker_shape(a)->Ok_0)
        &&& self.prototypes.laser@ == laser_shape(a)->Ok_0
        &&& self.player_color == RgbColor { r: 32, g: 255, b: 32 }
    }

    /// Builds the world of a new life at tick `now` from the templates' texts.
    pub fn new(assets: &Assets, now: u64) -> (r: Result<State, AssetError>)
        ensures
            match r {
                Err(e) => assets_error(*assets) == Some(e),
                Ok(s) => assets_error(*assets) is None && s.wf() && s.is_initial(*assets, now),
            },
    {
        let player_prototype = match load(&assets.player, 1) {
            Err(e) => return Err(e),
            Ok(c) => c,
        };
        let laser_prototype = match load(&assets.laser, 2) {
            Err(e) => return Err(e),
            Ok(c) => c,
        };
        let squid = match load(&assets.squid, 1) {
            Err(e) => return Err(e),
            Ok(c) => c,
        };
        let crab = match load(&assets.crab, 1) {
            Err(e) => return Err(e),
            Ok(c) => c,
        };
        let octopus = match load(&assets.octopus, 1) {
            Err(e) => return Err(e),
            Ok(c) => c,
        };
        let bunker = match load(&assets.bunker, 0) {
            Err(e) => return Err(e),
            Ok(c) => c,
        };
        let aliens = Aliens::init(&squid, &crab, &octopus, now);
        let s = State {
            player: Player {
                health: Player::HEALTH,
                position: shift_prototype(
                    &player_prototype,
                    Player::INITIAL_X,
                    Player::INITIAL_Y,
                ),
                laser: None,
            },
            aliens,
            bunkers: Bunkers::init(&bunker),
            prototypes: Prototypes { laser: laser_prototype },
            player_color: RgbColor { r: 32, g: 255, b: 32 },
        };
        proof {
            let v = formation(s.aliens.aliens_rows@);
            assert forall|i: int, j: int|
                0 <= i < v.len() && 0 <= j < v[i].aliens.len() implies (
                #[trigger] v[i].aliens[j]).len() > 0 by {
                assert(v[i] == crate::aliens::initial_row(
                    crate::aliens::row_template(i, squid@, crab@, octopus@),
                    i,
                    now,
                ));
            }
            reveal_with_fuel(aliens_count, 6);
            assert(v.drop_last().drop_last().drop_last().drop_last().drop_last().len() == 0);
        }
        Ok(s)
    }

    /// Moves the ship left, unless that would take a cell past the left bound.
    pub fn player_go_left(&mut self)
        requires
            old(self).wf(),
        ensures
            final(self).wf(),
            final(self).player.position@ == if blocked_left(old(self).player.position@) {
                old(self).player.position@
            } else {
                shifted_all(old(self).player.position@, -Player::SPEED as int, 0)
            },
            final(self).player.health == old(self).player.health,
            final(self).player.laser == old(self).player.laser,
            final(self).aliens == old(self).aliens,
            final(self).bunkers == old(self).bunkers,
            final(self).prototypes == old(self).prototypes,
            final(self).player_color == old(self).player_color,
    {
        self.player.go_left();
    }

    /// Moves the ship right, unless that would take a cell past the right bound.
    pub fn player_go_right(&mut self)
        requires
            old(self).wf(),
        ensures
            final(self).wf(),
            final(self).player.position@ == if blocked_right(old(self).player.position@) {
                old(self).player.position@
            } else {
                shifted_all(old(self).player.position@, Player::SPEED as int, 0)
            },
            final(self).player.health == old(self).player.health,
            final(self).player.laser == old(self).player.laser,
            final(self).aliens == old(self).aliens,
            final(self).bunkers == old(self).bunkers,
            final(self).prototypes == old(self).prototypes,
            final(self).player_color == old(self).player_color,
    {
        self.player.go_right();
    }

    /// Fires the player's laser at tick `now`; does nothing while one is in flight.
    pub fn player_shoot(&mut self, now: u64)
        requires
            old(self).wf(),
        ensures
            final(self).wf(),
            old(self).player.laser is Some ==> final(self).player.laser == old(self).player.laser,
            old(self).player.laser is None ==> laser_view_of(final(self).player.laser) == Some(
                fired_laser(*old(self), now),
            ),
            final(self).player.health == old(self).player.health,
            final(self).player.position == old(self).player.position,
            final(self).aliens == old(self).aliens,
            final(self).bunkers == old(self).bunkers,
            final(self).prototypes == old(self).prototypes,
            final(self).player_color == old(self).player_color,
    {
        if self.player.laser.is_some() {
            return;
        }
        self.player.shoot(&self.prototypes.laser, now);
    }

    /// Steps the player's laser at tick `now`: once due, it moves up one row,
    /// or is gone where that would take it above the top bound.
    pub fn update_player_laser(&mut self, now: u64)
        requires
            old(self).wf(),
        ensures
            final(self).wf(),
            player_laser_updated(*old(self), *final(self), now),
    {
        let mut slot: Option<Laser> = None;
        std::mem::swap(&mut self.player.laser, &mut slot);
        match slot {
            None => {},
            Some(mut l) => {
                if !l.due(now) {
                    self.player.laser = Some(l);
                    return;
                }
                if any_y_below(&l.position, VIEWPORT_MIN_Y + Player::LASER_SPEED as u16) {
                    proof {
                        let k = choose|k: int|
                            0 <= k < l.position.len() && #[trigger] l.position@[k].y
                                < VIEWPORT_MIN_Y + Player::LASER_SPEED;
                        assert(l@.position[k] == l.position@[k]);
                    }
                    return;
                }
                l.position = shift_cells(&l.position, 0, -Player::LASER_SPEED);
                l.last_update = now;
                self.player.laser = Some(l);
            },
        }
    }

    /// One formation step at tick `now`.
    pub fn update_aliens(&mut self, now: u64)
        requires
            old(self).wf(),
        ensures
            final(self).wf(),
            aliens_updated(*old(self), *final(self), now),
    {
        self.aliens.update(now);
    }

    /// Steps the enemy lasers at tick `now`, then lets the formation decide a
    /// shot with the given die rolls, one per candidate.
    pub fn update_aliens_lasers_with(&mut self, now: u64, rolls: &Vec<u32>)
        requires
            old(self).wf(),
            rolls.len() >= Aliens::MAX_LASERS_AT_A_TIME,
        ensures
            final(self).wf(),
            enemy_fire_decided_with(*old(self), *final(self), now, rolls@),
    {
        self.aliens.update_existing_aliens_lasers(now);
        proof {
            lemma_advance_keeps_shapes(laser_views(old(self).aliens.lasers@), now);
        }
        let ghost mid = self.aliens;
        self.aliens.shoot_with(now, &self.player.position, &self.prototypes.laser, rolls);
        proof {
            self.lemma_shot_keeps_shapes(mid, now, rolls@);
        }
    }

    /// Steps the enemy lasers at tick `now`, then lets the formation decide a
    /// shot, rolling the dice.
    pub fn update_aliens_lasers(&mut self, now: u64)
        requires
            old(self).wf(),
        ensures
            final(self).wf(),
            enemy_fire_decided(*old(self), *final(self), now),
    {
        self.aliens.update_existing_aliens_lasers(now);
        proof {
            lemma_advance_keeps_shapes(laser_views(old(self).aliens.lasers@), now);
        }
        let ghost mid = self.aliens;
        self.aliens.shoot(now, &self.player.position, &self.prototypes.laser);
        proof {
            let rolls = choose|rolls: Seq<u32>|
                rolls.len() == Aliens::MAX_LASERS_AT_A_TIME && (forall|i: int|
                    0 <= i < rolls.len() ==> #[trigger] rolls[i] < Aliens::SHOT_DIE_SIDES)
                    && shot_outcome(
                    mid,
                    self.aliens,
                    now,
                    self.player.position@,
                    self.prototypes.laser@,
                    rolls,
                );
            self.lemma_shot_keeps_shapes(mid, now, rolls);
            assert(enemy_fire_decided_with(*old(self), *self, now, rolls));
        }
    }

    /// A shot adds at most one laser, built from the laser template.
    proof fn lemma_shot_keeps_shapes(&self, mid: Aliens, now: u64, rolls: Seq<u32>)
        requires
            lasers_have_two_cells(laser_views(mid.lasers@)),
            mid.lasers.len() <= Aliens::MAX_LASERS_AT_A_TIME,
            self.prototypes.laser.len() >= 2,
            shot_outcome(
                mid,
                self.aliens,
                now,
                self.player.position@,
                self.prototypes.laser@,
                rolls,
            ),
        ensures
            lasers_have_two_cells(laser_views(self.aliens.lasers@)),
            self.aliens.lasers.len() <= Aliens::MAX_LASERS_AT_A_TIME,
    {
        assert(laser_views(self.aliens.lasers@).len() == self.aliens.lasers.len());
        assert(laser_views(mid.lasers@).len() == mid.lasers.len());
    }

    /// Resolves the player's laser against the bunkers, then the aliens.
    pub fn handle_player_laser(&mut self)
        requires
            old(self).wf(),
        ensures
            final(self).wf(),
            player_laser_resolved(*old(self), *final(self)),
    {
        let mut slot: Option<Laser> = None;
        std::mem::swap(&mut self.player.laser, &mut slot);
        match slot {
            None => {
            },
            Some(l) => {
                if self.bunkers.absorb(&l.position) {
                    return;
                }
                if self.aliens.kill_hit_alien(&l.position) {
                    return;
                }
                self.player.laser = Some(l);
            },
        }
    }

    /// Resolves each enemy laser in order against the bunkers, then the ship.
    pub fn handle_aliens_lasers(&mut self)
        requires
            old(self).wf(),
        ensures
            final(self).wf(),
            enemy_lasers_resolved(*old(self), *final(self)),
    {
        let ghost ls = laser_views(self.aliens.lasers@);
        let ghost n = ls.len();
        assert(n == self.aliens.lasers.len());
        let ghost b0 = bunker_cells(self.bunkers.positions@);
        let ghost h0 = self.player.health;
        let ghost p = self.player.position@;
        let mut rest: Vec<Laser> = Vec::new();
        std::mem::swap(&mut self.aliens.lasers, &mut rest);
        let mut kept: Vec<Laser> = Vec::new();
        let ghost mut t: int = 0;
        assert(laser_views(rest@) =~= ls.subrange(0, n as int));
        assert(laser_views(kept@) + resolve_enemy_lasers(ls, b0, h0, p).0 =~= resolve_enemy_lasers(
            ls,
            b0,
            h0,
            p,
        ).0);
        while rest.len() > 0
            invariant
                0 <= t <= n,
                n == ls.len(),
                laser_views(rest@) == ls.subrange(t, n as int),
                lasers_have_two_cells(ls),
                lasers_have_two_cells(laser_views(kept@)),
                kept.len() <= t,
                n <= Aliens::MAX_LASERS_AT_A_TIME,
                self.player.position@ == p,
                self.player.health <= Player::HEALTH,
                ({
                    let r = resolve_enemy_lasers(
                        ls.subrange(t, n as int),
                        bunker_cells(self.bunkers.positions@),
                        self.player.health,
                        p,
                    );
                    resolve_enemy_lasers(ls, b0, h0, p) == (
                        laser_views(kept@) + r.0,
                        r.1,
                        r.2,
                    )
                }),
                self.player.position == old(self).player.position,
                self.player.laser == old(self).player.laser,
                self.aliens.aliens_rows == old(self).aliens.aliens_rows,
                self.aliens.times_slower_than_cycle == old(self).aliens.times_slower_than_cycle,
                self.aliens.direction == old(self).aliens.direction,
                self.aliens.last_shot == old(self).aliens.last_shot,
                self.prototypes == old(self).prototypes,
                self.player_color == old(self).player_color,
            decreases rest.len(),
        {
            let ghost before = rest@;
            let ghost b = bunker_cells(self.bunkers.positions@);
            let ghost h = self.player.health;
            assert(laser_views(before).len() == before.len());
            assert(t < n);
            assert(laser_views(before)[0] == before[0]@);
            assert(ls.subrange(t, n as int)[0] == ls[t]);
            let l = rest.remove(0);
            assert forall|j: int| 0 <= j < rest.len() implies #[trigger] laser_views(rest@)[j]
                == ls.subrange(t + 1, n as int)[j] by {
                assert(rest@[j] == before[j + 1]);
                assert(laser_views(before)[j + 1] == before[j + 1]@);
            }
            assert(laser_views(rest@) =~= ls.subrange(t + 1, n as int));
            assert(ls.subrange(t, n as int).drop_first() =~= ls.subrange(t + 1, n as int));
            assert(l@ == ls[t]);
            assert(l.position.len() >= 2);
            let gone = if self.bunkers.absorb(&l.position) {
                true
            } else {
                self.player.is_shot(&l.position)
            };
            let ghost e = enemy_laser_effect(b, h, p, ls[t].position);
            assert(bunker_cells(self.bunkers.positions@) == e.0);
            assert(self.player.health == e.1);
            assert(gone == e.2);
            if !gone {
                let ghost kept_before = kept@;
                kept.push(l);
                assert(laser_views(kept@) =~= laser_views(kept_before).push(ls[t]));
                let ghost r = resolve_enemy_lasers(
                    ls.subrange(t + 1, n as int),
                    bunker_cells(self.bunkers.positions@),
                    self.player.health,
                    p,
                );
                assert(laser_views(kept_before) + (seq![ls[t]] + r.0) =~= laser_views(kept@)
                    + r.0);
            }
            proof {
                t = t + 1;
            }
        }
        assert(ls.subrange(t, n as int).len() == 0);
        assert(laser_views(kept@) + Seq::<LaserView>::empty() =~= laser_views(kept@));
        self.aliens.lasers = kept;
    }

    /// Resolves the collisions of one tick: the player's laser first, then
    /// the enemy lasers.
    pub fn apply_collisions(&mut self)
        requires
            old(self).wf(),
        ensures
            final(self).wf(),
            collisions_applied(*old(self), *final(self)),
            final(self).aliens.count() <= old(self).aliens.count(),
            total_cells(bunker_cells(final(self).bunkers.positions@)) <= total_cells(
                bunker_cells(old(self).bunkers.positions@),
            ),
            cells_within(
                bunker_cells(final(self).bunkers.positions@),
                bunker_cells(old(self).bunkers.positions@),
            ),
            final(self).player.health <= old(self).player.health,
    {
        self.handle_player_laser();
        let ghost mid = *self;
        proof {
            if let Some(l) = old(self).player.laser {
                lemma_absorbed_shrinks(bunker_cells(old(self).bunkers.positions@), l.position@);
                lemma_absorbed_within(bunker_cells(old(self).bunkers.positions@), l.position@);
            }
        }
        self.handle_aliens_lasers();
        assert(enemy_lasers_resolved(mid, *self));
        proof {
            lemma_resolve_shrinks(
                laser_views(mid.aliens.lasers@),
                bunker_cells(mid.bunkers.positions@),
                mid.player.health,
                mid.player.position@,
            );
            lemma_resolve_within(
                laser_views(mid.aliens.lasers@),
                bunker_cells(mid.bunkers.positions@),
                mid.player.health,
                mid.player.position@,
            );
            assert(self.aliens.aliens_rows == mid.aliens.aliens_rows);
        }
    }

    /// Whether some alien has reached the rows of the ship.
    pub fn aliens_invaded(&self) -> (r: bool)
        ensures
            r == invaded(formation(self.aliens.aliens_rows@), self.player.position@),
    {
        let ghost v = formation(self.aliens.aliens_rows@);
        let player = &self.player.position;
        let mut i: usize = 0;
        while i < self.aliens.aliens_rows.len()
            invariant
                v == formation(self.aliens.aliens_rows@),
                player@ == self.player.position@,
                i <= v.len(),
                forall|a: int, b: int|
                    0 <= a < i && 0 <= b < v[a].aliens.len() ==> !#[trigger] alien_reaches(
                        v[a].aliens[b],
                        player@,
                    ),
            decreases v.len() - i,
        {
            let row = &self.aliens.aliens_rows[i];
            assert(v[i as int] == row@);
            let mut j: usize = 0;
            while j < row.aliens.len()
                invariant
                    v == formation(self.aliens.aliens_rows@),
                    v[i as int] == row@,
                    i < v.len(),
                    j <= row.aliens.len(),
                    player@ == self.player.position@,
                    forall|a: int, b: int|
                        0 <= a < i && 0 <= b < v[a].aliens.len() ==> !#[trigger] alien_reaches(
                            v[a].aliens[b],
                            player@,
                        ),
                    forall|b: int| 0 <= b < j ==> !#[trigger] alien_reaches(v[i as int].aliens[b], player@),
                decreases row.aliens.len() - j,
            {
                let cells = &row.aliens[j].position;
                assert(v[i as int].aliens[j as int] == cells@);
                let mut c: usize = 0;
                while c < cells.len()
                    invariant
                        c <= cells.len(),
                        v == formation(self.aliens.aliens_rows@),
                        i < v.len(),
                        j < v[i as int].aliens.len(),
                        v[i as int].aliens[j as int] == cells@,
                        player@ == self.player.position@,
                        forall|q: int, p: int|
                            0 <= q < c && 0 <= p < player.len() ==> (#[trigger] cells@[q]).y
                                < (#[trigger] player@[p]).y,
                    decreases cells.len() - c,
                {
                    let y = cells[c].y;
                    let mut p: usize = 0;
                    while p < player.len()
                        invariant
                            p <= player.len(),
                            c < cells.len(),
                            v == formation(self.aliens.aliens_rows@),
                            i < v.len(),
                            j < v[i as int].aliens.len(),
                            v[i as int].aliens[j as int] == cells@,
                            player@ == self.player.position@,
                            y == cells@[c as int].y,
                            forall|q: int, p2: int|
                                0 <= q < c && 0 <= p2 < player.len() ==> (#[trigger] cells@[q]).y
                                    < (#[trigger] player@[p2]).y,
                            forall|p2: int| 0 <= p2 < p ==> y < (#[trigger] player@[p2]).y,
                        decreases player.len() - p,
                    {
                        if y >= player[p].y {
                            assert(alien_reaches(cells@, player@)) by {
                                assert(cells@[c as int].y >= player@[p as int].y);
                            }
                            assert(alien_reaches(v[i as int].aliens[j as int], player@));
                            return true;
                        }
                        p += 1;
                    }
                    c += 1;
                }
                assert(!alien_reaches(v[i as int].aliens[j as int], player@));
                j += 1;
            }
            i += 1;
        }
        false
    }

    /// The colour of the ship, its laser and the bunkers.
    pub fn get_player_color(&self) -> (r: &RgbColor)
        ensures
            *r == self.player_color,
    {
        &self.player_color
    }

    /// The cells of the current frame, in drawing order.
    pub fn frame_cells(&self) -> (r: Vec<Cell>)
        ensures
            r@ == frame(*self),
    {
        let color = Some(self.player_color);
        let mut out: Vec<Cell> = Vec::new();
        paint(&mut out, &self.player.position, color);
        let ghost shot: Seq<Coord> = match &self.player.laser {
            Some(l) => l.position@,
            None => Seq::empty(),
        };
        match &self.player.laser {
            Some(l) => paint(&mut out, &l.position, color),
            None => {
                assert(painted(shot, color) =~= Seq::<Cell>::empty());
                assert(out@ + painted(shot, color) =~= out@);
            },
        }
        let ghost head = out@;
        let ghost v = formation(self.aliens.aliens_rows@);
        let ghost rows = v.map_values(|r: RowView| r.aliens.flatten_alt());
        let mut i: usize = 0;
        while i < self.aliens.aliens_rows.len()
            invariant
                v == formation(self.aliens.aliens_rows@),
                rows == v.map_values(|r: RowView| r.aliens.flatten_alt()),
                i <= v.len(),
                out@ == head + painted(rows.subrange(0, i as int).flatten_alt(), None),
            decreases v.len() - i,
        {
            let row = &self.aliens.aliens_rows[i];
            assert(v[i as int] == row@);
            let ghost mid = out@;
            let mut j: usize = 0;
            while j < row.aliens.len()
                invariant
                    v[i as int] == row@,
                    i < v.len(),
                    j <= row.aliens.len(),
                    out@ == mid + painted(row@.aliens.subrange(0, j as int).flatten_alt(), None),
                decreases row.aliens.len() - j,
            {
                let ghost before = out@;
                assert(row@.aliens[j as int] == row.aliens@[j as int].position@);
                paint(&mut out, &row.aliens[j].position, None);
                proof {
                    let pre = row@.aliens.subrange(0, j as int);
                    assert(row@.aliens.subrange(0, j + 1).drop_last() =~= pre);
                    lemma_painted_add(pre.flatten_alt(), row@.aliens[j as int], None);
                }
                assert(out@ =~= mid + painted(row@.aliens.subrange(0, j + 1).flatten_alt(), None));
                j += 1;
            }
            proof {
                assert(row@.aliens.subrange(0, j as int) =~= row@.aliens);
                let pre = rows.subrange(0, i as int);
                assert(rows.subrange(0, i + 1).drop_last() =~= pre);
                assert(rows[i as int] == row@.aliens.flatten_alt());
                lemma_painted_add(pre.flatten_alt(), rows[i as int], None);
            }
            assert(out@ =~= head + painted(rows.subrange(0, i + 1).flatten_alt(), None));
            i += 1;
        }
        assert(rows.subrange(0, i as int) =~= rows);
        let ghost head2 = out@;
        let ghost lv = laser_views(self.aliens.lasers@).map_values(|l: LaserView| l.position);
        let mut k: usize = 0;
        while k < self.aliens.lasers.len()
            invariant
                lv == laser_views(self.aliens.lasers@).map_values(|l: LaserView| l.position),
                k <= self.aliens.lasers.len(),
                out@ == head2 + painted(lv.subrange(0, k as int).flatten_alt(), None),
            decreases self.aliens.lasers.len() - k,
        {
            proof {
                let pre = lv.subrange(0, k as int);
                assert(lv.subrange(0, k + 1).drop_last() =~= pre);
                assert(lv[k as int] == self.aliens.lasers@[k as int].position@);
                lemma_painted_add(pre.flatten_alt(), lv[k as int], None);
            }
            paint(&mut out, &self.aliens.lasers[k].position, None);
            assert(out@ =~= head2 + painted(lv.subrange(0, k + 1).flatten_alt(), None));
            k += 1;
        }
        assert(lv.subrange(0, k as int) =~= lv);
        let ghost head3 = out@;
        let ghost bv = bunker_cells(self.bunkers.positions@);
        let mut m: usize = 0;
        while m < self.bunkers.positions.len()
            invariant
                bv == bunker_cells(self.bunkers.positions@),
                m <= self.bunkers.positions.len(),
                out@ == head3 + painted(bv.subrange(0, m as int).flatten_alt(), color),
            decreases self.bunkers.positions.len() - m,
        {
            proof {
                let pre = bv.subrange(0, m as int);
                assert(bv.subrange(0, m + 1).drop_last() =~= pre);
                assert(bv[m as int] == self.bunkers.positions@[m as int].position@);
                lemma_painted_add(pre.flatten_alt(), bv[m as int], color);
            }
            paint(&mut out, &self.bunkers.positions[m].position, color);
            assert(out@ =~= head3 + painted(bv.subrange(0, m + 1).flatten_alt(), color));
            m += 1;
        }
        assert(bv.subrange(0, m as int) =~= bv);
        assert(out@ =~= frame(*self));
        out
    }

    /// The number of aliens left.
    pub fn get_aliens_count(&self) -> (r: usize)
        requires
            self.wf(),
        ensures
            r == self.aliens.count(),
    {
        self.aliens.get_aliens_count()
    }
}

} // verus!
