//! The player's ship and the lasers that both sides fire.
use crate::geometry::{
    any_x_at_least, any_x_at_most, find_hit, shift_cells, shift_prototype, shifted_all, some_hit,
    wrap, Coord, VIEWPORT_MAX_X, VIEWPORT_MIN_X,
};
use vstd::prelude::*;

verus! {

/// A colour given by its red, green and blue parts.
#[derive(Debug, Clone, Copy, PartialEq, Eq, Structural)]
pub struct RgbColor {
    pub r: u8,
    pub g: u8,
    pub b: u8,
}

/// A laser in flight: its cells, the tick of its last step and the number of
/// ticks it waits between steps.
#[derive(Debug)]
pub struct Laser {
    pub position: Vec<Coord>,
    pub last_update: u64,
    pub times_slower_than_cycle: u64,
}

/// What a laser is made of.
pub struct LaserView {
    pub position: Seq<Coord>,
    pub last_update: u64,
    pub times_slower_than_cycle: u64,
}

impl View for Laser {
    type V = LaserView;

    open spec fn view(&self) -> LaserView {
        LaserView {
            position: self.position@,
            last_update: self.last_update,
            times_slower_than_cycle: self.times_slower_than_cycle,
        }
    }
}

/// The lasers of a list, as views.
pub open spec fn laser_views(lasers: Seq<Laser>) -> Seq<LaserView> {
    lasers.map_values(|l: Laser| l@)
}

/// The player's ship.
#[derive(Debug)]
pub struct Player {
    pub health: usize,
    pub position: Vec<Coord>,
    pub laser: Option<Laser>,
}

/// A step left would take some cell past the left bound.
pub open spec fn blocked_left(cells: Seq<Coord>) -> bool {
    exists|i: int| 0 <= i < cells.len() && #[trigger] cells[i].x < VIEWPORT_MIN_X + Player::SPEED
}

/// A step right would take some cell past the right bound.
pub open spec fn blocked_right(cells: Seq<Coord>) -> bool {
    exists|i: int| 0 <= i < cells.len() && #[trigger] cells[i].x + Player::SPEED > VIEWPORT_MAX_X
}

/// Health after one laser has struck: one less, and never below zero.
pub open spec fn health_after_hit(health: usize) -> usize {
    if health > 0 {
        (health - 1) as usize
    } else {
        0
    }
}

impl Laser {
    /// The number of rows a laser's shape spans above or below its origin.
    pub const MODEL_HEIGHT: u16 = 2;

    /// Whether the laser's wait since its last step is over at tick `now`.
    pub open spec fn is_due(&self, now: u64) -> bool {
        now >= self.last_update + self.times_slower_than_cycle
    }

    pub fn due(&self, now: u64) -> (r: bool)
        ensures
            r == self.is_due(now),
    {
        now >= self.last_update && now - self.last_update >= self.times_slower_than_cycle
    }
}

impl Player {
    pub const SPEED: i16 = 2;

    pub const LASER_SPEED: i16 = 1;

    pub const HEALTH: usize = 3;

    pub const INITIAL_X: u16 = 1;

    pub const INITIAL_Y: u16 = 70;

    pub const LASER_SLOWER_THAN_CYCLE: u64 = 1;

    /// Fires a laser from the ship's tip (its first cell), its tail just above
    /// the ship.
    pub fn shoot(&mut self, prototype: &Vec<Coord>, now: u64)
        requires
            old(self).position.len() >= 1,
        ensures
            final(self).health == old(self).health,
            final(self).position == old(self).position,
            final(self).laser matches Some(l) && l.position@ == shifted_all(
                prototype@,
                old(self).position@[0].x as int,
                wrap(old(self).position@[0].y - Laser::MODEL_HEIGHT) as int,
            ) && l.last_update == now && l.times_slower_than_cycle
                == Self::LASER_SLOWER_THAN_CYCLE,
    {
        let tip = self.position[0];
        let position = shift_prototype(prototype, tip.x, tip.y.wrapping_sub(Laser::MODEL_HEIGHT));
        self.laser = Some(
            Laser { position, last_update: now, times_slower_than_cycle: Self::LASER_SLOWER_THAN_CYCLE },
        );
    }

    /// Moves the ship left by its speed, unless that would take a cell past
    /// the left bound: such a move is rejected in full.
    pub fn go_left(&mut self)
        ensures
            final(self).health == old(self).health,
            final(self).laser == old(self).laser,
            final(self).position@ == if blocked_left(old(self).position@) {
                old(self).position@
            } else {
                shifted_all(old(self).position@, -Self::SPEED as int, 0)
            },
    {
        if any_x_at_most(&self.position, VIEWPORT_MIN_X + Self::SPEED as u16 - 1) {
            return;
        }
        self.shift_by(-Self::SPEED);
    }

    /// Moves the ship right by its speed, unless that would take a cell past
    /// the right bound: such a move is rejected in full.
    pub fn go_right(&mut self)
        ensures
            final(self).health == old(self).health,
            final(self).laser == old(self).laser,
            final(self).position@ == if blocked_right(old(self).position@) {
                old(self).position@
            } else {
                shifted_all(old(self).position@, Self::SPEED as int, 0)
            },
    {
        if any_x_at_least(&self.position, VIEWPORT_MAX_X - Self::SPEED as u16 + 1) {
            return;
        }
        self.shift_by(Self::SPEED);
    }

    /// Moves every cell of the ship by `x_shift` columns.
    pub fn shift_by(&mut self, x_shift: i16)
        ensures
            final(self).health == old(self).health,
            final(self).laser == old(self).laser,
            final(self).position@ == shifted_all(old(self).position@, x_shift as int, 0),
    {
        self.position = shift_cells(&self.position, x_shift, 0);
    }

    /// Whether the laser strikes the ship; a strike costs one health point.
    pub fn is_shot(&mut self, laser: &Vec<Coord>) -> (r: bool)
        requires
            laser.len() >= 2,
        ensures
            r == some_hit(old(self).position@, laser@),
            final(self).position == old(self).position,
            final(self).laser == old(self).laser,
            final(self).health == if r {
                health_after_hit(old(self).health)
            } else {
                old(self).health
            },
    {
        match find_hit(&self.position, laser) {
            Some(_) => {
                if self.health > 0 {
                    self.health = self.health - 1;
                }
                true
            },
            None => false,
        }
    }
}

} // verus!
