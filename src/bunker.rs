//! Bunkers: shields that erode cell by cell where lasers strike them.
use crate::geometry::{
    find_hit, first_hit, generate_row_of_aliens, row_origin_x, shifted_all, some_hit, Coord, Row,
};
use vstd::prelude::*;

verus! {

/// One bunker: the cells that are left of it.
#[derive(Debug)]
pub struct Bunker {
    pub position: Vec<Coord>,
}

impl Row for Bunker {
    open spec fn cells(&self) -> Seq<Coord> {
        self.position@
    }

    fn generate(position: Vec<Coord>) -> (r: Bunker) {
        Bunker { position }
    }
}

/// All the bunkers of a game, in the order collisions test them.
#[derive(Debug)]
pub struct Bunkers {
    pub positions: Vec<Bunker>,
}

/// `p` is in the three-cell-wide neighbourhood of the struck cell `s`.
pub open spec fn near(p: Coord, s: Coord) -> bool {
    p.y == s.y && (p.x == s.x || p.x + 1 == s.x || p.x == s.x + 1)
}

/// The cells that survive a strike at `s`.
pub open spec fn eroded(cells: Seq<Coord>, s: Coord) -> Seq<Coord> {
    cells.filter(|p: Coord| !near(p, s))
}

/// A shape after the laser has struck it: the neighbourhood of its first struck
/// cell is gone; a shape that the laser misses is unchanged.
pub open spec fn erode(cells: Seq<Coord>, laser: Seq<Coord>) -> Seq<Coord> {
    if some_hit(cells, laser) {
        eroded(cells, cells[first_hit(cells, laser)])
    } else {
        cells
    }
}

/// The cells of each bunker.
pub open spec fn bunker_cells(b: Seq<Bunker>) -> Seq<Seq<Coord>> {
    b.map_values(|x: Bunker| x.position@)
}

/// The first bunker from `i` on that the laser strikes, or the number of bunkers.
pub open spec fn first_bunker_hit_from(b: Seq<Seq<Coord>>, laser: Seq<Coord>, i: int) -> int
    decreases b.len() - i,
{
    if i < 0 || i >= b.len() {
        b.len() as int
    } else if some_hit(b[i], laser) {
        i
    } else {
        first_bunker_hit_from(b, laser, i + 1)
    }
}

/// The first bunker that the laser strikes, or the number of bunkers.
pub open spec fn first_bunker_hit(b: Seq<Seq<Coord>>, laser: Seq<Coord>) -> int {
    first_bunker_hit_from(b, laser, 0)
}

/// The bunkers after a laser has been tested against them in order: the first
/// one it strikes erodes, the others are unchanged.
pub open spec fn absorbed(b: Seq<Seq<Coord>>, laser: Seq<Coord>) -> Seq<Seq<Coord>> {
    let k = first_bunker_hit(b, laser);
    if k < b.len() {
        b.update(k, erode(b[k], laser))
    } else {
        b
    }
}

/// The number of cells of all the bunkers.
pub open spec fn total_cells(b: Seq<Seq<Coord>>) -> nat
    decreases b.len(),
{
    if b.len() == 0 {
        0
    } else {
        total_cells(b.drop_last()) + b.last().len()
    }
}

/// Erosion never adds a cell.
pub proof fn lemma_erode_shrinks(cells: Seq<Coord>, laser: Seq<Coord>)
    ensures
        erode(cells, laser).len() <= cells.len(),
{
    if some_hit(cells, laser) {
        let s = cells[first_hit(cells, laser)];
        cells.lemma_filter_len(|p: Coord| !near(p, s));
    }
}

/// Replacing one bunker changes the total by the difference in its size.
pub proof fn lemma_total_update(b: Seq<Seq<Coord>>, k: int, cells: Seq<Coord>)
    requires
        0 <= k < b.len(),
    ensures
        total_cells(b.update(k, cells)) == total_cells(b) - b[k].len() + cells.len(),
    decreases b.len(),
{
    if k == b.len() - 1 {
        assert(b.update(k, cells).drop_last() =~= b.drop_last());
    } else {
        lemma_total_update(b.drop_last(), k, cells);
        assert(b.update(k, cells).drop_last() =~= b.drop_last().update(k, cells));
    }
}

/// A laser tested against the bunkers never adds a cell to them.
pub proof fn lemma_absorbed_shrinks(b: Seq<Seq<Coord>>, laser: Seq<Coord>)
    ensures
        absorbed(b, laser).len() == b.len(),
        total_cells(absorbed(b, laser)) <= total_cells(b),
{
    let k = first_bunker_hit(b, laser);
    if k < b.len() {
        lemma_first_bunker_hit_range(b, laser, 0);
        lemma_erode_shrinks(b[k], laser);
        lemma_total_update(b, k, erode(b[k], laser));
    }
}

proof fn lemma_first_bunker_hit_range(b: Seq<Seq<Coord>>, laser: Seq<Coord>, i: int)
    requires
        0 <= i,
    ensures
        i <= first_bunker_hit_from(b, laser, i) <= b.len() || i > b.len(),
        first_bunker_hit_from(b, laser, i) >= 0,
        first_bunker_hit_from(b, laser, i) < b.len() ==> some_hit(
            b[first_bunker_hit_from(b, laser, i)],
            laser,
        ),
    decreases b.len() - i,
{
    if i < b.len() && !some_hit(b[i], laser) {
        lemma_first_bunker_hit_range(b, laser, i + 1);
    }
}

/// Every bunker of `after` holds only cells that the same bunker of `before`
/// held: bunkers lose cells, they never gain or move one.
pub open spec fn cells_within(after: Seq<Seq<Coord>>, before: Seq<Seq<Coord>>) -> bool {
    &&& after.len() == before.len()
    &&& forall|i: int, p: Coord|
        0 <= i < after.len() && #[trigger] after[i].contains(p) ==> before[i].contains(p)
}

/// A laser tested against the bunkers only removes cells.
pub proof fn lemma_absorbed_within(b: Seq<Seq<Coord>>, laser: Seq<Coord>)
    ensures
        cells_within(absorbed(b, laser), b),
{
    let k = first_bunker_hit(b, laser);
    lemma_first_bunker_hit_range(b, laser, 0);
    if k < b.len() {
        let cells = b[k];
        let s = cells[first_hit(cells, laser)];
        assert forall|i: int, p: Coord|
            0 <= i < b.len() && #[trigger] absorbed(b, laser)[i].contains(p) implies b[i].contains(
            p,
        ) by {
            if i == k {
                assert(absorbed(b, laser)[i] == eroded(cells, s));
                cells.lemma_filter_contains_rev(|q: Coord| !near(q, s), p);
            }
        }
    }
}

impl Bunker {
    /// Erodes the bunker where the laser strikes it; returns whether it did.
    pub fn remove_shot_positions(&mut self, laser: &Vec<Coord>) -> (r: bool)
        requires
            laser.len() >= 2,
        ensures
            r == some_hit(old(self).position@, laser@),
            final(self).position@ == erode(old(self).position@, laser@),
    {
        match find_hit(&self.position, laser) {
            None => false,
            Some(k) => {
                let s = self.position[k];
                let ghost cells = self.position@;
                let mut kept: Vec<Coord> = Vec::new();
                let mut i: usize = 0;
                while i < self.position.len()
                    invariant
                        cells == self.position@,
                        i <= cells.len(),
                        kept@ == eroded(cells.subrange(0, i as int), s),
                    decreases cells.len() - i,
                {
                    let p = self.position[i];
                    let ghost prev = cells.subrange(0, i as int);
                    assert(cells.subrange(0, i + 1).drop_last() =~= prev);
                    assert(cells.subrange(0, i + 1).last() == p);
                    reveal(Seq::filter);
                    assert(eroded(cells.subrange(0, i + 1), s) == if !near(p, s) {
                        eroded(prev, s).push(p)
                    } else {
                        eroded(prev, s)
                    });
                    if !(p.y == s.y && (p.x == s.x || p.x as u32 + 1 == s.x as u32 || p.x as u32
                        == s.x as u32 + 1)) {
                        kept.push(p);
                    }
                    i += 1;
                }
                assert(cells.subrange(0, cells.len() as int) =~= cells);
                self.position = kept;
                true
            },
        }
    }
}

impl Bunkers {
    pub const INITIAL_X: u16 = 4;

    pub const INITIAL_Y: u16 = 55;

    pub const NUMBER: u16 = 4;

    pub const STEP: u16 = 40;

    /// Tests the laser against each bunker in order; the first one it strikes
    /// erodes. Returns whether one did.
    pub fn absorb(&mut self, laser: &Vec<Coord>) -> (r: bool)
        requires
            laser.len() >= 2,
        ensures
            r == (first_bunker_hit(bunker_cells(old(self).positions@), laser@)
                < old(self).positions.len()),
            bunker_cells(final(self).positions@) == absorbed(
                bunker_cells(old(self).positions@),
                laser@,
            ),
    {
        let ghost b = bunker_cells(self.positions@);
        let mut i: usize = 0;
        while i < self.positions.len()
            invariant
                laser.len() >= 2,
                b.len() == self.positions.len(),
                bunker_cells(self.positions@) == b,
                b == bunker_cells(old(self).positions@),
                i <= b.len(),
                first_bunker_hit(b, laser@) == first_bunker_hit_from(b, laser@, i as int),
            decreases b.len() - i,
        {
            let ghost before = self.positions@;
            assert(bunker_cells(before)[i as int] == before[i as int].position@);
            let hit = self.positions[i].remove_shot_positions(laser);
            assert forall|j: int| 0 <= j < b.len() && j != i implies #[trigger] self.positions@[j]
                == before[j] by {}
            if hit {
                assert(bunker_cells(self.positions@) =~= b.update(
                    i as int,
                    erode(b[i as int], laser@),
                ));
                return true;
            }
            assert(bunker_cells(self.positions@) =~= b);
            i += 1;
        }
        false
    }

    /// These are the bunkers that `init` builds from this template.
    pub open spec fn is_initial(&self, bunker_prototype: Seq<Coord>) -> bool {
        &&& self.positions.len() == Self::NUMBER
        &&& forall|i: int|
            0 <= i < Self::NUMBER ==> (#[trigger] self.positions@[i]).position@ == shifted_all(
                bunker_prototype,
                row_origin_x(Self::INITIAL_X as int, Self::STEP as int, i),
                Self::INITIAL_Y as int,
            )
    }

    /// Four bunkers in a row, built from one template.
    pub fn init(bunker_prototype: &Vec<Coord>) -> (r: Bunkers)
        ensures
            r.is_initial(bunker_prototype@),
    {
        let positions: Vec<Bunker> = generate_row_of_aliens(
            bunker_prototype,
            Self::INITIAL_X,
            Self::INITIAL_Y,
            Self::NUMBER,
            Self::STEP,
        );
        assert forall|i: int| 0 <= i < Self::NUMBER implies (
        #[trigger] positions@[i]).position@ == shifted_all(
            bunker_prototype@,
            row_origin_x(Self::INITIAL_X as int, Self::STEP as int, i),
            Self::INITIAL_Y as int,
        ) by {
            assert(positions@[i].cells() == positions@[i].position@);
        }
        Bunkers { positions }
    }
}

} // verus!
