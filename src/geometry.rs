//! Glyph cells, sprite templates and the exact-cell collision test.
use vstd::prelude::*;

verus! {

/// Leftmost column of the playable area.
pub const VIEWPORT_MIN_X: u16 = 1;

/// Rightmost column of the playable area.
pub const VIEWPORT_MAX_X: u16 = 200;

/// Topmost row of the playable area.
pub const VIEWPORT_MIN_Y: u16 = 1;

/// Bottom row of the playable area.
pub const VIEWPORT_MAX_Y: u16 = 72;

/// One glyph drawn at one screen cell.
#[derive(Debug, Clone, Copy, PartialEq, Eq, Structural, Hash)]
pub struct Coord {
    pub x: u16,
    pub y: u16,
    pub ch: char,
}

/// A coordinate reduced into the `u16` range, as `u16` arithmetic wraps.
pub open spec fn wrap(v: int) -> u16 {
    (v % 0x10000) as u16
}

/// A cell moved by `(dx, dy)`; the glyph is kept.
pub open spec fn shifted(c: Coord, dx: int, dy: int) -> Coord {
    Coord { x: wrap(c.x + dx), y: wrap(c.y + dy), ch: c.ch }
}

/// Every cell of a shape moved by `(dx, dy)`, in the same order.
pub open spec fn shifted_all(cells: Seq<Coord>, dx: int, dy: int) -> Seq<Coord> {
    cells.map_values(|c: Coord| shifted(c, dx, dy))
}

/// `c` stands on one of the two cells of `laser`.
pub open spec fn hits(laser: Seq<Coord>, c: Coord) -> bool {
    (c.x == laser[0].x && c.y == laser[0].y) || (c.x == laser[1].x && c.y == laser[1].y)
}

/// Squared Euclidean distance between two cells.
pub open spec fn distance2(a: Coord, b: Coord) -> int {
    (a.x - b.x) * (a.x - b.x) + (a.y - b.y) * (a.y - b.y)
}

pub proof fn lemma_wrap_add(a: u16, b: u16)
    ensures
        a.wrapping_add(b) == wrap(a + b),
{
}

/// Instantiates a template at the origin `(x_shift, y_shift)`.
pub fn shift_prototype(prototype: &Vec<Coord>, x_shift: u16, y_shift: u16) -> (r: Vec<Coord>)
    ensures
        r@ == shifted_all(prototype@, x_shift as int, y_shift as int),
{
    let mut r: Vec<Coord> = Vec::new();
    let mut i: usize = 0;
    while i < prototype.len()
        invariant
            i <= prototype.len(),
            r.len() == i,
            forall|j: int|
                0 <= j < i ==> r@[j] == shifted(prototype@[j], x_shift as int, y_shift as int),
        decreases prototype.len() - i,
    {
        let c = prototype[i];
        proof {
            lemma_wrap_add(c.x, x_shift);
            lemma_wrap_add(c.y, y_shift);
        }
        r.push(Coord { x: c.x.wrapping_add(x_shift), y: c.y.wrapping_add(y_shift), ch: c.ch });
        i += 1;
    }
    assert(r@ =~= shifted_all(prototype@, x_shift as int, y_shift as int));
    r
}

/// Whether `coord` stands on either of the laser's two cells.
pub fn collides_with_laser(laser: &Vec<Coord>, coord: &Coord) -> (r: bool)
    requires
        laser.len() >= 2,
    ensures
        r == hits(laser@, *coord),
{
    coord.x == laser[0].x && coord.y == laser[0].y || coord.x == laser[1].x && coord.y
        == laser[1].y
}

/// Squared distance between two cells; it orders cells as their distance does.
pub fn squared_distance(first: &Coord, second: &Coord) -> (r: u64)
    ensures
        r == distance2(*first, *second),
{
    let dx: u64 = if first.x >= second.x {
        (first.x - second.x) as u64
    } else {
        (second.x - first.x) as u64
    };
    let dy: u64 = if first.y >= second.y {
        (first.y - second.y) as u64
    } else {
        (second.y - first.y) as u64
    };
    assert(dx * dx <= 0xffff * 0xffff) by (nonlinear_arith)
        requires
            dx <= 0xffff,
    ;
    assert(dy * dy <= 0xffff * 0xffff) by (nonlinear_arith)
        requires
            dy <= 0xffff,
    ;
    assert(dx * dx == (first.x - second.x) * (first.x - second.x)) by (nonlinear_arith)
        requires
            dx == first.x - second.x || dx == second.x - first.x,
    ;
    assert(dy * dy == (first.y - second.y) * (first.y - second.y)) by (nonlinear_arith)
        requires
            dy == first.y - second.y || dy == second.y - first.y,
    ;
    dx * dx + dy * dy
}

/// Some cell of `cells` stands on the laser.
pub open spec fn some_hit(cells: Seq<Coord>, laser: Seq<Coord>) -> bool {
    exists|i: int| 0 <= i < cells.len() && hits(laser, #[trigger] cells[i])
}

/// `i` is the first cell of `cells` that stands on the laser.
pub open spec fn is_first_hit(cells: Seq<Coord>, laser: Seq<Coord>, i: int) -> bool {
    &&& 0 <= i < cells.len()
    &&& hits(laser, cells[i])
    &&& forall|j: int| 0 <= j < i ==> !hits(laser, #[trigger] cells[j])
}

/// The first cell of `cells` that stands on the laser (meaningful where `some_hit` holds).
pub open spec fn first_hit(cells: Seq<Coord>, laser: Seq<Coord>) -> int {
    choose|i: int| is_first_hit(cells, laser, i)
}

proof fn lemma_wrap_add_signed(a: u16, b: i16)
    ensures
        a.wrapping_add_signed(b) == wrap(a + b),
{
}

/// Moves every cell by the signed step `(dx, dy)`.
pub fn shift_cells(cells: &Vec<Coord>, dx: i16, dy: i16) -> (r: Vec<Coord>)
    ensures
        r@ == shifted_all(cells@, dx as int, dy as int),
{
    let mut r: Vec<Coord> = Vec::new();
    let mut i: usize = 0;
    while i < cells.len()
        invariant
            i <= cells.len(),
            r.len() == i,
            forall|j: int| 0 <= j < i ==> r@[j] == shifted(cells@[j], dx as int, dy as int),
        decreases cells.len() - i,
    {
        let c = cells[i];
        proof {
            lemma_wrap_add_signed(c.x, dx);
            lemma_wrap_add_signed(c.y, dy);
        }
        r.push(Coord { x: c.x.wrapping_add_signed(dx), y: c.y.wrapping_add_signed(dy), ch: c.ch });
        i += 1;
    }
    assert(r@ =~= shifted_all(cells@, dx as int, dy as int));
    r
}

/// Whether some cell lies at column `bound` or left of it.
pub fn any_x_at_most(cells: &Vec<Coord>, bound: u16) -> (r: bool)
    ensures
        r == exists|i: int| 0 <= i < cells.len() && #[trigger] cells@[i].x <= bound,
{
    let mut i: usize = 0;
    while i < cells.len()
        invariant
            i <= cells.len(),
            forall|j: int| 0 <= j < i ==> #[trigger] cells@[j].x > bound,
        decreases cells.len() - i,
    {
        if cells[i].x <= bound {
            return true;
        }
        i += 1;
    }
    false
}

/// Whether some cell lies at column `bound` or right of it.
pub fn any_x_at_least(cells: &Vec<Coord>, bound: u16) -> (r: bool)
    ensures
        r == exists|i: int| 0 <= i < cells.len() && #[trigger] cells@[i].x >= bound,
{
    let mut i: usize = 0;
    while i < cells.len()
        invariant
            i <= cells.len(),
            forall|j: int| 0 <= j < i ==> #[trigger] cells@[j].x < bound,
        decreases cells.len() - i,
    {
        if cells[i].x >= bound {
            return true;
        }
        i += 1;
    }
    false
}

/// Whether some cell lies above row `bound`.
pub fn any_y_below(cells: &Vec<Coord>, bound: u16) -> (r: bool)
    ensures
        r == exists|i: int| 0 <= i < cells.len() && #[trigger] cells@[i].y < bound,
{
    let mut i: usize = 0;
    while i < cells.len()
        invariant
            i <= cells.len(),
            forall|j: int| 0 <= j < i ==> #[trigger] cells@[j].y >= bound,
        decreases cells.len() - i,
    {
        if cells[i].y < bound {
            return true;
        }
        i += 1;
    }
    false
}

/// The index of the first cell that stands on the laser, if any does.
pub fn find_hit(cells: &Vec<Coord>, laser: &Vec<Coord>) -> (r: Option<usize>)
    requires
        laser.len() >= 2,
    ensures
        r is None <==> !some_hit(cells@, laser@),
        r matches Some(i) ==> i == first_hit(cells@, laser@) && is_first_hit(
            cells@,
            laser@,
            i as int,
        ),
{
    let mut i: usize = 0;
    while i < cells.len()
        invariant
            i <= cells.len(),
            laser.len() >= 2,
            forall|j: int| 0 <= j < i ==> !hits(laser@, #[trigger] cells@[j]),
        decreases cells.len() - i,
    {
        if collides_with_laser(laser, &cells[i]) {
            proof {
                lemma_first_hit_unique(cells@, laser@, i as int);
            }
            return Some(i);
        }
        i += 1;
    }
    None
}

/// There is only one first hit.
pub proof fn lemma_first_hit_unique(cells: Seq<Coord>, laser: Seq<Coord>, i: int)
    requires
        is_first_hit(cells, laser, i),
    ensures
        first_hit(cells, laser) == i,
        some_hit(cells, laser),
{
    let k = first_hit(cells, laser);
    assert(is_first_hit(cells, laser, k));
    if k < i {
        assert(!hits(laser, cells[k]));
    } else if k > i {
        assert(!hits(laser, cells[i]));
    }
}

/// A shape built from the cells of a template instance (an alien, a bunker).
pub trait Row: Sized {
    /// The cells that make up the shape.
    spec fn cells(&self) -> Seq<Coord>;

    fn generate(position: Vec<Coord>) -> (r: Self)
        ensures
            r.cells() == position@,
    ;
}

/// Origin column of the `i`-th shape of a row.
pub open spec fn row_origin_x(init_x: int, step: int, i: int) -> int {
    init_x + i * step
}

/// Instantiates `number` copies of a template side by side, `step` columns apart.
pub fn generate_row_of_aliens<T: Row>(
    alien_prototype: &Vec<Coord>,
    init_x: u16,
    init_y: u16,
    number: u16,
    step: u16,
) -> (r: Vec<T>)
    requires
        number == 0 || row_origin_x(init_x as int, step as int, number - 1) <= 0xffff,
    ensures
        r.len() == number,
        forall|i: int|
            0 <= i < number ==> (#[trigger] r@[i]).cells() == shifted_all(
                alien_prototype@,
                row_origin_x(init_x as int, step as int, i),
                init_y as int,
            ),
{
    let mut r: Vec<T> = Vec::new();
    let mut i: u16 = 0;
    while i < number
        invariant
            i <= number,
            r.len() == i,
            number == 0 || row_origin_x(init_x as int, step as int, number - 1) <= 0xffff,
            forall|j: int|
                0 <= j < i ==> (#[trigger] r@[j]).cells() == shifted_all(
                    alien_prototype@,
                    row_origin_x(init_x as int, step as int, j),
                    init_y as int,
                ),
        decreases number - i,
    {
        assert(i * step <= (number - 1) * step) by (nonlinear_arith)
            requires
                i < number,
        ;
        let x = init_x + i * step;
        r.push(T::generate(shift_prototype(alien_prototype, x, init_y)));
        i += 1;
    }
    r
}

} // verus!
