//! Coordinates, grid dimensions and the four cardinal directions on a
//! toroidal grid.
use vstd::prelude::*;
use rand::seq::SliceRandom;
use vstd::arithmetic::div_mod::lemma_mod_multiples_vanish;
use vstd::arithmetic::div_mod::lemma_small_mod;

verus! {

/// Identifier of one participant; small integers assigned by the server.
pub type PlayerId = u8;

/// One axis value of a grid coordinate.
pub type Coordinate = u8;

/// Sentinel stored in an occupancy cell that no participant has crossed.
/// Never a valid participant identifier.
pub const PLAYER_ID_NONE: PlayerId = 255;

/// A grid coordinate: `x` in `[0, width)`, `y` in `[0, height)`.
#[derive(Copy, Clone, PartialEq, Eq, Structural, Hash, Debug)]
pub struct Vector2 {
    pub x: Coordinate,
    pub y: Coordinate,
}

impl View for Vector2 {
    type V = (int, int);

    open spec fn view(&self) -> (int, int) {
        (self.x as int, self.y as int)
    }
}

/// The fixed dimensions of the current game's grid.
pub struct GridMeta {
    pub width: Coordinate,
    pub height: Coordinate,
}

impl GridMeta {
    pub fn new(width: Coordinate, height: Coordinate) -> (r: GridMeta)
        ensures
            r.width == width,
            r.height == height,
    {
        GridMeta { width, height }
    }
}

/// A coordinate paired with the dimensions it lives in.
#[derive(Copy, Clone)]
pub struct Point<'a> {
    pub x: Coordinate,
    pub y: Coordinate,
    pub grid_meta: &'a GridMeta,
}

/// One of the four cardinal moves a participant may make each tick,
/// in canonical order.
#[derive(Copy, Clone, PartialEq, Eq, Structural, Hash, Debug)]
pub enum Direction {
    UP,
    DOWN,
    LEFT,
    RIGHT,
}

/// True when `c` lies inside a `w` by `h` grid.
pub open spec fn in_range(w: int, h: int, c: (int, int)) -> bool {
    0 <= c.0 < w && 0 <= c.1 < h
}

/// The cell one step from `c` in direction `d` on a `w` by `h` torus:
/// each axis moves by one with wraparound past either edge.
pub open spec fn spec_step(d: Direction, c: (int, int), w: int, h: int) -> (int, int)
    recommends
        w > 0,
        h > 0,
        in_range(w, h, c),
{
    match d {
        Direction::UP => (c.0, if c.1 == 0 { h - 1 } else { c.1 - 1 }),
        Direction::DOWN => (c.0, if c.1 == h - 1 { 0 } else { c.1 + 1 }),
        Direction::LEFT => (if c.0 == 0 { w - 1 } else { c.0 - 1 }, c.1),
        Direction::RIGHT => (if c.0 == w - 1 { 0 } else { c.0 + 1 }, c.1),
    }
}

/// The direction that undoes `d`.
pub open spec fn spec_opposite(d: Direction) -> Direction {
    match d {
        Direction::UP => Direction::DOWN,
        Direction::DOWN => Direction::UP,
        Direction::LEFT => Direction::RIGHT,
        Direction::RIGHT => Direction::LEFT,
    }
}

/// Law: applying a direction and then its opposite returns the original
/// coordinate, for every in-range coordinate and all four directions.
pub proof fn lemma_step_opposite_roundtrip(d: Direction, c: (int, int), w: int, h: int)
    requires
        w > 0,
        h > 0,
        in_range(w, h, c),
    ensures
        spec_step(spec_opposite(d), spec_step(d, c, w, h), w, h) == c,
{
}

/// `(v + m - 1) % m` decrements with wraparound, and `(v + 1) % m`
/// increments with wraparound, for `v` in `[0, m)`.
proof fn lemma_wrap_arith(v: int, m: int)
    requires
        m > 0,
        0 <= v < m,
    ensures
        (v + m - 1) % m == (if v == 0 { m - 1 } else { v - 1 }),
        (v + 1) % m == (if v == m - 1 { 0 } else { v + 1 }),
{
    if v == 0 {
        lemma_small_mod((m - 1) as nat, m as nat);
    } else {
        lemma_mod_multiples_vanish(1, v - 1, m);
        lemma_small_mod((v - 1) as nat, m as nat);
    }
    if v == m - 1 {
        lemma_mod_multiples_vanish(1, 0, m);
        lemma_small_mod(0, m as nat);
    } else {
        lemma_small_mod((v + 1) as nat, m as nat);
    }
}

impl Direction {
    /// The four directions in canonical evaluation order.
    pub fn iterator() -> (r: Vec<Direction>)
        ensures
            r@ == seq![Direction::UP, Direction::DOWN, Direction::LEFT, Direction::RIGHT],
    {
        let r = vec![Direction::UP, Direction::DOWN, Direction::LEFT, Direction::RIGHT];
        assert(r@ =~= seq![Direction::UP, Direction::DOWN, Direction::LEFT, Direction::RIGHT]);
        r
    }

    /// Relies on rand's SliceRandom::shuffle: an in-place permutation.
    /// Whatever order the generator picks, the four directions all come
    /// back, each exactly once.
    #[verifier::external_body]
    pub fn iterator_random() -> (r: Vec<Direction>)
        ensures
            r@.to_multiset() == seq![Direction::UP, Direction::DOWN, Direction::LEFT, Direction::RIGHT].to_multiset(),
    {
        let mut list = vec![Direction::UP, Direction::DOWN, Direction::LEFT, Direction::RIGHT];
        list.shuffle(&mut rand::rng());
        list
    }

    /// The coordinate one toroidal step from `position` in this direction
    /// on a grid of the given dimensions.
    pub fn get_relative_width_height(&self, position: Vector2, width: Coordinate, height: Coordinate) -> (r: Vector2)
        requires
            width > 0,
            height > 0,
            position.x < width,
            position.y < height,
        ensures
            r@ == spec_step(*self, position@, width as int, height as int),
            r.x < width,
            r.y < height,
    {
        proof {
            lemma_wrap_arith(position.x as int, width as int);
            lemma_wrap_arith(position.y as int, height as int);
        }
        let mut new_pos = position;
        match self {
            Direction::UP => new_pos.y = (((new_pos.y as u16) + (height as u16) - 1) % (height as u16)) as u8,
            Direction::DOWN => new_pos.y = (((new_pos.y as u16) + 1) % (height as u16)) as u8,
            Direction::LEFT => new_pos.x = (((new_pos.x as u16) + (width as u16) - 1) % (width as u16)) as u8,
            Direction::RIGHT => new_pos.x = (((new_pos.x as u16) + 1) % (width as u16)) as u8,
        };
        new_pos
    }

    /// The same toroidal step, on a coordinate that carries its grid
    /// dimensions with it.
    pub fn get_relative<'a>(&self, pos: Point<'a>) -> (r: Point<'a>)
        requires
            pos.grid_meta.width > 0,
            pos.grid_meta.height > 0,
            pos.x < pos.grid_meta.width,
            pos.y < pos.grid_meta.height,
        ensures
            (r.x as int, r.y as int) == spec_step(
                *self,
                (pos.x as int, pos.y as int),
                pos.grid_meta.width as int,
                pos.grid_meta.height as int,
            ),
            r.grid_meta == pos.grid_meta,
    {
        let moved = self.get_relative_width_height(
            Vector2 { x: pos.x, y: pos.y },
            pos.grid_meta.width,
            pos.grid_meta.height,
        );
        Point { x: moved.x, y: moved.y, grid_meta: pos.grid_meta }
    }
}

} // verus!
