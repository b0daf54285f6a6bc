//! The occupancy grid is stored in `grid::Grid`, an outside 2D
//! collection.  Its contents are modelled as a map from in-bounds
//! (column, row) pairs to the stored participant identifier; the three
//! operations the state model needs are wrapped here with contracts
//! over that map.
use vstd::prelude::*;
use crate::util::Coordinate;
use crate::util::in_range;
use crate::util::PlayerId;

verus! {

#[verifier::external_type_specification]
#[verifier::external_body]
#[verifier::reject_recursive_types(T)]
pub struct ExGrid<T>(grid::Grid<T>);

/// A rows x cols occupancy map holding `data` everywhere.
pub open spec fn uniform_grid(rows: int, cols: int, data: PlayerId) -> Map<(int, int), PlayerId> {
    Map::new(|c: (int, int)| in_range(rows, cols, c), |c: (int, int)| data)
}

/// The contents of an occupancy grid: what value stands at each
/// in-bounds index pair.
pub uninterp spec fn grid_cells(g: grid::Grid<PlayerId>) -> Map<(int, int), PlayerId>;

/// Relies on grid::Grid::init: builds a rows x cols grid with every
/// cell holding `data`.  Dimensions of at most 255 keep rows * cols
/// far below the size limit, so init cannot panic.
#[verifier::external_body]
pub(crate) fn grid_init(rows: Coordinate, cols: Coordinate, data: PlayerId) -> (g: grid::Grid<PlayerId>)
    ensures
        grid_cells(g) == uniform_grid(rows as int, cols as int, data),
{
    grid::Grid::init(rows as usize, cols as usize, data)
}

/// Relies on grid::Grid's Index impl for (usize, usize): returns the
/// value stored at that pair, and panics only out of bounds, which the
/// precondition excludes.
#[verifier::external_body]
pub(crate) fn grid_get(g: &grid::Grid<PlayerId>, x: usize, y: usize) -> (r: PlayerId)
    requires
        grid_cells(*g).dom().contains((x as int, y as int)),
    ensures
        r == grid_cells(*g)[(x as int, y as int)],
{
    g[(x, y)]
}

/// Relies on grid::Grid's IndexMut impl for (usize, usize): overwrites
/// the value stored at that pair and nothing else.
#[verifier::external_body]
pub(crate) fn grid_set(g: &mut grid::Grid<PlayerId>, x: usize, y: usize, v: PlayerId)
    requires
        grid_cells(*old(g)).dom().contains((x as int, y as int)),
    ensures
        grid_cells(*final(g)) == grid_cells(*old(g)).insert((x as int, y as int), v),
{
    g[(x, y)] = v;
}

} // verus!
