//! The in-memory model of one game: grid dimensions, occupancy,
//! per-participant head positions, our own identifier and the tick
//! counter.  Mutated only by the dispatch handlers; read by the
//! territory evaluator and the decision controller.
use vstd::prelude::*;
use std::collections::HashMap;
use crate::grid_store::grid_cells;
use crate::grid_store::grid_init;
use crate::grid_store::grid_get;
use crate::grid_store::grid_set;
use crate::util::Coordinate;
use crate::util::GridMeta;
use crate::util::PLAYER_ID_NONE;
use crate::util::PlayerId;
use crate::util::Vector2;
use crate::util::in_range;

verus! {

broadcast use vstd::std_specs::hash::group_hash_axioms;

/// All in-bounds index pairs of a `w` by `h` grid.
pub open spec fn cell_domain(w: int, h: int) -> Set<(int, int)> {
    Set::new(|c: (int, int)| in_range(w, h, c))
}

/// The occupancy map after every cell holding `p` is reset to empty.
pub open spec fn spec_clear_participant(
    cells: Map<(int, int), PlayerId>,
    p: PlayerId,
) -> Map<(int, int), PlayerId> {
    Map::new(
        |c: (int, int)| cells.dom().contains(c),
        |c: (int, int)| if cells[c] == p { PLAYER_ID_NONE } else { cells[c] },
    )
}

pub struct GameData {
    pub grid_meta: GridMeta,
    pub grid: grid::Grid<PlayerId>,
    pub player_heads: HashMap<PlayerId, Vector2>,
    pub own_id: PlayerId,
    pub current_tick: u64,
}

impl GameData {
    /// The occupancy contents as a map over in-bounds coordinates.
    pub open spec fn cells(self) -> Map<(int, int), PlayerId> {
        grid_cells(self.grid)
    }

    /// The recorded head positions as a map.
    pub open spec fn heads(self) -> Map<PlayerId, Vector2> {
        self.player_heads@
    }

    /// Well-formedness: the occupancy map covers exactly the grid's
    /// coordinate rectangle, and every recorded head lies inside it.
    pub open spec fn wf(self) -> bool {
        &&& self.cells().dom() == cell_domain(self.grid_meta.width as int, self.grid_meta.height as int)
        &&& forall|p: PlayerId| self.heads().contains_key(p) ==> in_range(
            self.grid_meta.width as int,
            self.grid_meta.height as int,
            (#[trigger] self.heads()[p])@,
        )
    }

    /// Begins a new game: an all-empty `width` x `height` occupancy
    /// grid, no recorded heads, our server-assigned identifier, and a
    /// tick counter at zero.  Safe to call again after an earlier game.
    pub fn reset(&mut self, width: Coordinate, height: Coordinate, self_id: PlayerId)
        ensures
            final(self).wf(),
            final(self).grid_meta.width == width,
            final(self).grid_meta.height == height,
            final(self).own_id == self_id,
            final(self).current_tick == 0,
            final(self).heads() == Map::<PlayerId, Vector2>::empty(),
            final(self).cells() == Map::<(int, int), PlayerId>::new(
                |c: (int, int)| in_range(width as int, height as int, c),
                |c: (int, int)| PLAYER_ID_NONE,
            ),
    {
        self.grid_meta = GridMeta::new(width, height);
        self.own_id = self_id;
        self.grid = grid_init(width, height, PLAYER_ID_NONE);
        self.player_heads = HashMap::new();
        self.current_tick = 0;
        proof {
            assert(self.cells().dom() =~= cell_domain(width as int, height as int));
            assert(self.cells() =~= Map::<(int, int), PlayerId>::new(
                |c: (int, int)| in_range(width as int, height as int, c),
                |c: (int, int)| PLAYER_ID_NONE,
            ));
        }
    }

    /// Records a server-reported position: the cell is overwritten with
    /// the participant's identifier and its head moves there.  Earlier
    /// trail cells are not cleared: trails accumulate for a lifetime.
    pub fn update_player_pos(&mut self, player_id: PlayerId, x: Coordinate, y: Coordinate)
        requires
            old(self).wf(),
            (x as int) < old(self).grid_meta.width,
            (y as int) < old(self).grid_meta.height,
        ensures
            final(self).wf(),
            final(self).cells() == old(self).cells().insert((x as int, y as int), player_id),
            final(self).heads() == old(self).heads().insert(player_id, Vector2 { x, y }),
            final(self).grid_meta == old(self).grid_meta,
            final(self).own_id == old(self).own_id,
            final(self).current_tick == old(self).current_tick,
    {
        grid_set(&mut self.grid, x as usize, y as usize, player_id);
        self.player_heads.insert(player_id, Vector2 { x, y });
        proof {
            assert(self.cells().dom() =~= cell_domain(
                self.grid_meta.width as int,
                self.grid_meta.height as int,
            ));
            assert forall|p: PlayerId| self.heads().contains_key(p) implies in_range(
                self.grid_meta.width as int,
                self.grid_meta.height as int,
                (#[trigger] self.heads()[p])@,
            ) by {
                if p != player_id {
                    assert(old(self).heads().contains_key(p));
                    assert(self.heads()[p] == old(self).heads()[p]);
                }
            }
        }
    }

    /// Removes a dead participant: its head entry disappears and every
    /// occupancy cell holding its identifier is reset to empty.  A
    /// participant that is already absent leaves the heads unchanged.
    pub fn remove_participant(&mut self, player_id: PlayerId)
        requires
            old(self).wf(),
        ensures
            final(self).wf(),
            final(self).cells() == spec_clear_participant(old(self).cells(), player_id),
            final(self).heads() == old(self).heads().remove(player_id),
            final(self).grid_meta == old(self).grid_meta,
            final(self).own_id == old(self).own_id,
            final(self).current_tick == old(self).current_tick,
    {
        self.player_heads.remove(&player_id);
        proof {
            assert(self.player_heads@ =~= old(self).heads().remove(player_id));
        }
        let w = self.grid_meta.width;
        let h = self.grid_meta.height;
        let ghost orig = self.cells();
        let ghost heads1 = self.player_heads@;
        let mut x: usize = 0;
        while x < w as usize
            invariant
                w == self.grid_meta.width,
                h == self.grid_meta.height,
                self.grid_meta == old(self).grid_meta,
                self.own_id == old(self).own_id,
                self.current_tick == old(self).current_tick,
                self.player_heads@ == heads1,
                x <= w as usize,
                self.cells().dom() == orig.dom(),
                orig.dom() == cell_domain(w as int, h as int),
                forall|c: (int, int)| #[trigger] orig.dom().contains(c) ==> self.cells()[c] == (
                    if c.0 < x && orig[c] == player_id { PLAYER_ID_NONE } else { orig[c] }
                ),
            decreases w as int - x as int,
        {
            let mut y: usize = 0;
            while y < h as usize
                invariant
                    w == self.grid_meta.width,
                    h == self.grid_meta.height,
                    self.grid_meta == old(self).grid_meta,
                    self.own_id == old(self).own_id,
                    self.current_tick == old(self).current_tick,
                    self.player_heads@ == heads1,
                    x < w as usize,
                    y <= h as usize,
                    self.cells().dom() == orig.dom(),
                    orig.dom() == cell_domain(w as int, h as int),
                    forall|c: (int, int)| #[trigger] orig.dom().contains(c) ==> self.cells()[c] == (
                        if c.0 < x || (c.0 == x && c.1 < y) {
                            if orig[c] == player_id { PLAYER_ID_NONE } else { orig[c] }
                        } else {
                            orig[c]
                        }
                    ),
                decreases h as int - y as int,
            {
                if grid_get(&self.grid, x, y) == player_id {
                    grid_set(&mut self.grid, x, y, PLAYER_ID_NONE);
                    proof {
                        assert(self.cells().dom() =~= orig.dom());
                    }
                }
                y = y + 1;
            }
            x = x + 1;
        }
        proof {
            assert(self.cells() =~= spec_clear_participant(orig, player_id));
            assert forall|p: PlayerId| self.heads().contains_key(p) implies in_range(
                self.grid_meta.width as int,
                self.grid_meta.height as int,
                (#[trigger] self.heads()[p])@,
            ) by {
                assert(old(self).heads().contains_key(p));
                assert(self.heads()[p] == old(self).heads()[p]);
            }
        }
    }
}

/// A fresh state before any game-start event: a zero-size grid, no
/// heads, identifier zero and tick zero.
pub fn init_game_data() -> (r: GameData)
    ensures
        r.wf(),
        r.grid_meta.width == 0,
        r.grid_meta.height == 0,
        r.own_id == 0,
        r.current_tick == 0,
        r.heads() == Map::<PlayerId, Vector2>::empty(),
{
    let game_data = GameData {
        grid_meta: GridMeta::new(0, 0),
        own_id: 0,
        grid: grid_init(0, 0, PLAYER_ID_NONE),
        player_heads: HashMap::new(),
        current_tick: 0,
    };
    proof {
        assert(game_data.cells().dom() =~= cell_domain(0, 0));
    }
    game_data
}

/// Law: removing a participant and then recording a fresh position for
/// its identifier leaves exactly one head entry and exactly one
/// occupied cell for that identifier.
pub proof fn lemma_remove_then_report(
    cells: Map<(int, int), PlayerId>,
    heads: Map<PlayerId, Vector2>,
    p: PlayerId,
    pos: Vector2,
    w: int,
    h: int,
)
    requires
        p != PLAYER_ID_NONE,
        cells.dom() == cell_domain(w, h),
        in_range(w, h, pos@),
        heads.dom().finite(),
    ensures
        ({
            let cells2 = spec_clear_participant(cells, p).insert(pos@, p);
            let heads2 = heads.remove(p).insert(p, pos);
            &&& heads2.dom().len() == heads.remove(p).dom().len() + 1
            &&& heads2[p] == pos
            &&& Set::new(|c: (int, int)| cells2.dom().contains(c) && cells2[c] == p) =~= set![pos@]
        }),
{
    let heads1 = heads.remove(p);
    let heads2 = heads1.insert(p, pos);
    assert(!heads1.dom().contains(p));
    assert(heads2.dom() =~= heads1.dom().insert(p));
    let cells1 = spec_clear_participant(cells, p);
    let cells2 = cells1.insert(pos@, p);
    assert(forall|c: (int, int)| cells1.dom().contains(c) ==> #[trigger] cells1[c] != p);
    assert(cells2.dom().contains(pos@));
}

} // verus!
