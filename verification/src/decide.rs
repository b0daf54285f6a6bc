//! The decision controller: once per tick, evaluate the four candidate
//! directions through the territory evaluator and pick one move.
//!
//! A direction replaces the incumbent only with a strictly greater
//! reachable count, so on ties the earlier direction in canonical
//! order wins; once the best count passes the early-exit threshold the
//! remaining directions are not evaluated.
use vstd::prelude::*;
use crate::flood::border_heads;
use crate::flood::flood_fill;
use crate::flood::territory;
use crate::state::GameData;
use crate::util::Direction;
use crate::util::Vector2;
use crate::util::spec_step;

verus! {

/// A best count above this many cells ends the evaluation early.
pub const EARLY_EXIT_THRESHOLD: u32 = 1000;

/// The four directions in canonical evaluation order.
pub open spec fn dir_order() -> Seq<Direction> {
    seq![Direction::UP, Direction::DOWN, Direction::LEFT, Direction::RIGHT]
}

/// The reachable-count of each candidate direction: the territory of
/// the cell one step from our head.
pub open spec fn eval_counts(g: GameData) -> Seq<nat> {
    let w = g.grid_meta.width as int;
    let h = g.grid_meta.height as int;
    let head = g.heads()[g.own_id]@;
    Seq::new(4, |i: int| territory(g.cells(), w, h, spec_step(dir_order()[i], head, w, h)).len())
}

/// The opponent-head count of each candidate direction.
pub open spec fn eval_head_counts(g: GameData) -> Seq<nat> {
    let w = g.grid_meta.width as int;
    let h = g.grid_meta.height as int;
    let head = g.heads()[g.own_id]@;
    Seq::new(
        4,
        |i: int| border_heads(
            g.cells(),
            w,
            h,
            g.heads(),
            g.own_id,
            spec_step(dir_order()[i], head, w, h),
        ).len(),
    )
}

/// The index the selection loop settles on, starting at position `i`
/// with incumbent `best` (-1 while no direction has beaten the initial
/// zero count).  An index replaces the incumbent only with a strictly
/// greater count, and a count above the threshold stops the scan.
pub open spec fn spec_pick(counts: Seq<nat>, i: int, best: int) -> int
    decreases counts.len() - i,
{
    if i < 0 || i >= counts.len() {
        best
    } else {
        let cur = if best == -1 { 0 } else { counts[best] };
        let b2 = if counts[i] > cur { i } else { best };
        let cur2 = if b2 == -1 { 0 } else { counts[b2] };
        if cur2 > EARLY_EXIT_THRESHOLD { b2 } else { spec_pick(counts, i + 1, b2) }
    }
}

/// The direction the controller reports for a settled index.
pub open spec fn pick_direction(counts: Seq<nat>) -> Direction {
    let pk = spec_pick(counts, 0, -1);
    if pk == -1 { Direction::UP } else { dir_order()[pk] }
}

proof fn lemma_pick_props(counts: Seq<nat>, i: int, best: int)
    requires
        0 <= i <= counts.len(),
        forall|k: int| 0 <= k < counts.len() ==> counts[k] <= EARLY_EXIT_THRESHOLD,
        best == -1 || 0 <= best < i,
        best == -1 ==> forall|k: int| 0 <= k < i ==> counts[k] == 0,
        best != -1 ==> counts[best] > 0,
        best != -1 ==> forall|k: int| 0 <= k < i ==> counts[k] <= counts[best],
        best != -1 ==> forall|k: int| 0 <= k < best ==> counts[k] < counts[best],
    ensures
        ({
            let pk = spec_pick(counts, i, best);
            &&& pk == -1 ==> forall|k: int| 0 <= k < counts.len() ==> counts[k] == 0
            &&& pk != -1 ==> 0 <= pk < counts.len() && counts[pk] > 0
            &&& pk != -1 ==> forall|k: int| 0 <= k < counts.len() ==> counts[k] <= counts[pk]
            &&& pk != -1 ==> forall|k: int| 0 <= k < pk ==> counts[k] < counts[pk]
        }),
    decreases counts.len() - i,
{
    if i < counts.len() {
        let cur = if best == -1 { 0 } else { counts[best] };
        let b2 = if counts[i] > cur { i } else { best };
        lemma_pick_props(counts, i + 1, b2);
    }
}

/// Law: when no direction's count passes the early-exit threshold, the
/// chosen direction is the first in canonical order that attains the
/// maximum count.  In particular, of two directions with equal counts
/// the earlier one wins, and when every count is zero the canonical
/// default is kept.
pub proof fn lemma_pick_first_max(counts: Seq<nat>)
    requires
        forall|k: int| 0 <= k < counts.len() ==> counts[k] <= EARLY_EXIT_THRESHOLD,
    ensures
        ({
            let pk = spec_pick(counts, 0, -1);
            &&& pk == -1 ==> forall|k: int| 0 <= k < counts.len() ==> counts[k] == 0
            &&& pk != -1 ==> 0 <= pk < counts.len() && counts[pk] > 0
            &&& pk != -1 ==> forall|k: int| 0 <= k < counts.len() ==> counts[k] <= counts[pk]
            &&& pk != -1 ==> forall|k: int| 0 <= k < pk ==> counts[k] < counts[pk]
        }),
{
    lemma_pick_props(counts, 0, -1);
}

/// One tick's decision: evaluate the four directions in canonical
/// order from our head and keep the first strictly best one, stopping
/// early past the threshold.  Returns the chosen direction together
/// with its reachable count and opponent-head count as observed by the
/// selection loop (zero while no direction ever beat the initial zero).
pub fn decide(game_data: &GameData) -> (r: (Direction, u32, u8))
    requires
        game_data.wf(),
        game_data.grid_meta.width > 0,
        game_data.grid_meta.height > 0,
        game_data.heads().contains_key(game_data.own_id),
    ensures
        ({
            let counts = eval_counts(*game_data);
            let pk = spec_pick(counts, 0, -1);
            &&& r.0 == pick_direction(counts)
            &&& r.1 == if pk == -1 { 0 } else { counts[pk] }
            &&& r.2 == if pk == -1 { 0 } else { eval_head_counts(*game_data)[pk] }
        }),
{
    let w = game_data.grid_meta.width;
    let h = game_data.grid_meta.height;
    let ghost counts = eval_counts(*game_data);
    let ghost hcounts = eval_head_counts(*game_data);

    let my_position = *game_data.player_heads.get(&game_data.own_id).unwrap();
    let mut max_fields: u32 = 0;
    let mut max_direction = Direction::UP;
    let mut max_players: u8 = 0;
    let ghost mut gbest: int = -1;

    let dirs = Direction::iterator();
    let mut di: usize = 0;
    let mut done = false;
    while di < 4 && !done
        invariant
            game_data.wf(),
            w == game_data.grid_meta.width,
            h == game_data.grid_meta.height,
            w > 0,
            h > 0,
            game_data.heads().contains_key(game_data.own_id),
            my_position == game_data.heads()[game_data.own_id],
            counts == eval_counts(*game_data),
            hcounts == eval_head_counts(*game_data),
            dirs@ == dir_order(),
            di <= 4,
            gbest == -1 || 0 <= gbest < di,
            gbest == -1 ==> max_fields == 0 && max_direction == Direction::UP && max_players == 0,
            gbest != -1 ==> max_fields == counts[gbest] && max_direction == dir_order()[gbest]
                && max_players == hcounts[gbest],
            spec_pick(counts, 0, -1) == if done { gbest } else { spec_pick(counts, di as int, gbest) },
            done ==> di <= 4,
        decreases 4 - di,
    {
        let dir = dirs[di];
        let pos = dir.get_relative_width_height(my_position, w, h);
        let evaluated = flood_fill(game_data, pos);
        let field_amount = evaluated.0;
        let player_amount = evaluated.1;
        proof {
            assert(pos@ == spec_step(dir_order()[di as int], my_position@, w as int, h as int));
            assert(field_amount == counts[di as int]);
            assert(player_amount == hcounts[di as int]);
        }
        if field_amount > max_fields {
            max_direction = dir;
            max_fields = field_amount;
            max_players = player_amount;
            proof {
                gbest = di as int;
            }
        }
        if max_fields > EARLY_EXIT_THRESHOLD {
            done = true;
        }
        di = di + 1;
        proof {
            assert(spec_pick(counts, 0, -1) == (if done {
                gbest
            } else {
                spec_pick(counts, di as int, gbest)
            }));
        }
    }
    (max_direction, max_fields, max_players)
}

} // verus!
