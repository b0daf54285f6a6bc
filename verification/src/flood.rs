//! The territory evaluator: a breadth-first search over empty cells
//! that counts the cells reachable from a start coordinate and the
//! distinct opponent heads that border the reachable region.
//!
//! The contract is stated over a spec-level reachability relation:
//! a cell is reachable when a chain of toroidal steps through empty
//! cells leads to it from the start.
use vstd::prelude::*;
use std::collections::VecDeque;
use vstd::set_lib::lemma_len_subset;
use crate::grid_store::uniform_grid;
use crate::state::GameData;
use crate::state::cell_domain;
use crate::util::Direction;
use crate::util::PLAYER_ID_NONE;
use crate::util::PlayerId;
use crate::util::Vector2;
use crate::util::in_range;
use crate::util::spec_step;

verus! {

broadcast use {vstd::std_specs::hash::group_hash_axioms, vstd::set::group_set_axioms};

/// The cell holds no trail and no head: nothing blocks movement there.
pub open spec fn empty_at(cells: Map<(int, int), PlayerId>, c: (int, int)) -> bool {
    cells.dom().contains(c) && cells[c] == PLAYER_ID_NONE
}

/// `b` lies one toroidal step from `a` in some direction.
pub open spec fn is_neighbor(w: int, h: int, a: (int, int), b: (int, int)) -> bool {
    ||| b == spec_step(Direction::UP, a, w, h)
    ||| b == spec_step(Direction::DOWN, a, w, h)
    ||| b == spec_step(Direction::LEFT, a, w, h)
    ||| b == spec_step(Direction::RIGHT, a, w, h)
}

/// `c` can be reached from `start` within `n` expansions, where every
/// expansion leaves an empty cell.  The start itself is reached in
/// zero expansions whatever it holds.
pub open spec fn reach_n(
    cells: Map<(int, int), PlayerId>,
    w: int,
    h: int,
    start: (int, int),
    c: (int, int),
    n: nat,
) -> bool
    decreases n,
{
    if n == 0 {
        c == start
    } else {
        ||| reach_n(cells, w, h, start, c, (n - 1) as nat)
        ||| exists|b: (int, int)|
            reach_n(cells, w, h, start, b, (n - 1) as nat) && empty_at(cells, b)
                && #[trigger] is_neighbor(w, h, b, c)
    }
}

/// `c` is in the region the search considers: the start, or a cell
/// joined to it by a chain of steps through empty cells.
pub open spec fn reachable(
    cells: Map<(int, int), PlayerId>,
    w: int,
    h: int,
    start: (int, int),
    c: (int, int),
) -> bool {
    exists|n: nat| reach_n(cells, w, h, start, c, n)
}

/// The territory of `start`: every reachable empty cell.
pub open spec fn territory(
    cells: Map<(int, int), PlayerId>,
    w: int,
    h: int,
    start: (int, int),
) -> Set<(int, int)> {
    Set::new(|c: (int, int)| reachable(cells, w, h, start, c) && empty_at(cells, c))
}

/// Some participant's recorded head stands at `c`.
pub open spec fn head_at(heads: Map<PlayerId, Vector2>, c: (int, int)) -> bool {
    exists|p: PlayerId| #[trigger] heads.dom().contains(p) && heads[p]@ == c
}

/// The occupied reachable cells that carry a head other than our own:
/// what the evaluator's second count measures.
pub open spec fn border_heads(
    cells: Map<(int, int), PlayerId>,
    w: int,
    h: int,
    heads: Map<PlayerId, Vector2>,
    own_id: PlayerId,
    start: (int, int),
) -> Set<(int, int)> {
    Set::new(
        |c: (int, int)|
            reachable(cells, w, h, start, c) && cells.dom().contains(c) && cells[c]
                != PLAYER_ID_NONE && head_at(heads, c) && c != heads[own_id]@,
    )
}

/// Everything reachable from an in-range start stays in range.
pub proof fn lemma_reach_n_in_range(
    cells: Map<(int, int), PlayerId>,
    w: int,
    h: int,
    start: (int, int),
    c: (int, int),
    n: nat,
)
    requires
        w > 0,
        h > 0,
        in_range(w, h, start),
        reach_n(cells, w, h, start, c, n),
    ensures
        in_range(w, h, c),
    decreases n,
{
    if n > 0 {
        if reach_n(cells, w, h, start, c, (n - 1) as nat) {
            lemma_reach_n_in_range(cells, w, h, start, c, (n - 1) as nat);
        } else {
            let b = choose|b: (int, int)|
                reach_n(cells, w, h, start, b, (n - 1) as nat) && empty_at(cells, b)
                    && #[trigger] is_neighbor(w, h, b, c);
            lemma_reach_n_in_range(cells, w, h, start, b, (n - 1) as nat);
        }
    }
}

/// Law: the evaluator counts no coordinate outside the grid; both the
/// territory and the bordering-head cells lie inside
/// `[0, w)` x `[0, h)`.
pub proof fn lemma_counted_cells_in_range(
    cells: Map<(int, int), PlayerId>,
    w: int,
    h: int,
    heads: Map<PlayerId, Vector2>,
    own_id: PlayerId,
    start: (int, int),
)
    requires
        w > 0,
        h > 0,
        in_range(w, h, start),
    ensures
        forall|c: (int, int)| territory(cells, w, h, start).contains(c) ==> in_range(w, h, c),
        forall|c: (int, int)| border_heads(cells, w, h, heads, own_id, start).contains(c)
            ==> in_range(w, h, c),
{
    assert forall|c: (int, int)| reachable(cells, w, h, start, c) implies in_range(w, h, c) by {
        let n = choose|n: nat| reach_n(cells, w, h, start, c, n);
        lemma_reach_n_in_range(cells, w, h, start, c, n);
    }
}

/// One more step from a reachable empty cell stays reachable.
proof fn lemma_reach_step(
    cells: Map<(int, int), PlayerId>,
    w: int,
    h: int,
    start: (int, int),
    b: (int, int),
    c: (int, int),
)
    requires
        reachable(cells, w, h, start, b),
        empty_at(cells, b),
        is_neighbor(w, h, b, c),
    ensures
        reachable(cells, w, h, start, c),
{
    let n = choose|n: nat| reach_n(cells, w, h, start, b, n);
    assert(reach_n(cells, w, h, start, c, n + 1));
}

/// A set that holds the start and is closed under steps out of its
/// empty cells holds everything reachable.
proof fn lemma_reach_n_closed(
    cells: Map<(int, int), PlayerId>,
    w: int,
    h: int,
    start: (int, int),
    s: Set<(int, int)>,
    c: (int, int),
    n: nat,
)
    requires
        s.contains(start),
        forall|a: (int, int), b: (int, int)|
            s.contains(a) && empty_at(cells, a) && #[trigger] is_neighbor(w, h, a, b)
                ==> s.contains(b),
        reach_n(cells, w, h, start, c, n),
    ensures
        s.contains(c),
    decreases n,
{
    if n > 0 {
        if reach_n(cells, w, h, start, c, (n - 1) as nat) {
            lemma_reach_n_closed(cells, w, h, start, s, c, (n - 1) as nat);
        } else {
            let b = choose|b: (int, int)|
                reach_n(cells, w, h, start, b, (n - 1) as nat) && empty_at(cells, b)
                    && #[trigger] is_neighbor(w, h, b, c);
            lemma_reach_n_closed(cells, w, h, start, s, b, (n - 1) as nat);
        }
    }
}

/// A disjoint union's size is the sum of its parts.
proof fn lemma_len_disjoint_union(s1: Set<(int, int)>, s2: Set<(int, int)>)
    requires
        s1.finite(),
        s2.finite(),
        s1.disjoint(s2),
    ensures
        s1.union(s2).len() == s1.len() + s2.len(),
        s1.union(s2).finite(),
    decreases s2.len(),
{
    if s2.len() == 0 {
        assert(s2 =~= Set::<(int, int)>::empty());
        assert(s1.union(s2) =~= s1);
    } else {
        let a = s2.choose();
        assert(s2.contains(a));
        assert(s1.union(s2).remove(a) =~= s1.union(s2.remove(a)));
        lemma_len_disjoint_union(s1, s2.remove(a));
        assert(s1.union(s2) =~= s1.union(s2.remove(a)).insert(a));
        assert(!s1.union(s2.remove(a)).contains(a));
    }
}

/// The cells of one column below a given height.
spec fn column_upto(x: int, j: int) -> Set<(int, int)> {
    Set::new(|c: (int, int)| c.0 == x && 0 <= c.1 < j)
}

proof fn lemma_column_len(x: int, j: int)
    requires
        j >= 0,
    ensures
        column_upto(x, j).finite(),
        column_upto(x, j).len() == j,
    decreases j,
{
    if j == 0 {
        assert(column_upto(x, 0) =~= Set::<(int, int)>::empty());
    } else {
        lemma_column_len(x, j - 1);
        assert(column_upto(x, j) =~= column_upto(x, j - 1).insert((x, j - 1)));
    }
}

/// The coordinate rectangle of a `w` by `h` grid holds exactly
/// `w * h` cells.
pub proof fn lemma_cell_domain_len(w: int, h: int)
    requires
        w >= 0,
        h >= 0,
    ensures
        cell_domain(w, h).finite(),
        cell_domain(w, h).len() == w * h,
    decreases w,
{
    if w == 0 {
        assert(cell_domain(0, h) =~= Set::<(int, int)>::empty());
    } else {
        lemma_cell_domain_len(w - 1, h);
        lemma_column_len(w - 1, h);
        assert(cell_domain(w, h) =~= cell_domain(w - 1, h).union(column_upto(w - 1, h)));
        assert(cell_domain(w - 1, h).disjoint(column_upto(w - 1, h)));
        lemma_len_disjoint_union(cell_domain(w - 1, h), column_upto(w - 1, h));
        assert((w - 1) * h + h == w * h) by (nonlinear_arith);
    }
}

/// No more than 256 distinct participant identifiers exist.
proof fn lemma_id_set_bound(s: Set<PlayerId>)
    ensures
        s.finite(),
        s.len() <= 256,
{
    let full = Set::<PlayerId>::full();
    assert(full =~= Set::range_inclusive(0u8, 255u8));
    <PlayerId as vstd::set_lib::FiniteRange>::range_properties(0u8, 255u8);
    assert(!Set::range(0u8, 255u8).contains(255u8));
    assert(s.subset_of(full));
    lemma_len_subset(s, full);
}

/// A set of cells that each carry a head of a participant drawn from
/// `ids` cannot outnumber `ids`.
proof fn lemma_cells_inject_ids(
    hset: Set<(int, int)>,
    heads: Map<PlayerId, Vector2>,
    ids: Set<PlayerId>,
)
    requires
        hset.finite(),
        ids.finite(),
        forall|c: (int, int)| #[trigger] hset.contains(c) ==> exists|p: PlayerId|
            #[trigger] ids.contains(p) && heads.dom().contains(p) && heads[p]@ == c,
    ensures
        hset.len() <= ids.len(),
    decreases hset.len(),
{
    if hset.len() > 0 {
        let c = hset.choose();
        assert(hset.contains(c));
        let p = choose|p: PlayerId|
            #[trigger] ids.contains(p) && heads.dom().contains(p) && heads[p]@ == c;
        let hset2 = hset.remove(c);
        let ids2 = ids.remove(p);
        assert forall|c2: (int, int)| #[trigger] hset2.contains(c2) implies exists|p2: PlayerId|
            #[trigger] ids2.contains(p2) && heads.dom().contains(p2) && heads[p2]@ == c2 by {
            assert(hset.contains(c2));
            let p2 = choose|p2: PlayerId|
                #[trigger] ids.contains(p2) && heads.dom().contains(p2) && heads[p2]@ == c2;
            assert(heads[p2]@ == c2 && heads[p]@ == c && c2 != c);
            assert(p2 != p);
            assert(ids2.contains(p2));
        }
        lemma_cells_inject_ids(hset2, heads, ids2);
    }
}

/// Law: an opponent's head contributes at most one cell to the counted
/// border, however many of its trail cells touch the region.
pub proof fn lemma_head_counted_once(
    cells: Map<(int, int), PlayerId>,
    w: int,
    h: int,
    heads: Map<PlayerId, Vector2>,
    own_id: PlayerId,
    start: (int, int),
    p: PlayerId,
)
    requires
        heads.dom().contains(p),
    ensures
        border_heads(cells, w, h, heads, own_id, start).intersect(
            Set::new(|c: (int, int)| c == heads[p]@),
        ).len() <= 1,
{
    let single = Set::new(|c: (int, int)| c == heads[p]@);
    assert(single =~= Set::<(int, int)>::empty().insert(heads[p]@));
    let inter = border_heads(cells, w, h, heads, own_id, start).intersect(single);
    assert(inter.subset_of(single));
    lemma_len_subset(inter, single);
}

/// The bound the opponent-head counter never passes: every counted
/// cell carries a head of a participant other than ours.
proof fn lemma_head_count_bound(
    hset: Set<(int, int)>,
    heads: Map<PlayerId, Vector2>,
    own_id: PlayerId,
)
    requires
        hset.finite(),
        heads.dom().contains(own_id),
        forall|c: (int, int)| #[trigger] hset.contains(c) ==> head_at(heads, c) && c != heads[own_id]@,
    ensures
        hset.len() <= 255,
{
    let ids = heads.dom().remove(own_id);
    lemma_id_set_bound(heads.dom());
    assert forall|c: (int, int)| #[trigger] hset.contains(c) implies exists|p: PlayerId|
        #[trigger] ids.contains(p) && heads.dom().contains(p) && heads[p]@ == c by {
        assert(head_at(heads, c));
        let p = choose|p: PlayerId| #[trigger] heads.dom().contains(p) && heads[p]@ == c;
        assert(p != own_id);
        assert(ids.contains(p) && heads.dom().contains(p) && heads[p]@ == c);
    }
    lemma_cells_inject_ids(hset, heads, ids);
    assert(ids.len() == heads.dom().len() - 1);
}

/// The cell `j` toroidal steps below `a` on a height-`h` grid, for
/// `j` small enough that at most one wrap happens.
spec fn down_pos(a: (int, int), j: int, h: int) -> (int, int) {
    (a.0, if a.1 + j < h { a.1 + j } else { a.1 + j - h })
}

/// The cell `j` toroidal steps to the right of `a` on a width-`w` grid.
spec fn right_pos(a: (int, int), j: int, w: int) -> (int, int) {
    (if a.0 + j < w { a.0 + j } else { a.0 + j - w }, a.1)
}

proof fn lemma_reach_down(w: int, h: int, s: (int, int), j: int)
    requires
        w > 0,
        h > 0,
        in_range(w, h, s),
        0 <= j < h,
    ensures
        reach_n(uniform_grid(w, h, PLAYER_ID_NONE), w, h, s, down_pos(s, j, h), j as nat),
    decreases j,
{
    let cells = uniform_grid(w, h, PLAYER_ID_NONE);
    if j > 0 {
        lemma_reach_down(w, h, s, j - 1);
        let prev = down_pos(s, j - 1, h);
        let cur = down_pos(s, j, h);
        assert(in_range(w, h, prev));
        assert(empty_at(cells, prev));
        assert(spec_step(Direction::DOWN, prev, w, h) == cur);
        assert(is_neighbor(w, h, prev, cur));
        assert(reach_n(cells, w, h, s, cur, j as nat));
    }
}

proof fn lemma_reach_right(w: int, h: int, s: (int, int), base: (int, int), n0: nat, j: int)
    requires
        w > 0,
        h > 0,
        in_range(w, h, base),
        reach_n(uniform_grid(w, h, PLAYER_ID_NONE), w, h, s, base, n0),
        0 <= j < w,
    ensures
        reach_n(uniform_grid(w, h, PLAYER_ID_NONE), w, h, s, right_pos(base, j, w), (n0 + j) as nat),
    decreases j,
{
    let cells = uniform_grid(w, h, PLAYER_ID_NONE);
    if j > 0 {
        lemma_reach_right(w, h, s, base, n0, j - 1);
        let prev = right_pos(base, j - 1, w);
        let cur = right_pos(base, j, w);
        assert(in_range(w, h, prev));
        assert(empty_at(cells, prev));
        assert(spec_step(Direction::RIGHT, prev, w, h) == cur);
        assert(is_neighbor(w, h, prev, cur));
        assert(reach_n(cells, w, h, s, cur, (n0 + j) as nat));
    }
}

/// Law: on an entirely empty `w` x `h` grid every cell is reachable
/// from any start cell, so the territory holds exactly `w * h` cells
/// and no bordering head is counted.
pub proof fn lemma_empty_grid_full_territory(
    w: int,
    h: int,
    heads: Map<PlayerId, Vector2>,
    own_id: PlayerId,
    s: (int, int),
)
    requires
        w > 0,
        h > 0,
        in_range(w, h, s),
    ensures
        territory(uniform_grid(w, h, PLAYER_ID_NONE), w, h, s).len() == w * h,
        border_heads(uniform_grid(w, h, PLAYER_ID_NONE), w, h, heads, own_id, s).len() == 0,
{
    let cells = uniform_grid(w, h, PLAYER_ID_NONE);
    assert forall|c: (int, int)| #[trigger] cell_domain(w, h).contains(c)
        implies territory(cells, w, h, s).contains(c) by {
        let dy = if c.1 >= s.1 { c.1 - s.1 } else { c.1 + h - s.1 };
        lemma_reach_down(w, h, s, dy);
        let mid = down_pos(s, dy, h);
        assert(mid == (s.0, c.1));
        let dx = if c.0 >= s.0 { c.0 - s.0 } else { c.0 + w - s.0 };
        lemma_reach_n_in_range(cells, w, h, s, mid, dy as nat);
        lemma_reach_right(w, h, s, mid, dy as nat, dx);
        assert(right_pos(mid, dx, w) == c);
        assert(reach_n(cells, w, h, s, c, (dy + dx) as nat));
        assert(empty_at(cells, c));
    }
    assert forall|c: (int, int)| #[trigger] territory(cells, w, h, s).contains(c)
        implies cell_domain(w, h).contains(c) by {
        let n = choose|n: nat| reach_n(cells, w, h, s, c, n);
        lemma_reach_n_in_range(cells, w, h, s, c, n);
    }
    assert(territory(cells, w, h, s) =~= cell_domain(w, h));
    lemma_cell_domain_len(w, h);
    assert(border_heads(cells, w, h, heads, own_id, s) =~= Set::<(int, int)>::empty());
}

/// The bitmap index of an in-range cell.
spec fn bit_index(h: int, c: (int, int)) -> int {
    c.0 * h + c.1
}

proof fn lemma_bit_index_bounds(w: int, h: int, c: (int, int))
    requires
        w > 0,
        h > 0,
        in_range(w, h, c),
    ensures
        0 <= bit_index(h, c) < w * h,
{
    assert(0 <= c.0 * h + c.1 < w * h) by (nonlinear_arith)
        requires
            0 <= c.0 < w,
            0 <= c.1 < h,
    ;
}

proof fn lemma_bit_index_injective(h: int, a: (int, int), b: (int, int))
    requires
        h > 0,
        0 <= a.1 < h,
        0 <= b.1 < h,
        a != b,
    ensures
        bit_index(h, a) != bit_index(h, b),
{
    if a.0 == b.0 {
    } else {
        assert(a.0 * h + a.1 != b.0 * h + b.1) by (nonlinear_arith)
            requires
                h > 0,
                0 <= a.1 < h,
                0 <= b.1 < h,
                a.0 != b.0,
        ;
    }
}

/// The set of cells whose bit is set in the visited bitmap.
spec fn bits_set(bits: Seq<bool>, w: int, h: int) -> Set<(int, int)> {
    Set::new(|c: (int, int)| in_range(w, h, c) && bits[bit_index(h, c)])
}

/// Everything the search maintains between iterations.  `v` is the
/// visited set, `procd` the dequeued cells, `q` the pending queue.
spec fn bfs_inv(
    cells: Map<(int, int), PlayerId>,
    w: int,
    h: int,
    start: (int, int),
    heads: Map<PlayerId, Vector2>,
    own_id: PlayerId,
    bits: Seq<bool>,
    q: Seq<Vector2>,
    procd: Set<(int, int)>,
    fset: Set<(int, int)>,
    hset: Set<(int, int)>,
) -> bool {
    let v = bits_set(bits, w, h);
    &&& bits.len() == w * h
    &&& v.contains(start)
    &&& forall|i: int| 0 <= i < q.len() ==> v.contains((#[trigger] q[i])@)
    &&& forall|c: (int, int)| #[trigger] v.contains(c) ==> procd.contains(c) || exists|i: int|
        0 <= i < q.len() && (#[trigger] q[i])@ == c
    &&& forall|i: int, j: int| 0 <= i < j < q.len() ==> (#[trigger] q[i])@ != (#[trigger] q[j])@
    &&& forall|i: int| 0 <= i < q.len() ==> !procd.contains((#[trigger] q[i])@)
    &&& forall|c: (int, int)| #[trigger] procd.contains(c) ==> v.contains(c)
    &&& forall|a: (int, int), b: (int, int)|
        procd.contains(a) && empty_at(cells, a) && #[trigger] is_neighbor(w, h, a, b)
            ==> v.contains(b)
    &&& forall|c: (int, int)| #[trigger] v.contains(c) ==> reachable(cells, w, h, start, c)
    &&& forall|c: (int, int)| #[trigger] fset.contains(c) <==> procd.contains(c) && empty_at(cells, c)
    &&& forall|c: (int, int)| #[trigger] hset.contains(c) <==> procd.contains(c)
        && cells.dom().contains(c) && cells[c] != PLAYER_ID_NONE && head_at(heads, c)
        && c != heads[own_id]@
    &&& procd.finite()
    &&& fset.finite()
    &&& hset.finite()
}

/// Territory evaluation by bounded breadth-first search.
///
/// Returns the number of empty cells reachable from `start_pos` and
/// the number of distinct cells on the region's border that hold
/// another participant's head.  When the start cell itself is
/// occupied, no expansion happens and only the start cell's own head
/// check can contribute.
pub fn flood_fill(game_state: &GameData, start_pos: Vector2) -> (r: (u32, u8))
    requires
        game_state.wf(),
        game_state.grid_meta.width > 0,
        game_state.grid_meta.height > 0,
        start_pos.x < game_state.grid_meta.width,
        start_pos.y < game_state.grid_meta.height,
        game_state.heads().contains_key(game_state.own_id) || game_state.heads()
            == Map::<PlayerId, Vector2>::empty(),
    ensures
        r.0 == territory(
            game_state.cells(),
            game_state.grid_meta.width as int,
            game_state.grid_meta.height as int,
            start_pos@,
        ).len(),
        r.1 == border_heads(
            game_state.cells(),
            game_state.grid_meta.width as int,
            game_state.grid_meta.height as int,
            game_state.heads(),
            game_state.own_id,
            start_pos@,
        ).len(),
{
    let w = game_state.grid_meta.width;
    let h = game_state.grid_meta.height;
    let ghost cells = game_state.cells();
    let ghost hm = game_state.heads();
    let ghost own = game_state.own_id;
    let ghost s = start_pos@;
    let ghost wi = w as int;
    let ghost hi = h as int;

    proof {
        assert((w as usize) * (h as usize) == wi * hi) by (nonlinear_arith)
            requires
                wi == w as int,
                hi == h as int,
                w as usize == wi,
                h as usize == hi,
        ;
        assert(wi * hi <= 65025) by (nonlinear_arith)
            requires
                0 < wi <= 255,
                0 < hi <= 255,
        ;
    }
    let total: usize = (w as usize) * (h as usize);
    let mut already_checked: Vec<bool> = Vec::new();
    while already_checked.len() < total
        invariant
            already_checked.len() <= total,
            forall|i: int| 0 <= i < already_checked.len() ==> !(#[trigger] already_checked[i]),
        decreases total - already_checked.len(),
    {
        already_checked.push(false);
    }

    proof {
        lemma_bit_index_bounds(wi, hi, s);
        assert((start_pos.x as usize) * (h as usize) + (start_pos.y as usize) == bit_index(hi, s))
            by (nonlinear_arith)
            requires
                hi == h as int,
                h as usize == hi,
                start_pos.x as usize == s.0,
                start_pos.y as usize == s.1,
                s == (start_pos.x as int, start_pos.y as int),
        ;
    }
    let start_index: usize = (start_pos.x as usize) * (h as usize) + (start_pos.y as usize);
    already_checked.set(start_index, true);
    let mut queue: VecDeque<Vector2> = VecDeque::new();
    queue.push_back(start_pos);

    let mut num_fields: u32 = 0;
    let mut player_count: u8 = 0;
    let ghost mut procd: Set<(int, int)> = Set::empty();
    let ghost mut fset: Set<(int, int)> = Set::empty();
    let ghost mut hset: Set<(int, int)> = Set::empty();

    proof {
        assert forall|c: (int, int)| #[trigger] bits_set(already_checked@, wi, hi).contains(c)
            implies c == s by {
            lemma_bit_index_bounds(wi, hi, c);
            if c != s {
                lemma_bit_index_injective(hi, c, s);
            }
        }
        assert(bits_set(already_checked@, wi, hi).contains(s));
        assert(reach_n(cells, wi, hi, s, s, 0));
        assert(queue@ =~= Seq::<Vector2>::empty().push(start_pos));
        assert(queue@[0] == start_pos && queue@.len() == 1);
        let v0 = bits_set(already_checked@, wi, hi);
        assert(already_checked@.len() == wi * hi);
        assert(forall|i: int| 0 <= i < queue@.len() ==> v0.contains((#[trigger] queue@[i])@));
        assert forall|c: (int, int)| #[trigger] v0.contains(c) implies procd.contains(c)
            || exists|i: int| 0 <= i < queue@.len() && (#[trigger] queue@[i])@ == c by {
            assert(c == s);
            assert((queue@[0])@ == c);
        }
        assert(bfs_inv(cells, wi, hi, s, hm, own, already_checked@, queue@, procd, fset, hset));
    }

    while queue.len() > 0
        invariant
            game_state.wf(),
            w == game_state.grid_meta.width,
            h == game_state.grid_meta.height,
            wi == w as int,
            hi == h as int,
            w > 0,
            h > 0,
            cells == game_state.cells(),
            hm == game_state.heads(),
            own == game_state.own_id,
            hm.contains_key(own) || hm == Map::<PlayerId, Vector2>::empty(),
            in_range(wi, hi, s),
            bfs_inv(cells, wi, hi, s, hm, own, already_checked@, queue@, procd, fset, hset),
            num_fields == fset.len(),
            player_count == hset.len(),
        decreases cell_domain(wi, hi).len() - procd.len(),
    {
        let ghost old_q = queue@;
        let ghost old_procd = procd;
        let n = queue.pop_front().unwrap();
        proof {
            assert(n == old_q[0]);
            assert(queue@ == old_q.subrange(1, old_q.len() as int));
            assert(!procd.contains(n@));
            procd = procd.insert(n@);
            assert forall|c: (int, int)| #[trigger] bits_set(already_checked@, wi, hi).contains(c)
                implies procd.contains(c) || exists|i: int|
                0 <= i < queue@.len() && (#[trigger] queue@[i])@ == c by {
                if !procd.contains(c) {
                    let i = choose|i: int| 0 <= i < old_q.len() && (#[trigger] old_q[i])@ == c;
                    assert(i != 0);
                    assert(queue@[i - 1] == old_q[i]);
                }
            }
            // termination: the dequeued cells stay inside the grid
            assert forall|c: (int, int)| #[trigger] procd.contains(c) implies
                cell_domain(wi, hi).contains(c) by {}
            lemma_cell_domain_len(wi, hi);
            lemma_len_subset(procd, cell_domain(wi, hi));
            assert(old_procd.len() < procd.len());
        }
        if grid_value(game_state, n) == PLAYER_ID_NONE {
            proof {
                assert(!fset.contains(n@));
                fset = fset.insert(n@);
                assert(fset.subset_of(cell_domain(wi, hi)));
                lemma_cell_domain_len(wi, hi);
                lemma_len_subset(fset, cell_domain(wi, hi));
                assert(wi * hi <= 65025) by (nonlinear_arith)
                    requires
                        0 < wi <= 255,
                        0 < hi <= 255,
                ;
                assert(fset.len() <= 65025);
            }
            num_fields = num_fields + 1;
            let dirs = Direction::iterator();
            let mut di: usize = 0;
            while di < 4
                invariant
                    game_state.wf(),
                    w == game_state.grid_meta.width,
                    h == game_state.grid_meta.height,
                    wi == w as int,
                    hi == h as int,
                    w > 0,
                    h > 0,
                    cells == game_state.cells(),
                    hm == game_state.heads(),
                    own == game_state.own_id,
                    hm.contains_key(own) || hm == Map::<PlayerId, Vector2>::empty(),
                    in_range(wi, hi, s),
                    di <= 4,
                    dirs@ == seq![
                        Direction::UP,
                        Direction::DOWN,
                        Direction::LEFT,
                        Direction::RIGHT,
                    ],
                    in_range(wi, hi, n@),
                    procd.contains(n@),
                    empty_at(cells, n@),
                    reachable(cells, wi, hi, s, n@),
                    forall|a: (int, int), b: (int, int)|
                        old_procd.contains(a) && empty_at(cells, a)
                            && #[trigger] is_neighbor(wi, hi, a, b)
                            ==> bits_set(already_checked@, wi, hi).contains(b),
                    forall|k: int| 0 <= k < di ==> bits_set(already_checked@, wi, hi).contains(
                        spec_step(#[trigger] dirs@[k], n@, wi, hi),
                    ),
                    bits_set(already_checked@, wi, hi).contains(s),
                    already_checked@.len() == wi * hi,
                    forall|i: int| 0 <= i < queue@.len() ==> bits_set(
                        already_checked@,
                        wi,
                        hi,
                    ).contains((#[trigger] queue@[i])@),
                    forall|c: (int, int)| #[trigger] bits_set(already_checked@, wi, hi).contains(c)
                        ==> procd.contains(c) || exists|i: int|
                        0 <= i < queue@.len() && (#[trigger] queue@[i])@ == c,
                    forall|i: int, j: int| 0 <= i < j < queue@.len() ==> (#[trigger] queue@[i])@
                        != (#[trigger] queue@[j])@,
                    forall|i: int| 0 <= i < queue@.len() ==> !procd.contains(
                        (#[trigger] queue@[i])@,
                    ),
                    forall|c: (int, int)| #[trigger] procd.contains(c) ==> bits_set(
                        already_checked@,
                        wi,
                        hi,
                    ).contains(c),
                    forall|c: (int, int)| #[trigger] bits_set(already_checked@, wi, hi).contains(c)
                        ==> reachable(cells, wi, hi, s, c),
                decreases 4 - di,
            {
                let dir = dirs[di];
                let new_pos = dir.get_relative_width_height(n, w, h);
                proof {
                    lemma_bit_index_bounds(wi, hi, new_pos@);
                    assert((new_pos.x as usize) * (h as usize) <= 65025) by (nonlinear_arith)
                        requires
                            new_pos.x as usize <= 255,
                            h as usize <= 255,
                    ;
                    assert((new_pos.x as usize) * (h as usize) + (new_pos.y as usize)
                        == bit_index(hi, new_pos@)) by (nonlinear_arith)
                        requires
                            hi == h as int,
                            h as usize == hi,
                            new_pos.x as usize == new_pos@.0,
                            new_pos.y as usize == new_pos@.1,
                            new_pos@ == (new_pos.x as int, new_pos.y as int),
                    ;
                }
                let new_index: usize = (new_pos.x as usize) * (h as usize) + (new_pos.y as usize);
                if !*already_checked.get(new_index).unwrap() {
                    let ghost old_bits = already_checked@;
                    already_checked.set(new_index, true);
                    proof {
                        assert forall|c: (int, int)|
                            #[trigger] bits_set(already_checked@, wi, hi).contains(c)
                            implies c == new_pos@ || bits_set(old_bits, wi, hi).contains(c) by {
                            lemma_bit_index_bounds(wi, hi, c);
                            if c != new_pos@ {
                                lemma_bit_index_injective(hi, c, new_pos@);
                            }
                        }
                        assert(bits_set(already_checked@, wi, hi).contains(new_pos@));
                        assert forall|c: (int, int)| #[trigger] bits_set(old_bits, wi, hi).contains(c)
                            implies bits_set(already_checked@, wi, hi).contains(c) by {
                            lemma_bit_index_bounds(wi, hi, c);
                            if c != new_pos@ {
                                lemma_bit_index_injective(hi, c, new_pos@);
                            }
                        }
                        assert(bits_set(already_checked@, wi, hi) =~= bits_set(
                            old_bits,
                            wi,
                            hi,
                        ).insert(new_pos@));
                        assert(is_neighbor(wi, hi, n@, new_pos@));
                        lemma_reach_step(cells, wi, hi, s, n@, new_pos@);
                    }
                    let ghost old_q2 = queue@;
                    queue.push_back(new_pos);
                    proof {
                        assert(queue@[queue@.len() - 1] == new_pos);
                        assert forall|c: (int, int)|
                            #[trigger] bits_set(already_checked@, wi, hi).contains(c)
                            implies procd.contains(c) || exists|i: int|
                            0 <= i < queue@.len() && (#[trigger] queue@[i])@ == c by {
                            if c == new_pos@ {
                                assert((queue@[queue@.len() - 1])@ == c);
                            } else {
                                assert(bits_set(old_bits, wi, hi).contains(c));
                                if !procd.contains(c) {
                                    let i = choose|i: int|
                                        0 <= i < old_q2.len() && (#[trigger] old_q2[i])@ == c;
                                    assert((queue@[i])@ == c);
                                }
                            }
                        }
                    }
                } else {
                    proof {
                        assert(bits_set(already_checked@, wi, hi).contains(new_pos@));
                    }
                }
                di = di + 1;
            }
            proof {
                assert forall|a: (int, int), b: (int, int)|
                    procd.contains(a) && empty_at(cells, a) && #[trigger] is_neighbor(wi, hi, a, b)
                    implies bits_set(already_checked@, wi, hi).contains(b) by {
                    if a == n@ {
                        assert(dirs@[0] == Direction::UP && dirs@[1] == Direction::DOWN
                            && dirs@[2] == Direction::LEFT && dirs@[3] == Direction::RIGHT);
                    }
                }
                assert(bfs_inv(
                    cells, wi, hi, s, hm, own, already_checked@, queue@, procd, fset, hset,
                ));
            }
        } else {
            // the cell is blocked: it may still carry an opponent's head
            let own_key = game_state.own_id;
            let mut found = false;
            let mut pid: u16 = 0;
            while pid < 256
                invariant
                    hm == game_state.heads(),
                    pid <= 256,
                    found <==> exists|p: PlayerId| p < pid && #[trigger] hm.dom().contains(p)
                        && hm[p]@ == n@,
                decreases 256 - pid,
            {
                let key: u8 = pid as u8;
                match game_state.player_heads.get(&key) {
                    Some(hp) => {
                        if hp.x == n.x && hp.y == n.y {
                            found = true;
                            proof {
                                assert(hm.dom().contains(key) && hm[key]@ == n@);
                            }
                        }
                    },
                    None => {},
                }
                pid = pid + 1;
            }
            proof {
                if found {
                    let p = choose|p: PlayerId| p < 256 && #[trigger] hm.dom().contains(p)
                        && hm[p]@ == n@;
                    assert(head_at(hm, n@));
                }
                if head_at(hm, n@) {
                    let p = choose|p: PlayerId| #[trigger] hm.dom().contains(p) && hm[p]@ == n@;
                    assert(p < 256 && hm.dom().contains(p) && hm[p]@ == n@);
                }
            }
            if found {
                proof {
                    let p = choose|p: PlayerId| #[trigger] hm.dom().contains(p) && hm[p]@ == n@;
                    assert(hm.dom().contains(p));
                    assert(hm != Map::<PlayerId, Vector2>::empty());
                    assert(hm.contains_key(own));
                }
                let own_pos = *game_state.player_heads.get(&own_key).unwrap();
                if !(own_pos.x == n.x && own_pos.y == n.y) {
                    proof {
                        assert(!hset.contains(n@));
                        let hset2 = hset.insert(n@);
                        assert forall|c: (int, int)| #[trigger] hset2.contains(c) implies
                            head_at(hm, c) && c != hm[own]@ by {}
                        lemma_head_count_bound(hset2, hm, own);
                        hset = hset2;
                    }
                    player_count = player_count + 1;
                } else {
                    proof {
                        assert(!hset.contains(n@));
                        assert(own_pos == hm[own]);
                        assert(n@ == hm[own]@);
                    }
                }
            } else {
                proof {
                    assert(!hset.contains(n@));
                }
            }
            proof {
                assert(bfs_inv(
                    cells, wi, hi, s, hm, own, already_checked@, queue@, procd, fset, hset,
                ));
            }
        }
    }

    proof {
        let v = bits_set(already_checked@, wi, hi);
        assert forall|c: (int, int)| #[trigger] v.contains(c) implies procd.contains(c) by {}
        assert forall|c: (int, int)| reachable(cells, wi, hi, s, c) implies procd.contains(c) by {
            let n = choose|n: nat| reach_n(cells, wi, hi, s, c, n);
            lemma_reach_n_closed(cells, wi, hi, s, v, c, n);
        }
        assert(fset =~= territory(cells, wi, hi, s));
        assert(hset =~= border_heads(cells, wi, hi, hm, own, s));
    }
    (num_fields, player_count)
}

/// The occupancy value at an in-range coordinate.
fn grid_value(game_state: &GameData, pos: Vector2) -> (r: PlayerId)
    requires
        game_state.wf(),
        pos.x < game_state.grid_meta.width,
        pos.y < game_state.grid_meta.height,
    ensures
        game_state.cells().dom().contains(pos@),
        r == game_state.cells()[pos@],
{
    crate::grid_store::grid_get(&game_state.grid, pos.x as usize, pos.y as usize)
}

} // verus!
