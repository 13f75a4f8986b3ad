//! Measures on a raw grid and the best-first search for a solution.

use vstd::prelude::*;
use std::collections::HashMap;
use crate::puzzle::grid::{
    Grid, grid_of, covers_square, is_square, tiles_in_range, span, manhattan_distance,
    rows_distance, row_distance, solved, fingerprint, lemma_partial_distance_bounded,
};
use crate::puzzle::board::{
    Board, BoardView, well_formed, estimate, successor, successors, legal_slide, views,
    lemma_successor_well_formed, lemma_successors_are_legal_slides, lemma_gap_unique,
    lemma_well_formed_countable,
};
use crate::puzzle::counting::{space_size, lemma_distinct_grids_bounded};
use crate::puzzle::frontier::{Node, heap_ok, push, pop};

verus! {

/// `|a - b|` on machine integers.
pub fn gap_between(a: usize, b: usize) -> (d: usize)
    ensures
        d == span(a as int, b as int),
{
    if a <= b {
        b - a
    } else {
        a - b
    }
}

/// The Manhattan distance of the square that the first `b.len()` columns
/// of `b` form.
pub fn manhattan(b: &Vec<Vec<usize>>) -> (diff: usize)
    requires
        covers_square(grid_of(b@)),
        manhattan_distance(grid_of(b@)) <= usize::MAX,
    ensures
        diff == manhattan_distance(grid_of(b@)),
{
    let n = b.len();
    let ghost g = grid_of(b@);
    let mut diff: usize = 0;
    let mut i: usize = 0;
    while i < n
        invariant
            n == b@.len(),
            g == grid_of(b@),
            covers_square(g),
            manhattan_distance(g) <= usize::MAX,
            0 <= i <= n,
            diff == rows_distance(g, i as int),
        decreases n - i,
    {
        let mut j: usize = 0;
        let ghost before = diff;
        while j < n
            invariant
                n == b@.len(),
                g == grid_of(b@),
                covers_square(g),
                manhattan_distance(g) <= usize::MAX,
                0 <= i < n,
                0 <= j <= n,
                before == rows_distance(g, i as int),
                diff == before + row_distance(g, i as int, j as int),
            decreases n - j,
        {
            assert(g[i as int].len() >= n);
            let x = b[i][j];
            assert(x == g[i as int][j as int]);
            proof {
                lemma_partial_distance_bounded(g, i as int, j as int + 1);
            }
            if x != 0 {
                let row = (x - 1) / n;
                let col = (x - 1) % n;
                diff = diff + (gap_between(i, row) + gap_between(j, col));
            }
            j = j + 1;
        }
        i = i + 1;
    }
    diff
}

/// Whether cell `(r, c)` comes before cell `(i, j)` in reading order.
pub open spec fn reads_before(r: int, c: int, i: int, j: int) -> bool {
    r < i || (r == i && c < j)
}

/// Whether the square part of `g` holds a gap anywhere.
pub open spec fn has_gap(g: Grid) -> bool {
    exists|i: int, j: int| 0 <= i < g.len() && 0 <= j < g.len() && #[trigger] g[i][j] == 0
}

/// Whether `(i, j)` is the first cell, in reading order, that holds a gap.
pub open spec fn is_first_gap(g: Grid, i: int, j: int) -> bool {
    &&& 0 <= i < g.len()
    &&& 0 <= j < g.len()
    &&& g[i][j] == 0
    &&& forall|r: int, c: int|
        0 <= r < g.len() && 0 <= c < g.len() && reads_before(r, c, i, j) ==> #[trigger] g[r][c]
            != 0
}

/// The first gap of the grid in reading order, or `(0, 0)` where it has none.
pub fn find_gap(b: &Vec<Vec<usize>>) -> (at: (usize, usize))
    requires
        covers_square(grid_of(b@)),
    ensures
        has_gap(grid_of(b@)) ==> is_first_gap(grid_of(b@), at.0 as int, at.1 as int),
        !has_gap(grid_of(b@)) ==> at == (0usize, 0usize),
{
    let n = b.len();
    let ghost g = grid_of(b@);
    let mut i: usize = 0;
    while i < n
        invariant
            n == b@.len(),
            g == grid_of(b@),
            covers_square(g),
            0 <= i <= n,
            forall|r: int, c: int| 0 <= r < i && 0 <= c < n ==> #[trigger] g[r][c] != 0,
        decreases n - i,
    {
        let mut j: usize = 0;
        while j < n
            invariant
                n == b@.len(),
                g == grid_of(b@),
                covers_square(g),
                0 <= i < n,
                0 <= j <= n,
                forall|r: int, c: int| 0 <= r < i && 0 <= c < n ==> #[trigger] g[r][c] != 0,
                forall|c: int| 0 <= c < j ==> #[trigger] g[i as int][c] != 0,
            decreases n - j,
        {
            assert(g[i as int].len() >= n);
            if b[i][j] == 0 {
                assert(g[i as int][j as int] == 0);
                return (i, j);
            }
            j = j + 1;
        }
        i = i + 1;
    }
    (0, 0)
}

/// Whether one legal slide leads from `a` to `b`.
pub open spec fn steps_to(a: BoardView, b: BoardView) -> bool {
    exists|to: (int, int)| legal_slide(a, to) && b == #[trigger] successor(a, to)
}

/// A solution of `start`: positions that begin with it, each one legal
/// slide after the one before, the last of them solved.
pub open spec fn is_solution(start: BoardView, path: Seq<BoardView>) -> bool {
    &&& path.len() > 0
    &&& path[0] == start
    &&& forall|k: int| 0 <= k < path.len() - 1 ==> steps_to(#[trigger] path[k], path[k + 1])
    &&& solved(path.last().grid)
}

/// Whether any run of legal slides solves `start`.
pub open spec fn solvable(start: BoardView) -> bool {
    exists|path: Seq<BoardView>| is_solution(start, path)
}

/// Along a solution of a well-formed position every position is well
/// formed, and each has one move more than the one before.
pub proof fn lemma_solution_well_formed(start: BoardView, path: Seq<BoardView>, k: int)
    requires
        well_formed(start),
        is_solution(start, path),
        0 <= k < path.len(),
    ensures
        well_formed(path[k]),
        path[k].moves == start.moves + k,
        path[k].grid.len() == start.grid.len(),
    decreases k,
{
    if k > 0 {
        lemma_solution_well_formed(start, path, k - 1);
        let prev = path[k - 1];
        assert(steps_to(prev, path[k - 1 + 1]));
        let to = choose|to: (int, int)| legal_slide(prev, to) && path[k] == successor(prev, to);
        lemma_successor_well_formed(prev, to);
    }
}

/// Whether a list of nodes holds a board with grid `g`.
spec fn in_list(nodes: Seq<Node>, g: Grid) -> bool {
    exists|k: int| 0 <= k < nodes.len() && (#[trigger] nodes[k]).board@.grid == g
}

/// The closed board at `k`: well formed, of the start's side, not solved,
/// no more moves from the start than its place, and, unless it is the
/// start, one slide away from an earlier closed board.
spec fn closed_entry_ok(start: BoardView, closed: Seq<Node>, k: int) -> bool {
    &&& well_formed(closed[k].board@)
    &&& closed[k].board@.grid.len() == start.grid.len()
    &&& closed[k].board@.moves <= k
    &&& !solved(closed[k].board@.grid)
    &&& k > 0 ==> closed[k].parent < k && steps_to(
        closed[closed[k].parent as int].board@,
        closed[k].board@,
    )
}

spec fn distinct_at(closed: Seq<Node>, k: int, l: int) -> bool {
    closed[k].board@.grid != closed[l].board@.grid
}

/// The closed list: the boards already expanded, the start first. None of
/// them is solved, no grid is there twice, and each but the start was
/// reached by one slide from an earlier one.
spec fn closed_ok(start: BoardView, closed: Seq<Node>) -> bool {
    &&& closed.len() >= 1
    &&& closed[0].board@ == start
    &&& forall|k: int| 0 <= k < closed.len() ==> #[trigger] closed_entry_ok(start, closed, k)
    &&& forall|k: int, l: int| 0 <= k < l < closed.len() ==> #[trigger] distinct_at(closed, k, l)
}

/// A board of the frontier: one slide away from a closed board, and one
/// move further from the start than that board's place allows.
spec fn entry_ok(start: BoardView, closed: Seq<Node>, e: Node) -> bool {
    &&& well_formed(e.board@)
    &&& e.board@.grid.len() == start.grid.len()
    &&& e.parent < closed.len()
    &&& e.board@.moves <= e.parent + 1
    &&& steps_to(closed[e.parent as int].board@, e.board@)
}

/// The frontier holds such boards only.
spec fn open_ok(start: BoardView, closed: Seq<Node>, open: Seq<Node>) -> bool {
    forall|k: int| 0 <= k < open.len() ==> entry_ok(start, closed, #[trigger] open[k])
}

/// Every position one slide away from the closed board at `k` is on one of
/// the two lists.
spec fn covered_at(closed: Seq<Node>, open: Seq<Node>, k: int) -> bool {
    forall|to: (int, int)| #[trigger]
        legal_slide(closed[k].board@, to) ==> in_list(closed, successor(closed[k].board@, to).grid)
            || in_list(open, successor(closed[k].board@, to).grid)
}

/// The same of the first `upto` closed boards.
spec fn covered(closed: Seq<Node>, open: Seq<Node>, upto: int) -> bool {
    forall|k: int| 0 <= k < upto ==> #[trigger] covered_at(closed, open, k)
}

/// The grids of a list of nodes.
spec fn grids_of(nodes: Seq<Node>) -> Seq<Grid> {
    Seq::new(nodes.len(), |k: int| nodes[k].board@.grid)
}

/// A closed list is no longer than the space of its grids.
proof fn lemma_closed_bounded(start: BoardView, closed: Seq<Node>)
    requires
        closed_ok(start, closed),
    ensures
        closed.len() <= space_size(start.grid.len()),
{
    let grids = grids_of(closed);
    assert forall|k: int| 0 <= k < grids.len() implies (#[trigger] grids[k]).len()
        == start.grid.len() && is_square(grids[k]) && tiles_in_range(grids[k]) by {
        assert(closed_entry_ok(start, closed, k));
    }
    assert forall|k: int, l: int| 0 <= k < l < grids.len() implies grids[k] != grids[l] by {
        assert(distinct_at(closed, k, l));
    }
    assert(closed_entry_ok(start, closed, 0));
    lemma_distinct_grids_bounded(grids, start.grid.len());
}

/// With the frontier empty, every position of a walk from the start is on
/// the closed list.
proof fn lemma_walk_stays_closed(start: BoardView, closed: Seq<Node>, path: Seq<BoardView>, k: int)
    requires
        closed_ok(start, closed),
        covered(closed, Seq::<Node>::empty(), closed.len() as int),
        path.len() > 0,
        path[0] == start,
        forall|j: int| 0 <= j < path.len() - 1 ==> steps_to(#[trigger] path[j], path[j + 1]),
        0 <= k < path.len(),
    ensures
        well_formed(path[k]),
        in_list(closed, path[k].grid),
    decreases k,
{
    if k == 0 {
        assert(closed[0].board@.grid == path[0].grid);
        assert(closed_entry_ok(start, closed, 0));
    } else {
        lemma_walk_stays_closed(start, closed, path, k - 1);
        let prev = path[k - 1];
        assert(steps_to(prev, path[k - 1 + 1]));
        let to = choose|to: (int, int)| legal_slide(prev, to) && path[k] == successor(prev, to);
        lemma_successor_well_formed(prev, to);
        let c = choose|c: int| 0 <= c < closed.len() && (#[trigger] closed[c]).board@.grid
            == prev.grid;
        assert(closed_entry_ok(start, closed, c));
        lemma_gap_unique(closed[c].board@, prev);
        assert(covered_at(closed, Seq::<Node>::empty(), c));
        assert(legal_slide(closed[c].board@, to));
        assert(successor(closed[c].board@, to).grid == path[k].grid);
        assert(!in_list(Seq::<Node>::empty(), path[k].grid));
    }
}

/// With the frontier empty, the start has no solution.
proof fn lemma_exhausted(start: BoardView, closed: Seq<Node>)
    requires
        closed_ok(start, closed),
        covered(closed, Seq::<Node>::empty(), closed.len() as int),
    ensures
        !solvable(start),
{
    if solvable(start) {
        let path = choose|path: Seq<BoardView>| is_solution(start, path);
        lemma_walk_stays_closed(start, closed, path, path.len() - 1);
        let c = choose|c: int| 0 <= c < closed.len() && (#[trigger] closed[c]).board@.grid
            == path.last().grid;
        assert(closed_entry_ok(start, closed, c));
    }
}

/// The places on the closed list filed under one fingerprint.
spec fn bucket(index: Map<u64, Vec<usize>>, key: u64) -> Seq<usize> {
    if index.dom().contains(key) {
        index[key]@
    } else {
        Seq::empty()
    }
}

/// Whether the closed board at `p` is filed under its grid's fingerprint.
spec fn filed(index: Map<u64, Vec<usize>>, closed: Seq<Node>, p: int) -> bool {
    bucket(index, fingerprint(closed[p].board@.grid) as u64).contains(p as usize)
}

/// Whether place `s` of the bucket of `key` names a closed board whose
/// grid has that fingerprint.
spec fn slot_ok(index: Map<u64, Vec<usize>>, closed: Seq<Node>, key: u64, s: int) -> bool {
    let p = bucket(index, key)[s];
    p < closed.len() && fingerprint(closed[p as int].board@.grid) == key
}

/// The index of the closed list: every closed board is filed under the
/// fingerprint of its grid, and nothing else is filed.
spec fn index_ok(index: Map<u64, Vec<usize>>, closed: Seq<Node>) -> bool {
    &&& forall|p: int| 0 <= p < closed.len() ==> #[trigger] filed(index, closed, p)
    &&& forall|key: u64, s: int|
        0 <= s < bucket(index, key).len() ==> #[trigger] slot_ok(index, closed, key, s)
}

/// Whether the closed list holds a board with the grid of `board`, looked
/// up by the grid's fingerprint.
fn is_listed(closed: &Vec<Node>, index: &HashMap<u64, Vec<usize>>, board: &Board) -> (listed: bool)
    requires
        index_ok(index@, closed@),
    ensures
        listed == in_list(closed@, board@.grid),
{
    broadcast use vstd::std_specs::hash::group_hash_axioms;

    let key = board.fingerprint();
    proof {
        crate::puzzle::grid::lemma_rows_print_bounded(board@.grid, board@.grid.len() as int);
    }
    match index.get(&key) {
        Some(places) => {
            assert(places@ == bucket(index@, key));
            let mut s: usize = 0;
            while s < places.len()
                invariant
                    index_ok(index@, closed@),
                    places@ == bucket(index@, key),
                    key == fingerprint(board@.grid),
                    0 <= s <= places@.len(),
                    forall|t: int|
                        0 <= t < s ==> (#[trigger] places@[t]) < closed@.len()
                            && closed@[places@[t] as int].board@.grid != board@.grid,
                decreases places@.len() - s,
            {
                assert(slot_ok(index@, closed@, key, s as int));
                let p = places[s];
                if closed[p].board.same_tiles(board) {
                    return true;
                }
                s = s + 1;
            }
            assert(!in_list(closed@, board@.grid)) by {
                if in_list(closed@, board@.grid) {
                    let w = choose|w: int|
                        0 <= w < closed@.len() && (#[trigger] closed@[w]).board@.grid == board@.grid;
                    assert(closed@.len() == closed.len());
                    assert(filed(index@, closed@, w));
                    assert(places@.contains(w as usize));
                    let t = choose|t: int| 0 <= t < places@.len() && places@[t] == w as usize;
                    assert(closed@[places@[t] as int].board@.grid != board@.grid);
                }
            }
            false
        },
        None => {
            assert(!in_list(closed@, board@.grid)) by {
                if in_list(closed@, board@.grid) {
                    let w = choose|w: int|
                        0 <= w < closed@.len() && (#[trigger] closed@[w]).board@.grid == board@.grid;
                    assert(filed(index@, closed@, w));
                }
            }
            false
        },
    }
}

/// A list that holds every board of another holds every grid of it.
proof fn lemma_in_list_kept(fewer: Seq<Node>, more: Seq<Node>, g: Grid)
    requires
        forall|e: Node| #[trigger] fewer.contains(e) ==> more.contains(e),
        in_list(fewer, g),
    ensures
        in_list(more, g),
{
    let w = choose|w: int| 0 <= w < fewer.len() && (#[trigger] fewer[w]).board@.grid == g;
    assert(fewer.contains(fewer[w]));
    let v = choose|v: int| 0 <= v < more.len() && more[v] == fewer[w];
    assert(more[v].board@.grid == g);
}

/// A frontier is in order if each board that it holds is.
proof fn lemma_open_ok_by_members(start: BoardView, closed: Seq<Node>, open: Seq<Node>)
    requires
        forall|e: Node| #[trigger] open.contains(e) ==> entry_ok(start, closed, e),
    ensures
        open_ok(start, closed, open),
{
    assert forall|k: int| 0 <= k < open.len() implies entry_ok(start, closed, #[trigger] open[k]) by {
        assert(open.contains(open[k]));
    }
}

/// Each board that a frontier in order holds is in order.
proof fn lemma_members_ok(start: BoardView, closed: Seq<Node>, open: Seq<Node>)
    requires
        open_ok(start, closed, open),
    ensures
        forall|e: Node| #[trigger] open.contains(e) ==> entry_ok(start, closed, e),
{
    assert forall|e: Node| #[trigger] open.contains(e) implies entry_ok(start, closed, e) by {
        let w = choose|w: int| 0 <= w < open.len() && open[w] == e;
        assert(entry_ok(start, closed, open[w]));
    }
}

/// Puts on the frontier every board one slide away from the last closed
/// board whose grid is not closed yet.
fn expand(
    closed: &Vec<Node>,
    index: &HashMap<u64, Vec<usize>>,
    open: &mut Vec<Node>,
    Ghost(start): Ghost<BoardView>,
)
    requires
        closed_ok(start, closed@),
        index_ok(index@, closed@),
        open_ok(start, closed@, old(open)@),
        heap_ok(old(open)@),
    ensures
        open_ok(start, closed@, final(open)@),
        heap_ok(final(open)@),
        forall|e: Node| #[trigger] old(open)@.contains(e) ==> final(open)@.contains(e),
        covered_at(closed@, final(open)@, closed@.len() - 1),
{
    let at = closed.len() - 1;
    let ghost from = closed@[at as int].board@;
    assert(closed_entry_ok(start, closed@, at as int));
    let near = Board::nearby(&closed[at].board);
    proof {
        lemma_successors_are_legal_slides(from);
    }
    let mut k: usize = 0;
    while k < near.len()
        invariant
            index_ok(index@, closed@),
            open_ok(start, closed@, open@),
            at == closed@.len() - 1,
            from == closed@[at as int].board@,
            well_formed(from),
            from.grid.len() == start.grid.len(),
            from.moves <= at,
            views(near@) == successors(from),
            forall|j: int| 0 <= j < near@.len() ==> (#[trigger] near@[j]).wf(),
            0 <= k <= near@.len(),
            heap_ok(open@),
            forall|e: Node| #[trigger] old(open)@.contains(e) ==> open@.contains(e),
            forall|j: int|
                0 <= j < k ==> in_list(closed@, (#[trigger] successors(from)[j]).grid) || in_list(
                    open@,
                    successors(from)[j].grid,
                ),
            forall|j: int|
                0 <= j < successors(from).len() ==> exists|to: (int, int)|
                    legal_slide(from, to) && #[trigger] successors(from)[j] == successor(from, to),
        decreases near@.len() - k,
    {
        let ghost before = open@;
        assert(views(near@)[k as int] == near@[k as int]@);
        let ghost next = successors(from)[k as int];
        assert(near@[k as int]@ == next);
        if !is_listed(closed, index, &near[k]) {
            let board = near[k].clone();
            proof {
                let to = choose|to: (int, int)| legal_slide(from, to) && next == successor(from, to);
                lemma_successor_well_formed(from, to);
                assert(steps_to(from, next));
            }
            let node = Node { board, parent: at };
            push(open, node);
            proof {
                let w = choose|w: int| 0 <= w < open@.len() && open@[w] == node;
                assert(open@[w].board@.grid == next.grid);
                assert(in_list(open@, next.grid));
                lemma_members_ok(start, closed@, before);
                assert(entry_ok(start, closed@, node));
                lemma_open_ok_by_members(start, closed@, open@);
                assert forall|e: Node| #[trigger] old(open)@.contains(e) implies open@.contains(
                    e,
                ) by {
                    assert(before.contains(e));
                }
            }
        }
        assert forall|j: int| 0 <= j < k + 1 implies in_list(
            closed@,
            (#[trigger] successors(from)[j]).grid,
        ) || in_list(open@, successors(from)[j].grid) by {
            if j < k {
                let g = successors(from)[j].grid;
                if in_list(before, g) {
                    lemma_in_list_kept(before, open@, g);
                }
            }
        }
        k = k + 1;
    }
    assert forall|to: (int, int)| #[trigger] legal_slide(from, to) implies in_list(
        closed@,
        successor(from, to).grid,
    ) || in_list(open@, successor(from, to).grid) by {
        let j = choose|j: int|
            0 <= j < successors(from).len() && #[trigger] successors(from)[j] == successor(
                from,
                to,
            );
        assert(in_list(closed@, successors(from)[j].grid) || in_list(
            open@,
            successors(from)[j].grid,
        ));
    }
}

/// The way from the start to `last`, read off the closed list.
fn trace(closed: &Vec<Node>, last: Node, Ghost(start): Ghost<BoardView>) -> (path: Vec<Board>)
    requires
        closed_ok(start, closed@),
        last.parent < closed@.len(),
        steps_to(closed@[last.parent as int].board@, last.board@),
        solved(last.board@.grid),
    ensures
        is_solution(start, views(path@)),
{
    let ghost goal = last.board@;
    let mut back: Vec<Board> = Vec::new();
    let mut at = last.parent;
    back.push(last.board);
    loop
        invariant_except_break
            steps_to(closed@[at as int].board@, back@[back@.len() - 1]@),
        invariant
            closed_ok(start, closed@),
            at < closed@.len(),
            back@.len() >= 1,
            back@[0]@ == goal,
            forall|j: int|
                0 <= j < back@.len() - 1 ==> steps_to(back@[j + 1]@, (#[trigger] back@[j])@),
        ensures
            back@[back@.len() - 1]@ == start,
        decreases at,
    {
        let ghost before = back@;
        back.push(closed[at].board.clone());
        assert forall|j: int| 0 <= j < back@.len() - 1 implies steps_to(
            back@[j + 1]@,
            (#[trigger] back@[j])@,
        ) by {
            assert(back@[j] == before[j]);
            if j < before.len() - 1 {
                assert(back@[j + 1] == before[j + 1]);
            }
        }
        if at == 0 {
            break ;
        }
        assert(closed_entry_ok(start, closed@, at as int));
        at = closed[at].parent;
    }
    let ghost whole = views(back@);
    assert forall|j: int| 0 <= j < whole.len() - 1 implies steps_to(
        whole[j + 1],
        #[trigger] whole[j],
    ) by {
        assert(steps_to(back@[j + 1]@, back@[j]@));
    }
    let mut path: Vec<Board> = Vec::new();
    while back.len() > 0
        invariant
            whole.len() >= 1,
            back@.len() + path@.len() == whole.len(),
            forall|j: int| 0 <= j < back@.len() ==> (#[trigger] back@[j])@ == whole[j],
            forall|j: int|
                0 <= j < path@.len() ==> (#[trigger] path@[j])@ == whole[whole.len() - 1 - j],
        decreases back@.len(),
    {
        let ghost before = back@;
        let ghost done = path@;
        let board = back.pop().unwrap();
        path.push(board);
        assert forall|j: int| 0 <= j < back@.len() implies (#[trigger] back@[j])@ == whole[j] by {
            assert(back@[j] == before[j]);
        }
        assert forall|j: int| 0 <= j < path@.len() implies (#[trigger] path@[j])@ == whole[whole.len()
            - 1 - j] by {
            if j < done.len() {
                assert(path@[j] == done[j]);
            }
        }
    }
    proof {
        let p = views(path@);
        assert(p.len() == whole.len());
        assert forall|k: int| 0 <= k < p.len() - 1 implies steps_to(#[trigger] p[k], p[k + 1]) by {
            let j = whole.len() - 2 - k;
            assert(p[k] == path@[k]@);
            assert(p[k + 1] == path@[k + 1]@);
            assert(steps_to(whole[j + 1], whole[j]));
        }
        assert(p[0] == path@[0]@);
        assert(p.last() == path@[p.len() - 1]@);
    }
    path
}

/// A list that begins with another holds every grid of the other.
proof fn lemma_in_longer_list(short: Seq<Node>, long: Seq<Node>, g: Grid)
    requires
        short.len() <= long.len(),
        forall|k: int| 0 <= k < short.len() ==> long[k] == short[k],
        in_list(short, g),
    ensures
        in_list(long, g),
{
    let w = choose|w: int| 0 <= w < short.len() && (#[trigger] short[w]).board@.grid == g;
    assert(long[w].board@.grid == g);
}

/// Whether every grid on the first pair of lists is on the second pair.
spec fn keeps(c1: Seq<Node>, o1: Seq<Node>, c2: Seq<Node>, o2: Seq<Node>) -> bool {
    &&& forall|g: Grid| #[trigger] in_list(c1, g) ==> in_list(c2, g) || in_list(o2, g)
    &&& forall|g: Grid| #[trigger] in_list(o1, g) ==> in_list(c2, g) || in_list(o2, g)
}

/// What was covered stays covered while no grid leaves the lists.
proof fn lemma_covered_kept(
    c1: Seq<Node>,
    o1: Seq<Node>,
    c2: Seq<Node>,
    o2: Seq<Node>,
    upto: int,
)
    requires
        covered(c1, o1, upto),
        0 <= upto <= c1.len() <= c2.len(),
        forall|k: int| 0 <= k < c1.len() ==> c2[k] == c1[k],
        keeps(c1, o1, c2, o2),
    ensures
        covered(c2, o2, upto),
{
    assert forall|k: int| 0 <= k < upto implies #[trigger] covered_at(c2, o2, k) by {
        assert(covered_at(c1, o1, k));
        assert(c2[k] == c1[k]);
        assert forall|to: (int, int)| #[trigger] legal_slide(c2[k].board@, to) implies in_list(
            c2,
            successor(c2[k].board@, to).grid,
        ) || in_list(o2, successor(c2[k].board@, to).grid) by {
            let g = successor(c1[k].board@, to).grid;
            assert(legal_slide(c1[k].board@, to));
            assert(in_list(c1, g) || in_list(o1, g));
        }
    }
}

/// Takes the board with the least estimate off the frontier.
fn take_best(open: &mut Vec<Node>, Ghost(start): Ghost<BoardView>, Ghost(closed): Ghost<Seq<Node>>) -> (node: Node)
    requires
        old(open)@.len() > 0,
        open_ok(start, closed, old(open)@),
        heap_ok(old(open)@),
    ensures
        final(open)@.len() == old(open)@.len() - 1,
        open_ok(start, closed, final(open)@),
        heap_ok(final(open)@),
        entry_ok(start, closed, node),
        forall|k: int|
            0 <= k < old(open)@.len() ==> estimate(node.board@) <= estimate(
                (#[trigger] old(open)@[k]).board@,
            ),
        forall|g: Grid| #[trigger]
            in_list(old(open)@, g) ==> g == node.board@.grid || in_list(final(open)@, g),
{
    let ghost before = open@;
    let node = pop(open);
    proof {
        lemma_members_ok(start, closed, before);
        lemma_open_ok_by_members(start, closed, open@);
        assert forall|k: int| 0 <= k < before.len() implies estimate(node.board@) <= estimate(
            (#[trigger] before[k]).board@,
        ) by {
            assert(estimate(node.board@) <= crate::puzzle::frontier::key_at(before, k));
        }
        assert forall|g: Grid| #[trigger] in_list(before, g) implies g == node.board@.grid
            || in_list(open@, g) by {
            let w = choose|w: int| 0 <= w < before.len() && (#[trigger] before[w]).board@.grid == g;
            assert(before.contains(before[w]));
            if before[w] != node {
                let v = choose|v: int| 0 <= v < open@.len() && open@[v] == before[w];
                assert(open@[v].board@.grid == g);
            }
        }
    }
    node
}

/// Files the place `p`, at which `node` is about to be closed, under the
/// fingerprint of its grid.
fn file(
    index: &mut HashMap<u64, Vec<usize>>,
    key: u64,
    p: usize,
    Ghost(closed): Ghost<Seq<Node>>,
    Ghost(node): Ghost<Node>,
)
    requires
        index_ok(old(index)@, closed),
        p == closed.len(),
        key == fingerprint(node.board@.grid),
    ensures
        index_ok(final(index)@, closed.push(node)),
{
    broadcast use vstd::std_specs::hash::group_hash_axioms;

    let ghost before = index@;
    let ghost places_before = bucket(before, key);
    let mut places = match index.remove(&key) {
        Some(places) => places,
        None => Vec::new(),
    };
    assert(places@ == places_before);
    places.push(p);
    let ghost places_after = places@;
    index.insert(key, places);
    let ghost after = index@;
    let ghost longer = closed.push(node);
    assert(bucket(after, key) == places_after);
    assert forall|other: u64| other != key implies bucket(after, other) == bucket(
        before,
        other,
    ) by {}
    assert forall|q: int| 0 <= q < longer.len() implies #[trigger] filed(after, longer, q) by {
        if q < closed.len() {
            assert(filed(before, closed, q));
            assert(longer[q] == closed[q]);
            let k = fingerprint(closed[q].board@.grid) as u64;
            if k == key {
                let t = choose|t: int| 0 <= t < places_before.len() && places_before[t] == q as usize;
                assert(places_after[t] == q as usize);
            }
        } else {
            assert(longer[q] == node);
            assert(places_after[places_before.len() as int] == p);
        }
    }
    assert forall|k: u64, s: int| 0 <= s < bucket(after, k).len() implies #[trigger] slot_ok(
        after,
        longer,
        k,
        s,
    ) by {
        if k == key && s == places_before.len() {
            assert(longer[p as int] == node);
        } else {
            assert(slot_ok(before, closed, k, s));
            assert(bucket(after, k)[s] == bucket(before, k)[s]);
            assert(longer[bucket(before, k)[s] as int] == closed[bucket(before, k)[s] as int]);
        }
    }
}

/// Puts a board taken off the frontier on the closed list.
fn shelve(
    closed: &mut Vec<Node>,
    index: &mut HashMap<u64, Vec<usize>>,
    node: Node,
    Ghost(start): Ghost<BoardView>,
    Ghost(open): Ghost<Seq<Node>>,
)
    requires
        closed_ok(start, old(closed)@),
        index_ok(old(index)@, old(closed)@),
        open_ok(start, old(closed)@, open),
        entry_ok(start, old(closed)@, node),
        !in_list(old(closed)@, node.board@.grid),
        !solved(node.board@.grid),
    ensures
        final(closed)@ == old(closed)@.push(node),
        closed_ok(start, final(closed)@),
        index_ok(final(index)@, final(closed)@),
        open_ok(start, final(closed)@, open),
{
    let ghost before = closed@;
    file(index, node.board.fingerprint(), closed.len(), Ghost(before), Ghost(node));
    closed.push(node);
    assert forall|k: int| 0 <= k < closed@.len() implies #[trigger] closed_entry_ok(
        start,
        closed@,
        k,
    ) by {
        if k < before.len() {
            assert(closed_entry_ok(start, before, k));
            assert(closed@[k] == before[k]);
            if k > 0 {
                assert(closed@[before[k].parent as int] == before[before[k].parent as int]);
            }
        } else {
            assert(closed@[k] == node);
            assert(closed@[node.parent as int] == before[node.parent as int]);
        }
    }
    assert forall|k: int, l: int| 0 <= k < l < closed@.len() implies #[trigger] distinct_at(
        closed@,
        k,
        l,
    ) by {
        assert(closed@[k] == before[k]);
        if l < before.len() {
            assert(distinct_at(before, k, l));
            assert(closed@[l] == before[l]);
        }
    }
    assert forall|k: int| 0 <= k < open.len() implies entry_ok(start, closed@, #[trigger] open[k]) by {
        assert(entry_ok(start, before, open[k]));
        assert(closed@[open[k].parent as int] == before[open[k].parent as int]);
    }
}

/// Closes a board and puts its neighbours on the frontier.
fn close(
    closed: &mut Vec<Node>,
    index: &mut HashMap<u64, Vec<usize>>,
    open: &mut Vec<Node>,
    node: Node,
    Ghost(start): Ghost<BoardView>,
)
    requires
        closed_ok(start, old(closed)@),
        index_ok(old(index)@, old(closed)@),
        open_ok(start, old(closed)@, old(open)@),
        heap_ok(old(open)@),
        entry_ok(start, old(closed)@, node),
        !in_list(old(closed)@, node.board@.grid),
        !solved(node.board@.grid),
    ensures
        final(closed)@ == old(closed)@.push(node),
        closed_ok(start, final(closed)@),
        index_ok(final(index)@, final(closed)@),
        open_ok(start, final(closed)@, final(open)@),
        heap_ok(final(open)@),
        covered_at(final(closed)@, final(open)@, final(closed)@.len() - 1),
        forall|g: Grid| #[trigger] in_list(old(open)@, g) ==> in_list(final(open)@, g),
{
    let ghost before = open@;
    shelve(closed, index, node, Ghost(start), Ghost(before));
    expand(closed, index, open, Ghost(start));
    assert forall|g: Grid| #[trigger] in_list(before, g) implies in_list(open@, g) by {
        lemma_in_list_kept(before, open@, g);
    }
}

/// Searches for a solution of `board`, best estimate first.
///
/// The boards still to look at wait on a frontier; the one with the least
/// estimate is taken off, dropped if its grid was expanded before, returned
/// with the way that led to it if it is solved, and else expanded: it goes
/// on the closed list and the boards one slide away whose grids are not
/// closed go on the frontier.
///
/// Returns the boards from `board` to a solved one, each one slide after
/// the one before, or nothing where no run of slides solves `board`.
pub fn solve(board: Board) -> (path: Vec<Board>)
    requires
        board.wf(),
        board@.moves == 0,
    ensures
        path@.len() > 0 <==> solvable(board@),
        path@.len() > 0 ==> is_solution(board@, views(path@)),
{
    let ghost start = board@;
    proof {
        lemma_well_formed_countable(start);
    }
    if board.is_goal() {
        let mut path: Vec<Board> = Vec::new();
        path.push(board);
        assert(views(path@)[0] == start);
        assert(is_solution(start, views(path@)));
        return path;
    }
    let mut closed: Vec<Node> = Vec::new();
    let mut index: HashMap<u64, Vec<usize>> = HashMap::new();
    let mut open: Vec<Node> = Vec::new();
    let first = Node { board, parent: 0 };
    proof {
        assert(index_ok(index@, closed@)) by {
            broadcast use vstd::std_specs::hash::group_hash_axioms;

            assert forall|key: u64| bucket(index@, key).len() == 0 by {}
        }
    }
    file(&mut index, first.board.fingerprint(), 0, Ghost(closed@), Ghost(first));
    closed.push(first);
    assert(closed_ok(start, closed@)) by {
        assert(closed_entry_ok(start, closed@, 0));
    }
    expand(&closed, &index, &mut open, Ghost(start));
    while open.len() > 0
        invariant
            start == board@,
            closed_ok(start, closed@),
            index_ok(index@, closed@),
            open_ok(start, closed@, open@),
            heap_ok(open@),
            covered(closed@, open@, closed@.len() as int),
        decreases space_size(start.grid.len()) - closed@.len(), open@.len(),
    {
        let ghost closed_before = closed@;
        let ghost open_before = open@;
        proof {
            lemma_closed_bounded(start, closed@);
        }
        let node = take_best(&mut open, Ghost(start), Ghost(closed@));
        if is_listed(&closed, &index, &node.board) {
            proof {
                assert(keeps(closed_before, open_before, closed@, open@));
                lemma_covered_kept(
                    closed_before,
                    open_before,
                    closed@,
                    open@,
                    closed_before.len() as int,
                );
            }
        } else {
            proof {
                lemma_well_formed_countable(node.board@);
            }
            if node.board.is_goal() {
                return trace(&closed, node, Ghost(start));
            }
            let ghost taken = node.board@.grid;
            close(&mut closed, &mut index, &mut open, node, Ghost(start));
            proof {
                lemma_closed_bounded(start, closed@);
                assert(closed@[closed_before.len() as int].board@.grid == taken);
                assert(in_list(closed@, taken));
                assert forall|g: Grid| #[trigger] in_list(closed_before, g) implies in_list(
                    closed@,
                    g,
                ) by {
                    lemma_in_longer_list(closed_before, closed@, g);
                }
                assert(keeps(closed_before, open_before, closed@, open@));
                lemma_covered_kept(
                    closed_before,
                    open_before,
                    closed@,
                    open@,
                    closed_before.len() as int,
                );
                assert forall|k: int| 0 <= k < closed@.len() implies #[trigger] covered_at(
                    closed@,
                    open@,
                    k,
                ) by {
                }
            }
        }
    }
    proof {
        assert(open@ =~= Seq::<Node>::empty());
        lemma_exhausted(start, closed@);
    }
    Vec::new()
}

} // verus!
