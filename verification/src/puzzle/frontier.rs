//! The frontier of the search: the boards still to look at, kept as a
//! binary heap so that the one with the least estimate is at hand.

use vstd::prelude::*;
use crate::puzzle::board::{Board, estimate};

verus! {

/// A board of the search, with the place on the closed list of the board
/// it was reached from.
pub(crate) struct Node {
    pub(crate) board: Board,
    pub(crate) parent: usize,
}

/// The estimate of the board at place `k`.
pub(crate) open spec fn key_at(list: Seq<Node>, k: int) -> int {
    estimate(list[k].board@)
}

/// The place above `k` in the heap.
pub(crate) open spec fn up(k: int) -> int {
    (k - 1) / 2
}

/// Whether the board at `k` has no lesser estimate than the one above it.
pub(crate) open spec fn ordered_at(list: Seq<Node>, k: int) -> bool {
    key_at(list, up(k)) <= key_at(list, k)
}

/// The heap order: no board has a lesser estimate than the one above it.
pub(crate) open spec fn heap_ok(list: Seq<Node>) -> bool {
    forall|k: int| 1 <= k < list.len() ==> #[trigger] ordered_at(list, k)
}

/// Whether two lists hold the same boards.
pub(crate) open spec fn same_nodes(a: Seq<Node>, b: Seq<Node>) -> bool {
    &&& a.len() == b.len()
    &&& forall|e: Node| #[trigger] a.contains(e) ==> b.contains(e)
    &&& forall|e: Node| #[trigger] b.contains(e) ==> a.contains(e)
}

/// The list with the boards at `i` and `j` in each other's place.
pub(crate) open spec fn swapped(list: Seq<Node>, i: int, j: int) -> Seq<Node> {
    list.update(i, list[j]).update(j, list[i])
}

proof fn lemma_swapped_same(list: Seq<Node>, i: int, j: int)
    requires
        0 <= i < list.len(),
        0 <= j < list.len(),
    ensures
        same_nodes(list, swapped(list, i, j)),
{
    let other = swapped(list, i, j);
    assert forall|e: Node| #[trigger] list.contains(e) implies other.contains(e) by {
        let w = choose|w: int| 0 <= w < list.len() && list[w] == e;
        if w == i {
            assert(other[j] == e);
        } else if w == j {
            assert(other[i] == e);
        } else {
            assert(other[w] == e);
        }
    }
    assert forall|e: Node| #[trigger] other.contains(e) implies list.contains(e) by {
        let w = choose|w: int| 0 <= w < other.len() && other[w] == e;
        if w == i {
            assert(list[j] == e);
        } else if w == j {
            assert(list[i] == e);
        } else {
            assert(list[w] == e);
        }
    }
}

proof fn lemma_same_nodes_chain(a: Seq<Node>, b: Seq<Node>, c: Seq<Node>)
    requires
        same_nodes(a, b),
        same_nodes(b, c),
    ensures
        same_nodes(a, c),
{
    assert forall|e: Node| #[trigger] a.contains(e) implies c.contains(e) by {
        assert(b.contains(e));
    }
    assert forall|e: Node| #[trigger] c.contains(e) implies a.contains(e) by {
        assert(b.contains(e));
    }
}

/// In a heap the first board has the least estimate.
proof fn lemma_first_is_least(list: Seq<Node>, k: int)
    requires
        heap_ok(list),
        0 <= k < list.len(),
    ensures
        key_at(list, 0) <= key_at(list, k),
    decreases k,
{
    if k > 0 {
        assert(ordered_at(list, k));
        lemma_first_is_least(list, up(k));
    }
}

/// Puts the boards at `i` and `j` in each other's place.
fn swap_nodes(list: &mut Vec<Node>, i: usize, j: usize)
    requires
        i < old(list)@.len(),
        j < old(list)@.len(),
    ensures
        final(list)@ == swapped(old(list)@, i as int, j as int),
{
    if i != j {
        let mut held = Node { board: Board::new(Vec::new(), 0, (0, 0), 0), parent: 0 };
        core::mem::swap(&mut held, &mut list[i]);
        core::mem::swap(&mut held, &mut list[j]);
        core::mem::swap(&mut held, &mut list[i]);
    }
    assert(list@ =~= swapped(old(list)@, i as int, j as int));
}

/// Whether the heap order holds everywhere but between `k` and the place
/// above it, and holds between the places below `k` and the place above it.
spec fn ordered_but_above(list: Seq<Node>, k: int) -> bool {
    &&& forall|c: int| 1 <= c < list.len() && c != k ==> #[trigger] ordered_at(list, c)
    &&& forall|c: int|
        1 <= c < list.len() && up(c) == k && k > 0 ==> key_at(list, up(k)) <= #[trigger] key_at(
            list,
            c,
        )
}

/// Whether the heap order holds everywhere but between `k` and the places
/// below it, and holds between the places below `k` and the place above it.
spec fn ordered_but_below(list: Seq<Node>, k: int) -> bool {
    &&& forall|c: int| 1 <= c < list.len() && up(c) != k ==> #[trigger] ordered_at(list, c)
    &&& forall|c: int|
        1 <= c < list.len() && up(c) == k && k > 0 ==> key_at(list, up(k)) <= #[trigger] key_at(
            list,
            c,
        )
}

/// Adds a board to the frontier.
pub(crate) fn push(list: &mut Vec<Node>, node: Node)
    requires
        heap_ok(old(list)@),
    ensures
        heap_ok(final(list)@),
        final(list)@.len() == old(list)@.len() + 1,
        final(list)@.contains(node),
        forall|e: Node| #[trigger] old(list)@.contains(e) ==> final(list)@.contains(e),
        forall|e: Node| #[trigger] final(list)@.contains(e) ==> old(list)@.contains(e) || e == node,
{
    let ghost before = list@;
    list.push(node);
    let ghost pushed = list@;
    assert(pushed[before.len() as int] == node);
    assert forall|e: Node| #[trigger] before.contains(e) implies pushed.contains(e) by {
        let w = choose|w: int| 0 <= w < before.len() && before[w] == e;
        assert(pushed[w] == e);
    }
    assert forall|e: Node| #[trigger] pushed.contains(e) implies before.contains(e) || e
        == node by {
        let w = choose|w: int| 0 <= w < pushed.len() && pushed[w] == e;
        if w < before.len() {
            assert(before[w] == e);
        }
    }
    let mut k = list.len() - 1;
    assert(ordered_but_above(list@, k as int)) by {
        assert forall|c: int| 1 <= c < list@.len() && c != k implies #[trigger] ordered_at(
            list@,
            c,
        ) by {
            assert(ordered_at(before, c));
        }
    }
    while k > 0 && list[k].board.priority() < list[(k - 1) / 2].board.priority()
        invariant
            0 <= k < list@.len(),
            same_nodes(pushed, list@),
            ordered_but_above(list@, k as int),
        decreases k,
    {
        let ghost here = list@;
        let above = (k - 1) / 2;
        swap_nodes(list, k, above);
        proof {
            lemma_swapped_same(here, k as int, above as int);
            lemma_same_nodes_chain(pushed, here, list@);
            assert forall|c: int| 1 <= c < list@.len() && c != above implies #[trigger] ordered_at(
                list@,
                c,
            ) by {
                if c == k {
                } else if up(c) == k {
                    assert(key_at(here, up(k as int)) <= key_at(here, c));
                } else if up(c) == above {
                    assert(ordered_at(here, c));
                } else {
                    assert(ordered_at(here, c));
                }
            }
            assert forall|c: int|
                1 <= c < list@.len() && up(c) == above && above > 0 implies key_at(
                list@,
                up(above as int),
            ) <= #[trigger] key_at(list@, c) by {
                assert(ordered_at(here, above as int));
                if c != k {
                    assert(ordered_at(here, c));
                }
            }
        }
        k = above;
    }
    assert(heap_ok(list@)) by {
        assert forall|c: int| 1 <= c < list@.len() implies #[trigger] ordered_at(list@, c) by {}
    }
    assert(pushed.contains(node));
}

/// Takes the board with the least estimate off the frontier.
pub(crate) fn pop(list: &mut Vec<Node>) -> (node: Node)
    requires
        heap_ok(old(list)@),
        old(list)@.len() > 0,
    ensures
        heap_ok(final(list)@),
        final(list)@.len() == old(list)@.len() - 1,
        old(list)@.contains(node),
        forall|e: Node| #[trigger] final(list)@.contains(e) ==> old(list)@.contains(e),
        forall|e: Node| #[trigger] old(list)@.contains(e) ==> final(list)@.contains(e) || e == node,
        forall|k: int|
            0 <= k < old(list)@.len() ==> estimate(node.board@) <= #[trigger] key_at(old(list)@, k),
{
    let ghost before = list@;
    let last = list.len() - 1;
    swap_nodes(list, 0, last);
    let ghost turned = list@;
    let node = list.pop().unwrap();
    let ghost rest = list@;
    proof {
        lemma_swapped_same(before, 0, last as int);
        assert(node == before[0]);
        assert forall|k: int| 0 <= k < before.len() implies estimate(node.board@)
            <= #[trigger] key_at(before, k) by {
            lemma_first_is_least(before, k);
        }
        assert forall|e: Node| #[trigger] rest.contains(e) implies before.contains(e) by {
            let w = choose|w: int| 0 <= w < rest.len() && rest[w] == e;
            assert(turned[w] == e);
            assert(turned.contains(e));
        }
        assert forall|e: Node| #[trigger] before.contains(e) implies rest.contains(e) || e
            == node by {
            assert(turned.contains(e));
            let w = choose|w: int| 0 <= w < turned.len() && turned[w] == e;
            if w < rest.len() {
                assert(rest[w] == e);
            }
        }
        assert(ordered_but_below(rest, 0)) by {
            assert forall|c: int| 1 <= c < rest.len() && up(c) != 0 implies #[trigger] ordered_at(
                rest,
                c,
            ) by {
                assert(ordered_at(before, c));
            }
        }
    }
    let n = list.len();
    let mut k: usize = 0;
    loop
        invariant
            n == list@.len(),
            0 <= k,
            k < n || n == 0,
            same_nodes(rest, list@),
            ordered_but_below(list@, k as int),
        ensures
            heap_ok(list@),
            same_nodes(rest, list@),
        decreases n - k,
    {
        if n == 0 || k >= (n - 1) / 2 + 1 {
            assert(heap_ok(list@)) by {
                assert forall|c: int| 1 <= c < list@.len() implies #[trigger] ordered_at(
                    list@,
                    c,
                ) by {
                    assert(up(c) != k);
                }
            }
            break ;
        }
        let left = 2 * k + 1;
        if left >= n {
            assert(heap_ok(list@)) by {
                assert forall|c: int| 1 <= c < list@.len() implies #[trigger] ordered_at(
                    list@,
                    c,
                ) by {
                    assert(up(c) != k);
                }
            }
            break ;
        }
        let right = left + 1;
        let least = if right < n && list[right].board.priority() < list[left].board.priority() {
            right
        } else {
            left
        };
        if !(list[least].board.priority() < list[k].board.priority()) {
            assert(heap_ok(list@)) by {
                assert forall|c: int| 1 <= c < list@.len() implies #[trigger] ordered_at(
                    list@,
                    c,
                ) by {
                    if up(c) == k {
                        assert(c == left || c == right);
                    }
                }
            }
            break ;
        }
        let ghost here = list@;
        swap_nodes(list, k, least);
        proof {
            lemma_swapped_same(here, k as int, least as int);
            lemma_same_nodes_chain(rest, here, list@);
            assert forall|c: int| 1 <= c < list@.len() && up(c) != least implies #[trigger] ordered_at(
                list@,
                c,
            ) by {
                if c == k {
                    assert(k > 0);
                    assert(key_at(here, up(k as int)) <= key_at(here, least as int));
                } else if up(c) == k {
                    assert(c == left || c == right);
                } else {
                    assert(ordered_at(here, c));
                }
            }
            assert forall|c: int|
                1 <= c < list@.len() && up(c) == least && least > 0 implies key_at(
                list@,
                up(least as int),
            ) <= #[trigger] key_at(list@, c) by {
                assert(ordered_at(here, c));
            }
        }
        k = least;
    }
    proof {
        assert forall|e: Node| #[trigger] list@.contains(e) implies before.contains(e) by {
            assert(rest.contains(e));
        }
        assert forall|e: Node| #[trigger] before.contains(e) implies list@.contains(e) || e
            == node by {
            if rest.contains(e) {
                assert(list@.contains(e));
            }
        }
    }
    node
}

} // verus!
