//! Board snapshots and the capture rule.
//!
//! A [`Board`] is one snapshot of stone placement on an N x N grid, together
//! with its links into the move tree (the position it came from and the
//! positions derived from it) and the numbered moves that produced it.
//!
//! The grid is stored flat in row-major order; the spec functions below give
//! the mathematical reading of a grid: cells, adjacency, maximal groups of
//! connected same-coloured stones, their liberties, and the capture rule.

use vstd::prelude::*;

use crate::Color;
use crate::Error;
use crate::Intersection;
use crate::Move;
use crate::PointState;

verus! {

/// Whether (r, c) addresses a cell of a size x size grid.
pub open spec fn in_bounds(size: int, r: int, c: int) -> bool {
    0 <= r < size && 0 <= c < size
}

/// The flat row-major index of cell (r, c).
pub open spec fn gidx(size: int, r: int, c: int) -> int {
    r * size + c
}

/// The state of cell (r, c) in the flat grid g.
pub open spec fn cell(g: Seq<PointState>, size: int, r: int, c: int) -> PointState
    recommends
        in_bounds(size, r, c),
        g.len() == size * size,
{
    g[gidx(size, r, c)]
}

/// Whether p holds a stone of colour col.
pub open spec fn filled_with(p: PointState, col: Color) -> bool {
    p matches PointState::Filled { stone_color, .. } && stone_color == col
}

/// Whether the two cells share an edge (4-connectivity).
pub open spec fn adjacent(r1: int, c1: int, r2: int, c2: int) -> bool {
    ||| r1 == r2 && (c2 == c1 + 1 || c2 == c1 - 1)
    ||| c1 == c2 && (r2 == r1 + 1 || r2 == r1 - 1)
}

/// Whether path is a chain of in-bounds cells, each holding a stone of
/// colour col, each step moving to an edge-adjacent cell.
pub open spec fn stone_path(g: Seq<PointState>, size: int, col: Color, path: Seq<(int, int)>) -> bool {
    &&& path.len() >= 1
    &&& forall|k: int|
        0 <= k < path.len() ==> in_bounds(size, (#[trigger] path[k]).0, path[k].1)
            && filled_with(cell(g, size, path[k].0, path[k].1), col)
    &&& forall|k: int|
        0 < k < path.len() ==> adjacent(path[k - 1].0, path[k - 1].1, (#[trigger] path[k]).0, path[k].1)
}

/// Whether the stones at (r1, c1) and (r2, c2) belong to the same maximal
/// group of colour col: some chain of col-coloured stones joins them.
pub open spec fn connected(g: Seq<PointState>, size: int, col: Color, r1: int, c1: int, r2: int, c2: int) -> bool {
    exists|path: Seq<(int, int)>|
        #[trigger] stone_path(g, size, col, path) && path.first() == (r1, c1) && path.last() == (r2, c2)
}

/// Whether some in-bounds neighbour of (r, c) is empty.
pub open spec fn has_liberty_at(g: Seq<PointState>, size: int, r: int, c: int) -> bool {
    exists|r2: int, c2: int|
        in_bounds(size, r2, c2) && #[trigger] adjacent(r, c, r2, c2) && cell(g, size, r2, c2) is Empty
}

/// Whether the group of colour col through (r, c) has at least one liberty.
/// Liberties are a set of empty cells adjacent to any member of the group.
pub open spec fn group_has_liberty(g: Seq<PointState>, size: int, col: Color, r: int, c: int) -> bool {
    exists|r2: int, c2: int|
        #[trigger] connected(g, size, col, r, c, r2, c2) && has_liberty_at(g, size, r2, c2)
}

/// Whether the capture pass run for a placement of colour placed removes the
/// stone at (r, c): the cell holds an opposing stone whose group has no
/// liberty. Groups of the placed colour itself are never removed.
pub open spec fn captured_cell(g: Seq<PointState>, size: int, placed: Color, r: int, c: int) -> bool {
    &&& in_bounds(size, r, c)
    &&& cell(g, size, r, c) matches PointState::Filled { stone_color, .. }
    &&& stone_color != placed
    &&& !group_has_liberty(g, size, stone_color, r, c)
}

/// The capture rule as a relation between the grid before the pass and the
/// grid after it: every captured cell is reset to empty, every other cell is
/// untouched.
pub open spec fn capture_ok(before: Seq<PointState>, after: Seq<PointState>, size: int, placed: Color) -> bool {
    &&& after.len() == before.len()
    &&& forall|r: int, c: int|
        in_bounds(size, r, c) ==> #[trigger] cell(after, size, r, c) == (if captured_cell(
            before,
            size,
            placed,
            r,
            c,
        ) {
            PointState::Empty
        } else {
            cell(before, size, r, c)
        })
}

/// The three characters a cell dumps as: the stone's colour mark, or a dot.
pub open spec fn ascii_cell(p: PointState) -> Seq<char> {
    match p {
        PointState::Filled { move_number: _, stone_color: Color::Black } => seq!['X', ' ', ' '],
        PointState::Filled { move_number: _, stone_color: Color::White } => seq!['O', ' ', ' '],
        PointState::Empty => seq!['.', ' ', ' '],
    }
}

/// The text of row r's first c cells.
pub open spec fn ascii_row_prefix(g: Seq<PointState>, size: int, r: int, c: int) -> Seq<char>
    decreases c,
{
    if c <= 0 {
        Seq::empty()
    } else {
        ascii_row_prefix(g, size, r, c - 1) + ascii_cell(cell(g, size, r, c - 1))
    }
}

/// The text of the first r full rows, each ended by a newline.
pub open spec fn ascii_rows_prefix(g: Seq<PointState>, size: int, r: int) -> Seq<char>
    decreases r,
{
    if r <= 0 {
        Seq::empty()
    } else {
        ascii_rows_prefix(g, size, r - 1) + ascii_row_prefix(g, size, r - 1, size) + seq!['\n']
    }
}

/// The full plain-text dump of a grid.
pub open spec fn ascii_board(g: Seq<PointState>, size: int) -> Seq<char> {
    ascii_rows_prefix(g, size, size)
}

/// Whether (r, c) occurs among the listed cells.
spec fn mem_in(s: Seq<(u32, u32)>, r: int, c: int) -> bool {
    exists|k: int| 0 <= k < s.len() && (#[trigger] s[k]).0 == r && s[k].1 == c
}

/// Whether the set s is closed under stepping to an adjacent stone of
/// colour col: no chain of col-coloured stones can leave it.
pub open spec fn closed_group_set(g: Seq<PointState>, size: int, col: Color, s: Set<(int, int)>) -> bool {
    forall|r1: int, c1: int, r2: int, c2: int|
        #![trigger s.contains((r1, c1)), adjacent(r1, c1, r2, c2)]
        s.contains((r1, c1)) && in_bounds(size, r2, c2) && adjacent(r1, c1, r2, c2) && filled_with(
            cell(g, size, r2, c2),
            col,
        ) ==> s.contains((r2, c2))
}

/// A stone is connected to itself.
pub proof fn lemma_connected_refl(g: Seq<PointState>, size: int, col: Color, r: int, c: int)
    requires
        in_bounds(size, r, c),
        filled_with(cell(g, size, r, c), col),
    ensures
        connected(g, size, col, r, c, r, c),
{
    let path: Seq<(int, int)> = seq![(r, c)];
    assert(stone_path(g, size, col, path));
    assert(path.first() == (r, c) && path.last() == (r, c));
}

/// A chain can be extended by one adjacent stone of the same colour.
pub proof fn lemma_connected_extend(
    g: Seq<PointState>,
    size: int,
    col: Color,
    r1: int,
    c1: int,
    r2: int,
    c2: int,
    r3: int,
    c3: int,
)
    requires
        connected(g, size, col, r1, c1, r2, c2),
        adjacent(r2, c2, r3, c3),
        in_bounds(size, r3, c3),
        filled_with(cell(g, size, r3, c3), col),
    ensures
        connected(g, size, col, r1, c1, r3, c3),
{
    let path = choose|path: Seq<(int, int)>|
        #[trigger] stone_path(g, size, col, path) && path.first() == (r1, c1) && path.last() == (r2, c2);
    let path2 = path.push((r3, c3));
    assert forall|k: int| 0 <= k < path2.len() implies in_bounds(size, (#[trigger] path2[k]).0, path2[k].1)
        && filled_with(cell(g, size, path2[k].0, path2[k].1), col) by {
        if k < path.len() {
            assert(path2[k] == path[k]);
        } else {
            assert(path2[k] == (r3, c3));
        }
    }
    assert forall|k: int| 0 < k < path2.len() implies adjacent(
        path2[k - 1].0,
        path2[k - 1].1,
        (#[trigger] path2[k]).0,
        path2[k].1,
    ) by {
        if k < path.len() {
            assert(path2[k] == path[k] && path2[k - 1] == path[k - 1]);
        } else {
            assert(path2[k] == (r3, c3) && path2[k - 1] == path[path.len() - 1]);
        }
    }
    assert(stone_path(g, size, col, path2));
    assert(path2.first() == (r1, c1) && path2.last() == (r3, c3));
}

/// A chain can be extended by one adjacent stone at its front.
pub proof fn lemma_connected_prepend(
    g: Seq<PointState>,
    size: int,
    col: Color,
    r0: int,
    c0: int,
    r1: int,
    c1: int,
    r2: int,
    c2: int,
)
    requires
        in_bounds(size, r0, c0),
        filled_with(cell(g, size, r0, c0), col),
        adjacent(r0, c0, r1, c1),
        connected(g, size, col, r1, c1, r2, c2),
    ensures
        connected(g, size, col, r0, c0, r2, c2),
{
    let path = choose|path: Seq<(int, int)>|
        #[trigger] stone_path(g, size, col, path) && path.first() == (r1, c1) && path.last() == (r2, c2);
    let path2 = seq![(r0, c0)] + path;
    assert forall|k: int| 0 <= k < path2.len() implies in_bounds(size, (#[trigger] path2[k]).0, path2[k].1)
        && filled_with(cell(g, size, path2[k].0, path2[k].1), col) by {
        if k == 0 {
            assert(path2[k] == (r0, c0));
        } else {
            assert(path2[k] == path[k - 1]);
        }
    }
    assert forall|k: int| 0 < k < path2.len() implies adjacent(
        path2[k - 1].0,
        path2[k - 1].1,
        (#[trigger] path2[k]).0,
        path2[k].1,
    ) by {
        if k == 1 {
            assert(path2[0] == (r0, c0) && path2[1] == path[0] && path[0] == (r1, c1));
        } else {
            assert(path2[k] == path[k - 1] && path2[k - 1] == path[k - 2]);
        }
    }
    assert(stone_path(g, size, col, path2));
    assert(path2.first() == (r0, c0) && path2.last() == (r2, c2));
}

/// Every cell of a chain is connected back to the chain's first cell.
proof fn lemma_path_reverse(g: Seq<PointState>, size: int, col: Color, path: Seq<(int, int)>)
    requires
        stone_path(g, size, col, path),
    ensures
        connected(g, size, col, path.last().0, path.last().1, path.first().0, path.first().1),
    decreases path.len(),
{
    if path.len() == 1 {
        lemma_connected_refl(g, size, col, path.first().0, path.first().1);
    } else {
        let pre = path.drop_last();
        assert forall|k: int| 0 <= k < pre.len() implies in_bounds(size, (#[trigger] pre[k]).0, pre[k].1)
            && filled_with(cell(g, size, pre[k].0, pre[k].1), col) by {
            assert(pre[k] == path[k]);
        }
        assert forall|k: int| 0 < k < pre.len() implies adjacent(
            pre[k - 1].0,
            pre[k - 1].1,
            (#[trigger] pre[k]).0,
            pre[k].1,
        ) by {
            assert(pre[k] == path[k] && pre[k - 1] == path[k - 1]);
        }
        assert(stone_path(g, size, col, pre));
        lemma_path_reverse(g, size, col, pre);
        assert(pre.last() == path[path.len() - 2] && pre.first() == path.first());
        assert(adjacent(path[path.len() - 2].0, path[path.len() - 2].1, path.last().0, path.last().1));
        lemma_connected_prepend(
            g,
            size,
            col,
            path.last().0,
            path.last().1,
            pre.last().0,
            pre.last().1,
            path.first().0,
            path.first().1,
        );
    }
}

/// Connectivity is symmetric: chains can be walked in either direction.
pub proof fn lemma_connected_sym(g: Seq<PointState>, size: int, col: Color, r1: int, c1: int, r2: int, c2: int)
    requires
        connected(g, size, col, r1, c1, r2, c2),
    ensures
        connected(g, size, col, r2, c2, r1, c1),
{
    let path = choose|path: Seq<(int, int)>|
        #[trigger] stone_path(g, size, col, path) && path.first() == (r1, c1) && path.last() == (r2, c2);
    lemma_path_reverse(g, size, col, path);
}

/// Connectivity is transitive: two chains sharing an endpoint concatenate.
pub proof fn lemma_connected_trans(
    g: Seq<PointState>,
    size: int,
    col: Color,
    r1: int,
    c1: int,
    r2: int,
    c2: int,
    r3: int,
    c3: int,
)
    requires
        connected(g, size, col, r1, c1, r2, c2),
        connected(g, size, col, r2, c2, r3, c3),
    ensures
        connected(g, size, col, r1, c1, r3, c3),
{
    let tail = choose|tail: Seq<(int, int)>|
        #[trigger] stone_path(g, size, col, tail) && tail.first() == (r2, c2) && tail.last() == (r3, c3);
    lemma_connected_trans_path(g, size, col, r1, c1, tail);
}

/// Transitivity, stated over the second chain for induction.
proof fn lemma_connected_trans_path(g: Seq<PointState>, size: int, col: Color, r1: int, c1: int, tail: Seq<(int, int)>)
    requires
        stone_path(g, size, col, tail),
        connected(g, size, col, r1, c1, tail.first().0, tail.first().1),
    ensures
        connected(g, size, col, r1, c1, tail.last().0, tail.last().1),
    decreases tail.len(),
{
    if tail.len() == 1 {
    } else {
        let pre = tail.drop_last();
        assert forall|k: int| 0 <= k < pre.len() implies in_bounds(size, (#[trigger] pre[k]).0, pre[k].1)
            && filled_with(cell(g, size, pre[k].0, pre[k].1), col) by {
            assert(pre[k] == tail[k]);
        }
        assert forall|k: int| 0 < k < pre.len() implies adjacent(
            pre[k - 1].0,
            pre[k - 1].1,
            (#[trigger] pre[k]).0,
            pre[k].1,
        ) by {
            assert(pre[k] == tail[k] && pre[k - 1] == tail[k - 1]);
        }
        assert(stone_path(g, size, col, pre));
        lemma_connected_trans_path(g, size, col, r1, c1, pre);
        assert(pre.last() == tail[tail.len() - 2]);
        assert(adjacent(tail[tail.len() - 2].0, tail[tail.len() - 2].1, tail.last().0, tail.last().1));
        lemma_connected_extend(
            g,
            size,
            col,
            r1,
            c1,
            pre.last().0,
            pre.last().1,
            tail.last().0,
            tail.last().1,
        );
    }
}

/// All stones of one group share the same fate: the group has a liberty as
/// seen from any of its members, or from none.
pub proof fn lemma_group_liberty_shared(
    g: Seq<PointState>,
    size: int,
    col: Color,
    r1: int,
    c1: int,
    r2: int,
    c2: int,
)
    requires
        connected(g, size, col, r1, c1, r2, c2),
    ensures
        group_has_liberty(g, size, col, r1, c1) <==> group_has_liberty(g, size, col, r2, c2),
{
    if group_has_liberty(g, size, col, r1, c1) {
        let (qr, qc) = choose|qr: int, qc: int|
            #[trigger] connected(g, size, col, r1, c1, qr, qc) && has_liberty_at(g, size, qr, qc);
        lemma_connected_sym(g, size, col, r1, c1, r2, c2);
        lemma_connected_trans(g, size, col, r2, c2, r1, c1, qr, qc);
    }
    if group_has_liberty(g, size, col, r2, c2) {
        let (qr, qc) = choose|qr: int, qc: int|
            #[trigger] connected(g, size, col, r2, c2, qr, qc) && has_liberty_at(g, size, qr, qc);
        lemma_connected_trans(g, size, col, r1, c1, r2, c2, qr, qc);
    }
}

/// No chain leaves a set that is closed under same-coloured adjacency.
proof fn lemma_path_in_closed_set(g: Seq<PointState>, size: int, col: Color, path: Seq<(int, int)>, s: Set<(int, int)>)
    requires
        stone_path(g, size, col, path),
        closed_group_set(g, size, col, s),
        s.contains(path.first()),
    ensures
        s.contains(path.last()),
    decreases path.len(),
{
    if path.len() == 1 {
    } else {
        let pre = path.drop_last();
        assert forall|k: int| 0 <= k < pre.len() implies in_bounds(size, (#[trigger] pre[k]).0, pre[k].1)
            && filled_with(cell(g, size, pre[k].0, pre[k].1), col) by {
            assert(pre[k] == path[k]);
        }
        assert forall|k: int| 0 < k < pre.len() implies adjacent(
            pre[k - 1].0,
            pre[k - 1].1,
            (#[trigger] pre[k]).0,
            pre[k].1,
        ) by {
            assert(pre[k] == path[k] && pre[k - 1] == path[k - 1]);
        }
        assert(stone_path(g, size, col, pre));
        lemma_path_in_closed_set(g, size, col, path.drop_last(), s);
        let a = path[path.len() - 2];
        let b = path.last();
        assert(pre.last() == a);
        assert(adjacent(a.0, a.1, b.0, b.1));
        assert(in_bounds(size, b.0, b.1) && filled_with(cell(g, size, b.0, b.1), col));
        assert(s.contains((a.0, a.1)));
        assert(s.contains((b.0, b.1)));
    }
}

/// A closed set holding one member of a group holds the whole group.
pub proof fn lemma_component_in_closed_set(
    g: Seq<PointState>,
    size: int,
    col: Color,
    s: Set<(int, int)>,
    r1: int,
    c1: int,
    r2: int,
    c2: int,
)
    requires
        closed_group_set(g, size, col, s),
        s.contains((r1, c1)),
        connected(g, size, col, r1, c1, r2, c2),
    ensures
        s.contains((r2, c2)),
{
    let path = choose|path: Seq<(int, int)>|
        #[trigger] stone_path(g, size, col, path) && path.first() == (r1, c1) && path.last() == (r2, c2);
    lemma_path_in_closed_set(g, size, col, path, s);
}

/// Row-major indexing stays inside the grid.
pub proof fn lemma_gidx_bounds(size: int, r: int, c: int)
    requires
        in_bounds(size, r, c),
    ensures
        0 <= gidx(size, r, c) < size * size,
{
    assert(0 <= r * size + c < size * size) by (nonlinear_arith)
        requires
            0 <= r < size,
            0 <= c < size,
    ;
}

/// Row-major indexing is injective over in-bounds cells.
pub proof fn lemma_gidx_injective(size: int, r1: int, c1: int, r2: int, c2: int)
    requires
        in_bounds(size, r1, c1),
        in_bounds(size, r2, c2),
        gidx(size, r1, c1) == gidx(size, r2, c2),
    ensures
        r1 == r2 && c1 == c2,
{
    assert(r1 == r2 && c1 == c2) by (nonlinear_arith)
        requires
            0 <= r1 < size,
            0 <= c1 < size,
            0 <= r2 < size,
            0 <= c2 < size,
            r1 * size + c1 == r2 * size + c2,
    ;
}

/// Writing one cell changes that cell and no other.
pub proof fn lemma_cell_update(g: Seq<PointState>, size: int, r: int, c: int, v: PointState, r2: int, c2: int)
    requires
        g.len() == size * size,
        in_bounds(size, r, c),
        in_bounds(size, r2, c2),
    ensures
        cell(g.update(gidx(size, r, c), v), size, r2, c2) == (if r == r2 && c == c2 {
            v
        } else {
            cell(g, size, r2, c2)
        }),
{
    lemma_gidx_bounds(size, r, c);
    lemma_gidx_bounds(size, r2, c2);
    if !(r == r2 && c == c2) && gidx(size, r, c) == gidx(size, r2, c2) {
        lemma_gidx_injective(size, r, c, r2, c2);
    }
}

/// Whether the two cells both hold stones of one colour.
spec fn same_stone(g: Seq<PointState>, size: int, r1: int, c1: int, r2: int, c2: int) -> bool {
    &&& cell(g, size, r1, c1) is Filled
    &&& cell(g, size, r2, c2) is Filled
    &&& cell(g, size, r1, c1)->stone_color == cell(g, size, r2, c2)->stone_color
}

/// Whether the visited map covers only whole groups: every visited cell
/// holds a stone, and no step to an adjacent stone of the same colour leaves
/// the visited region.
spec fn visited_closed(g: Seq<PointState>, size: int, vis: Seq<bool>) -> bool {
    &&& forall|r: int, c: int|
        in_bounds(size, r, c) && #[trigger] vis[gidx(size, r, c)] ==> cell(g, size, r, c) is Filled
    &&& forall|r1: int, c1: int, r2: int, c2: int|
        #![trigger vis[gidx(size, r1, c1)], adjacent(r1, c1, r2, c2)]
        in_bounds(size, r1, c1) && in_bounds(size, r2, c2) && vis[gidx(size, r1, c1)] && adjacent(
            r1,
            c1,
            r2,
            c2,
        ) && same_stone(g, size, r1, c1, r2, c2) ==> vis[gidx(size, r2, c2)]
}

/// Whether some listed cell has an empty in-bounds neighbour.
spec fn found_liberty(g: Seq<PointState>, size: int, ms: Seq<(u32, u32)>) -> bool {
    exists|r1: int, c1: int, r2: int, c2: int|
        mem_in(ms, r1, c1) && in_bounds(size, r2, c2) && #[trigger] adjacent(r1, c1, r2, c2) && cell(
            g,
            size,
            r2,
            c2,
        ) is Empty
}

/// How many cells a visited map still leaves unvisited; the flood fill's
/// termination measure.
spec fn count_false(s: Seq<bool>) -> nat
    decreases s.len(),
{
    if s.len() == 0 {
        0nat
    } else {
        count_false(s.drop_last()) + (if s.last() {
            0nat
        } else {
            1nat
        })
    }
}

proof fn lemma_count_false_update(s: Seq<bool>, i: int)
    requires
        0 <= i < s.len(),
        !s[i],
    ensures
        count_false(s.update(i, true)) < count_false(s),
    decreases s.len(),
{
    let t = s.update(i, true);
    if i == s.len() - 1 {
        assert(t.drop_last() =~= s.drop_last());
    } else {
        assert(t.drop_last() =~= s.drop_last().update(i, true));
        assert(t.last() == s.last());
        lemma_count_false_update(s.drop_last(), i);
    }
}

proof fn lemma_flag_update(v: Seq<bool>, size: int, r: int, c: int, b: bool, r2: int, c2: int)
    requires
        v.len() == size * size,
        in_bounds(size, r, c),
        in_bounds(size, r2, c2),
    ensures
        v.update(gidx(size, r, c), b)[gidx(size, r2, c2)] == (if r == r2 && c == c2 {
            b
        } else {
            v[gidx(size, r2, c2)]
        }),
{
    lemma_gidx_bounds(size, r, c);
    lemma_gidx_bounds(size, r2, c2);
    if !(r == r2 && c == c2) && gidx(size, r, c) == gidx(size, r2, c2) {
        lemma_gidx_injective(size, r, c, r2, c2);
    }
}

proof fn lemma_mem_in_push_iff(ms: Seq<(u32, u32)>, q: (u32, u32), r: int, c: int)
    ensures
        mem_in(ms.push(q), r, c) == (mem_in(ms, r, c) || (q.0 == r && q.1 == c)),
{
    if mem_in(ms.push(q), r, c) {
        let k = choose|k: int| 0 <= k < ms.push(q).len() && (#[trigger] ms.push(q)[k]).0 == r && ms.push(q)[k].1 == c;
        if k < ms.len() {
            assert(ms[k] == ms.push(q)[k]);
            assert(mem_in(ms, r, c));
        } else {
            assert(ms.push(q)[k] == q);
        }
    }
    if mem_in(ms, r, c) {
        let k = choose|k: int| 0 <= k < ms.len() && (#[trigger] ms[k]).0 == r && ms[k].1 == c;
        assert(ms.push(q)[k] == ms[k]);
        assert(mem_in(ms.push(q), r, c));
    }
    if q.0 == r && q.1 == c {
        assert(ms.push(q)[ms.len() as int] == q);
        assert(mem_in(ms.push(q), r, c));
    }
}

/// Inspects one in-bounds neighbour (qr, qc) of a stone already gathered
/// into the group: an empty neighbour is a liberty, a same-coloured stone
/// not yet visited joins the group.
///
/// The ghost pair m names the gathered stone (qr, qc) is adjacent to.
fn visit_neighbor(
    points: &Vec<PointState>,
    size: u32,
    start_r: u32,
    start_c: u32,
    col: Color,
    qr: u32,
    qc: u32,
    visited: &mut Vec<bool>,
    members: &mut Vec<(u32, u32)>,
    Ghost(vis0): Ghost<Seq<bool>>,
    Ghost(m): Ghost<(int, int)>,
) -> (lib: bool)
    requires
        points@.len() == (size as int) * (size as int),
        old(visited)@.len() == (size as int) * (size as int),
        vis0.len() == (size as int) * (size as int),
        visited_closed(points@, size as int, vis0),
        in_bounds(size as int, start_r as int, start_c as int),
        in_bounds(size as int, qr as int, qc as int),
        in_bounds(size as int, m.0, m.1),
        filled_with(cell(points@, size as int, m.0, m.1), col),
        connected(points@, size as int, col, start_r as int, start_c as int, m.0, m.1),
        !vis0[gidx(size as int, m.0, m.1)],
        adjacent(m.0, m.1, qr as int, qc as int),
        forall|k: int|
            0 <= k < old(members)@.len() ==> {
                let mm = #[trigger] old(members)@[k];
                &&& in_bounds(size as int, mm.0 as int, mm.1 as int)
                &&& filled_with(cell(points@, size as int, mm.0 as int, mm.1 as int), col)
                &&& connected(points@, size as int, col, start_r as int, start_c as int, mm.0 as int, mm.1 as int)
                &&& !vis0[gidx(size as int, mm.0 as int, mm.1 as int)]
            },
        forall|r: int, c: int|
            in_bounds(size as int, r, c) ==> #[trigger] old(visited)@[gidx(size as int, r, c)] == (vis0[gidx(
                size as int,
                r,
                c,
            )] || mem_in(old(members)@, r, c)),
    ensures
        final(visited)@.len() == old(visited)@.len(),
        final(members)@ == old(members)@ || final(members)@ == old(members)@.push((qr, qc)),
        forall|k: int|
            0 <= k < final(members)@.len() ==> {
                let mm = #[trigger] final(members)@[k];
                &&& in_bounds(size as int, mm.0 as int, mm.1 as int)
                &&& filled_with(cell(points@, size as int, mm.0 as int, mm.1 as int), col)
                &&& connected(points@, size as int, col, start_r as int, start_c as int, mm.0 as int, mm.1 as int)
                &&& !vis0[gidx(size as int, mm.0 as int, mm.1 as int)]
            },
        forall|r: int, c: int|
            in_bounds(size as int, r, c) ==> #[trigger] final(visited)@[gidx(size as int, r, c)] == (vis0[gidx(
                size as int,
                r,
                c,
            )] || mem_in(final(members)@, r, c)),
        lib == (cell(points@, size as int, qr as int, qc as int) is Empty),
        filled_with(cell(points@, size as int, qr as int, qc as int), col) ==> mem_in(
            final(members)@,
            qr as int,
            qc as int,
        ),
        final(members)@.len() > old(members)@.len() ==> count_false(final(visited)@) < count_false(
            old(visited)@,
        ),
        final(members)@.len() == old(members)@.len() ==> *final(visited) == *old(visited),
{
    let ghost g = points@;
    let ghost s = size as int;
    let n = points.len();
    proof {
        lemma_gidx_bounds(s, qr as int, qc as int);
        assert((qr as int) * (size as int) + (qc as int) == gidx(s, qr as int, qc as int));
    }
    let qi: usize = (qr as usize) * (size as usize) + (qc as usize);
    let p = points[qi];
    proof {
        assert(p == cell(g, s, qr as int, qc as int));
    }
    match p {
        PointState::Empty => true,
        PointState::Filled { move_number: _, stone_color } => {
            if stone_color == col {
                proof {
                    // A same-coloured neighbour of an unvisited gathered stone
                    // cannot lie in the previously visited region: visited
                    // regions are closed under same-coloured adjacency.
                    assert(same_stone(g, s, qr as int, qc as int, m.0, m.1));
                    assert(adjacent(qr as int, qc as int, m.0, m.1));
                }
                if !visited[qi] {
                    visited.set(qi, true);
                    members.push((qr, qc));
                    proof {
                        lemma_connected_extend(
                            g,
                            s,
                            col,
                            start_r as int,
                            start_c as int,
                            m.0,
                            m.1,
                            qr as int,
                            qc as int,
                        );
                        assert(!vis0[gidx(s, qr as int, qc as int)]);
                        assert forall|k: int| 0 <= k < members@.len() implies {
                            let mm = #[trigger] members@[k];
                            &&& in_bounds(s, mm.0 as int, mm.1 as int)
                            &&& filled_with(cell(g, s, mm.0 as int, mm.1 as int), col)
                            &&& connected(g, s, col, start_r as int, start_c as int, mm.0 as int, mm.1 as int)
                            &&& !vis0[gidx(s, mm.0 as int, mm.1 as int)]
                        } by {
                            if k < old(members)@.len() {
                                assert(members@[k] == old(members)@[k]);
                            } else {
                                assert(members@[k] == (qr, qc));
                            }
                        }
                        assert forall|r: int, c: int| in_bounds(s, r, c) implies #[trigger] visited@[gidx(
                            s,
                            r,
                            c,
                        )] == (vis0[gidx(s, r, c)] || mem_in(members@, r, c)) by {
                            lemma_flag_update(old(visited)@, s, qr as int, qc as int, true, r, c);
                            lemma_mem_in_push_iff(old(members)@, (qr, qc), r, c);
                        }
                        lemma_count_false_update(old(visited)@, gidx(s, qr as int, qc as int));
                        assert(mem_in(members@, qr as int, qc as int)) by {
                            lemma_mem_in_push_iff(old(members)@, (qr, qc), qr as int, qc as int);
                        }
                    }
                } else {
                    proof {
                        // Already visited: it must already be a gathered
                        // member, for the old visited region cannot reach it.
                        assert(visited@[gidx(s, qr as int, qc as int)]);
                        if vis0[gidx(s, qr as int, qc as int)] {
                            assert(vis0[gidx(s, m.0, m.1)]);
                        }
                        assert(mem_in(members@, qr as int, qc as int));
                    }
                }
                false
            } else {
                false
            }
        },
    }
}

proof fn lemma_mem_in_mono(a: Seq<(u32, u32)>, b: Seq<(u32, u32)>, r: int, c: int)
    requires
        mem_in(a, r, c),
        a.len() <= b.len(),
        forall|k: int| 0 <= k < a.len() ==> a[k] == #[trigger] b[k],
    ensures
        mem_in(b, r, c),
{
    let k = choose|k: int| 0 <= k < a.len() && (#[trigger] a[k]).0 == r && a[k].1 == c;
    assert(b[k] == a[k]);
}

/// Gathers the maximal group of col-coloured stones through the start cell,
/// walking an explicit worklist rather than recursing, marking every
/// gathered cell visited, and reporting whether the group has any liberty.
fn flood_fill(
    points: &Vec<PointState>,
    size: u32,
    start_r: u32,
    start_c: u32,
    col: Color,
    visited: &mut Vec<bool>,
) -> (res: (Vec<(u32, u32)>, bool))
    requires
        points@.len() == (size as int) * (size as int),
        old(visited)@.len() == (size as int) * (size as int),
        in_bounds(size as int, start_r as int, start_c as int),
        filled_with(cell(points@, size as int, start_r as int, start_c as int), col),
        !old(visited)@[gidx(size as int, start_r as int, start_c as int)],
        visited_closed(points@, size as int, old(visited)@),
    ensures
        final(visited)@.len() == old(visited)@.len(),
        forall|r: int, c: int|
            in_bounds(size as int, r, c) ==> #[trigger] final(visited)@[gidx(size as int, r, c)] == (old(
                visited,
            )@[gidx(size as int, r, c)] || mem_in(res.0@, r, c)),
        forall|r: int, c: int|
            #[trigger] mem_in(res.0@, r, c) ==> connected(
                points@,
                size as int,
                col,
                start_r as int,
                start_c as int,
                r,
                c,
            ) && !old(visited)@[gidx(size as int, r, c)],
        forall|r: int, c: int|
            #[trigger] connected(points@, size as int, col, start_r as int, start_c as int, r, c) ==> mem_in(
                res.0@,
                r,
                c,
            ),
        res.1 == group_has_liberty(points@, size as int, col, start_r as int, start_c as int),
        visited_closed(points@, size as int, final(visited)@),
        forall|k: int|
            0 <= k < res.0@.len() ==> {
                let mm = #[trigger] res.0@[k];
                in_bounds(size as int, mm.0 as int, mm.1 as int) && filled_with(
                    cell(points@, size as int, mm.0 as int, mm.1 as int),
                    col,
                )
            },
{
    let ghost g = points@;
    let ghost s = size as int;
    let ghost vis0 = visited@;
    let n = points.len();
    let mut members: Vec<(u32, u32)> = Vec::new();
    let mut has_lib = false;
    let mut processed: usize = 0;
    proof {
        lemma_gidx_bounds(s, start_r as int, start_c as int);
        assert((start_r as int) * (size as int) + (start_c as int) == gidx(s, start_r as int, start_c as int));
    }
    let start_i: usize = (start_r as usize) * (size as usize) + (start_c as usize);
    visited.set(start_i, true);
    members.push((start_r, start_c));
    proof {
        lemma_connected_refl(g, s, col, start_r as int, start_c as int);
        assert(members@[0] == (start_r, start_c));
        assert forall|r: int, c: int| in_bounds(s, r, c) implies #[trigger] visited@[gidx(s, r, c)] == (vis0[gidx(
            s,
            r,
            c,
        )] || mem_in(members@, r, c)) by {
            lemma_flag_update(vis0, s, start_r as int, start_c as int, true, r, c);
            if mem_in(members@, r, c) {
                let k = choose|k: int| 0 <= k < members@.len() && (#[trigger] members@[k]).0 == r && members@[k].1 == c;
            }
            if r == start_r as int && c == start_c as int {
                assert(mem_in(members@, r, c));
            }
        }
        assert(!found_liberty(g, s, members@.take(0))) by {
            if found_liberty(g, s, members@.take(0)) {
                let (r1, c1, r2, c2) = choose|r1: int, c1: int, r2: int, c2: int|
                    mem_in(members@.take(0), r1, c1) && in_bounds(s, r2, c2) && #[trigger] adjacent(r1, c1, r2, c2)
                        && cell(g, s, r2, c2) is Empty;
                let k = choose|k: int|
                    0 <= k < members@.take(0).len() && (#[trigger] members@.take(0)[k]).0 == r1
                        && members@.take(0)[k].1 == c1;
            }
        }
    }
    while processed < members.len()
        invariant
            points@ == g,
            s == size as int,
            g.len() == s * s,
            visited@.len() == s * s,
            vis0.len() == s * s,
            visited_closed(g, s, vis0),
            in_bounds(s, start_r as int, start_c as int),
            filled_with(cell(g, s, start_r as int, start_c as int), col),
            !vis0[gidx(s, start_r as int, start_c as int)],
            processed <= members@.len(),
            1 <= members@.len(),
            members@[0] == (start_r, start_c),
            forall|k: int|
                0 <= k < members@.len() ==> {
                    let mm = #[trigger] members@[k];
                    &&& in_bounds(s, mm.0 as int, mm.1 as int)
                    &&& filled_with(cell(g, s, mm.0 as int, mm.1 as int), col)
                    &&& connected(g, s, col, start_r as int, start_c as int, mm.0 as int, mm.1 as int)
                    &&& !vis0[gidx(s, mm.0 as int, mm.1 as int)]
                },
            forall|r: int, c: int|
                in_bounds(s, r, c) ==> #[trigger] visited@[gidx(s, r, c)] == (vis0[gidx(s, r, c)] || mem_in(
                    members@,
                    r,
                    c,
                )),
            forall|r1: int, c1: int, r2: int, c2: int|
                #![trigger mem_in(members@.take(processed as int), r1, c1), adjacent(r1, c1, r2, c2)]
                mem_in(members@.take(processed as int), r1, c1) && in_bounds(s, r2, c2) && adjacent(r1, c1, r2, c2)
                    && filled_with(cell(g, s, r2, c2), col) ==> mem_in(members@, r2, c2),
            has_lib == found_liberty(g, s, members@.take(processed as int)),
        decreases count_false(visited@), members@.len() - processed,
    {
        let ghost members0 = members@;
        let ghost has_lib0 = has_lib;
        let (mr, mc) = members[processed];
        let ghost m_int = (mr as int, mc as int);
        proof {
            assert(members@[processed as int] == (mr, mc));
        }
        // Inspect the four edge-adjacent neighbours; out-of-grid directions
        // have no cell and contribute nothing.
        if mr >= 1 {
            let l = visit_neighbor(
                points,
                size,
                start_r,
                start_c,
                col,
                mr - 1,
                mc,
                visited,
                &mut members,
                Ghost(vis0),
                Ghost(m_int),
            );
            if l {
                has_lib = true;
            }
        }
        let ghost members1 = members@;
        if mr + 1 < size {
            let l = visit_neighbor(
                points,
                size,
                start_r,
                start_c,
                col,
                mr + 1,
                mc,
                visited,
                &mut members,
                Ghost(vis0),
                Ghost(m_int),
            );
            if l {
                has_lib = true;
            }
        }
        let ghost members2 = members@;
        if mc >= 1 {
            let l = visit_neighbor(
                points,
                size,
                start_r,
                start_c,
                col,
                mr,
                mc - 1,
                visited,
                &mut members,
                Ghost(vis0),
                Ghost(m_int),
            );
            if l {
                has_lib = true;
            }
        }
        let ghost members3 = members@;
        if mc + 1 < size {
            let l = visit_neighbor(
                points,
                size,
                start_r,
                start_c,
                col,
                mr,
                mc + 1,
                visited,
                &mut members,
                Ghost(vis0),
                Ghost(m_int),
            );
            if l {
                has_lib = true;
            }
        }
        let ghost members4 = members@;
        proof {
            // Earlier gathered stones keep their indices.
            assert(forall|k: int| 0 <= k < members0.len() ==> members0[k] == #[trigger] members4[k]);
            assert(forall|k: int| 0 <= k < members1.len() ==> members1[k] == #[trigger] members4[k]);
            assert(forall|k: int| 0 <= k < members2.len() ==> members2[k] == #[trigger] members4[k]);
            assert(forall|k: int| 0 <= k < members3.len() ==> members3[k] == #[trigger] members4[k]);
            // Every same-coloured in-bounds neighbour of (mr, mc) is gathered.
            assert forall|r2: int, c2: int|
                in_bounds(s, r2, c2) && adjacent(mr as int, mc as int, r2, c2) && filled_with(
                    cell(g, s, r2, c2),
                    col,
                ) implies mem_in(members4, r2, c2) by {
                if r2 == mr as int - 1 && c2 == mc as int {
                    lemma_mem_in_mono(members1, members4, r2, c2);
                } else if r2 == mr as int + 1 && c2 == mc as int {
                    lemma_mem_in_mono(members2, members4, r2, c2);
                } else if r2 == mr as int && c2 == mc as int - 1 {
                    lemma_mem_in_mono(members3, members4, r2, c2);
                } else {
                    assert(r2 == mr as int && c2 == mc as int + 1);
                }
            }
            // The closure record now extends to this stone.
            assert forall|r1: int, c1: int, r2: int, c2: int|
                mem_in(members4.take(processed as int + 1), r1, c1) && in_bounds(s, r2, c2) && adjacent(
                    r1,
                    c1,
                    r2,
                    c2,
                ) && filled_with(cell(g, s, r2, c2), col) implies mem_in(members4, r2, c2) by {
                let tk = members4.take(processed as int + 1);
                let k = choose|k: int| 0 <= k < tk.len() && (#[trigger] tk[k]).0 == r1 && tk[k].1 == c1;
                assert(tk[k] == members4[k]);
                if k < processed as int {
                    assert(members0.take(processed as int)[k] == members0[k]);
                    assert(members0[k] == members4[k]);
                    assert(mem_in(members0.take(processed as int), r1, c1));
                    assert(mem_in(members0, r2, c2));
                    lemma_mem_in_mono(members0, members4, r2, c2);
                } else {
                    assert(members4[k] == members0[processed as int]);
                    assert((r1, c1) == (mr as int, mc as int));
                }
            }
            // The liberty flag still records exactly the processed stones'
            // empty neighbours.
            assert(has_lib == found_liberty(g, s, members4.take(processed as int + 1))) by {
                if has_lib {
                    if has_lib0 {
                        let (r1, c1, r2, c2) = choose|r1: int, c1: int, r2: int, c2: int|
                            mem_in(members0.take(processed as int), r1, c1) && in_bounds(s, r2, c2)
                                && #[trigger] adjacent(r1, c1, r2, c2) && cell(g, s, r2, c2) is Empty;
                        lemma_mem_in_mono(
                            members0.take(processed as int),
                            members4.take(processed as int + 1),
                            r1,
                            c1,
                        );
                        assert(found_liberty(g, s, members4.take(processed as int + 1)));
                    } else {
                        // The flag was raised at one of the four neighbours.
                        assert(members4.take(processed as int + 1)[processed as int] == (mr, mc));
                        assert(mem_in(members4.take(processed as int + 1), mr as int, mc as int));
                        if in_bounds(s, mr as int - 1, mc as int) && cell(g, s, mr as int - 1, mc as int) is Empty {
                            assert(adjacent(mr as int, mc as int, mr as int - 1, mc as int));
                            assert(found_liberty(g, s, members4.take(processed as int + 1)));
                        } else if in_bounds(s, mr as int + 1, mc as int) && cell(g, s, mr as int + 1, mc as int) is Empty {
                            assert(adjacent(mr as int, mc as int, mr as int + 1, mc as int));
                            assert(found_liberty(g, s, members4.take(processed as int + 1)));
                        } else if in_bounds(s, mr as int, mc as int - 1) && cell(g, s, mr as int, mc as int - 1) is Empty {
                            assert(adjacent(mr as int, mc as int, mr as int, mc as int - 1));
                            assert(found_liberty(g, s, members4.take(processed as int + 1)));
                        } else {
                            assert(in_bounds(s, mr as int, mc as int + 1) && cell(g, s, mr as int, mc as int + 1) is Empty);
                            assert(adjacent(mr as int, mc as int, mr as int, mc as int + 1));
                            assert(found_liberty(g, s, members4.take(processed as int + 1)));
                        }
                    }
                } else {
                    if found_liberty(g, s, members4.take(processed as int + 1)) {
                        let (r1, c1, r2, c2) = choose|r1: int, c1: int, r2: int, c2: int|
                            mem_in(members4.take(processed as int + 1), r1, c1) && in_bounds(s, r2, c2)
                                && #[trigger] adjacent(r1, c1, r2, c2) && cell(g, s, r2, c2) is Empty;
                        let tk = members4.take(processed as int + 1);
                        let k = choose|k: int| 0 <= k < tk.len() && (#[trigger] tk[k]).0 == r1 && tk[k].1 == c1;
                        assert(tk[k] == members4[k]);
                        if k < processed as int {
                            assert(members0.take(processed as int)[k] == members0[k]);
                            assert(members0[k] == members4[k]);
                            assert(mem_in(members0.take(processed as int), r1, c1));
                            assert(found_liberty(g, s, members0.take(processed as int)));
                        } else {
                            assert((r1, c1) == (mr as int, mc as int));
                        }
                    }
                }
            }
        }
        processed = processed + 1;
    }
    // The worklist is exhausted: the gathered stones are closed under
    // same-coloured adjacency, hence they are exactly the whole group.
    proof {
        assert(members@.take(processed as int) =~= members@);
        let sset = Set::new(|p: (int, int)| mem_in(members@, p.0, p.1));
        assert(closed_group_set(g, s, col, sset)) by {
            assert forall|r1: int, c1: int, r2: int, c2: int|
                #![trigger sset.contains((r1, c1)), adjacent(r1, c1, r2, c2)]
                sset.contains((r1, c1)) && in_bounds(s, r2, c2) && adjacent(r1, c1, r2, c2) && filled_with(
                    cell(g, s, r2, c2),
                    col,
                ) implies sset.contains((r2, c2)) by {
                assert(mem_in(members@.take(processed as int), r1, c1));
                assert(mem_in(members@, r2, c2));
            }
        }
        assert(sset.contains((start_r as int, start_c as int))) by {
            assert(members@[0] == (start_r, start_c));
            assert(mem_in(members@, start_r as int, start_c as int));
        }
        assert forall|r: int, c: int|
            #[trigger] connected(g, s, col, start_r as int, start_c as int, r, c) implies mem_in(members@, r, c) by {
            lemma_component_in_closed_set(g, s, col, sset, start_r as int, start_c as int, r, c);
        }
        assert forall|r: int, c: int| #[trigger] mem_in(members@, r, c) implies connected(
            g,
            s,
            col,
            start_r as int,
            start_c as int,
            r,
            c,
        ) && !vis0[gidx(s, r, c)] by {
            let k = choose|k: int| 0 <= k < members@.len() && (#[trigger] members@[k]).0 == r && members@[k].1 == c;
        }
        assert(has_lib == group_has_liberty(g, s, col, start_r as int, start_c as int)) by {
            if has_lib {
                let (r1, c1, r2, c2) = choose|r1: int, c1: int, r2: int, c2: int|
                    mem_in(members@.take(processed as int), r1, c1) && in_bounds(s, r2, c2) && #[trigger] adjacent(
                        r1,
                        c1,
                        r2,
                        c2,
                    ) && cell(g, s, r2, c2) is Empty;
                let k = choose|k: int|
                    0 <= k < members@.len() && (#[trigger] members@[k]).0 == r1 && members@[k].1 == c1;
                assert(has_liberty_at(g, s, r1, c1));
                assert(group_has_liberty(g, s, col, start_r as int, start_c as int));
            }
            if group_has_liberty(g, s, col, start_r as int, start_c as int) {
                let (qr, qc) = choose|qr: int, qc: int|
                    #[trigger] connected(g, s, col, start_r as int, start_c as int, qr, qc) && has_liberty_at(
                        g,
                        s,
                        qr,
                        qc,
                    );
                assert(mem_in(members@, qr, qc));
                let (lr, lc) = choose|lr: int, lc: int|
                    in_bounds(s, lr, lc) && #[trigger] adjacent(qr, qc, lr, lc) && cell(g, s, lr, lc) is Empty;
                assert(found_liberty(g, s, members@.take(processed as int)));
            }
        }
        // The enlarged visited region is again a union of whole groups.
        assert forall|r: int, c: int|
            in_bounds(s, r, c) && #[trigger] visited@[gidx(s, r, c)] implies cell(g, s, r, c) is Filled by {
            if !vis0[gidx(s, r, c)] {
                assert(mem_in(members@, r, c));
                let k = choose|k: int| 0 <= k < members@.len() && (#[trigger] members@[k]).0 == r && members@[k].1 == c;
            }
        }
        assert forall|r1: int, c1: int, r2: int, c2: int|
            in_bounds(s, r1, c1) && in_bounds(s, r2, c2) && visited@[gidx(s, r1, c1)] && adjacent(r1, c1, r2, c2)
                && same_stone(g, s, r1, c1, r2, c2) implies visited@[gidx(s, r2, c2)] by {
            if vis0[gidx(s, r1, c1)] {
                assert(vis0[gidx(s, r2, c2)]);
            } else {
                assert(mem_in(members@, r1, c1));
                let k = choose|k: int|
                    0 <= k < members@.len() && (#[trigger] members@[k]).0 == r1 && members@[k].1 == c1;
                assert(filled_with(cell(g, s, r1, c1), col));
                assert(filled_with(cell(g, s, r2, c2), col));
                lemma_connected_extend(g, s, col, start_r as int, start_c as int, r1, c1, r2, c2);
                assert(mem_in(members@, r2, c2));
            }
        }
    }
    (members, has_lib)
}

#[derive(Debug, Clone)]
pub struct Board {
    size: u32,
    points: Vec<PointState>,
    prev_board: u32,
    next_board: Vec<u32>,
    move_number: u32,
    moves: Vec<Move>,
}

impl Board {
    /// The edge length of the grid.
    pub closed spec fn spec_size(self) -> u32 {
        self.size
    }

    /// The flat row-major grid of cells.
    pub closed spec fn grid(self) -> Seq<PointState> {
        self.points@
    }

    /// The identifier of the position this one was derived from.
    pub closed spec fn spec_prev(self) -> u32 {
        self.prev_board
    }

    /// The identifiers of the positions derived from this one, in the order
    /// they were created; index 0 is the main line.
    pub closed spec fn nexts(self) -> Seq<u32> {
        self.next_board@
    }

    /// The number of the move that produced this position (0 for the root).
    pub closed spec fn spec_move_number(self) -> u32 {
        self.move_number
    }

    /// The numbered moves along this position's line: entry k holds move k+1.
    pub closed spec fn spec_moves(self) -> Seq<Move> {
        self.moves@
    }

    /// Structural soundness: the grid has exactly size x size cells, and the
    /// move record holds exactly the moves numbered 1 ..= move_number.
    pub open spec fn wf(self) -> bool {
        &&& self.grid().len() == (self.spec_size() as int) * (self.spec_size() as int)
        &&& self.spec_moves().len() == self.spec_move_number()
        &&& forall|k: int|
            0 <= k < self.spec_moves().len() ==> (#[trigger] self.spec_moves()[k]).move_number == k + 1
    }

    /// An empty board of the given edge length, standing at the tree root.
    pub fn new(size: u32) -> (b: Board)
        requires
            (size as int) * (size as int) <= usize::MAX as int,
        ensures
            b.wf(),
            b.spec_size() == size,
            b.spec_prev() == 0,
            b.nexts().len() == 0,
            b.spec_move_number() == 0,
            forall|r: int, c: int|
                in_bounds(size as int, r, c) ==> #[trigger] cell(b.grid(), size as int, r, c) is Empty,
    {
        let n: usize = (size as usize) * (size as usize);
        let mut points: Vec<PointState> = Vec::new();
        while points.len() < n
            invariant
                points@.len() <= n,
                forall|k: int| 0 <= k < points@.len() ==> points@[k] is Empty,
            decreases n - points@.len(),
        {
            points.push(PointState::Empty);
        }
        let b = Board {
            size,
            points,
            prev_board: 0,
            next_board: Vec::new(),
            move_number: 0,
            moves: Vec::new(),
        };
        proof {
            assert forall|r: int, c: int|
                in_bounds(size as int, r, c) implies #[trigger] cell(b.grid(), size as int, r, c) is Empty by {
                lemma_gidx_bounds(size as int, r, c);
            }
        }
        b
    }

    pub fn get_size(&self) -> (s: u32)
        ensures
            s == self.spec_size(),
    {
        self.size
    }

    pub fn set_prev(&mut self, board_number: u32)
        ensures
            final(self).spec_prev() == board_number,
            final(self).spec_size() == old(self).spec_size(),
            final(self).grid() == old(self).grid(),
            final(self).nexts() == old(self).nexts(),
            final(self).spec_move_number() == old(self).spec_move_number(),
            final(self).spec_moves() == old(self).spec_moves(),
    {
        self.prev_board = board_number;
    }

    pub fn get_prev(&self) -> (p: u32)
        ensures
            p == self.spec_prev(),
    {
        self.prev_board
    }

    /// Forgets the continuations recorded on this board; a freshly derived
    /// position starts with no children of its own.
    pub fn clear_next(&mut self)
        ensures
            final(self).nexts().len() == 0,
            final(self).spec_size() == old(self).spec_size(),
            final(self).grid() == old(self).grid(),
            final(self).spec_prev() == old(self).spec_prev(),
            final(self).spec_move_number() == old(self).spec_move_number(),
            final(self).spec_moves() == old(self).spec_moves(),
    {
        self.next_board.clear();
    }

    /// Records one more position derived from this one, after all earlier ones.
    pub fn add_next(&mut self, board_number: u32)
        ensures
            final(self).nexts() == old(self).nexts().push(board_number),
            final(self).spec_size() == old(self).spec_size(),
            final(self).grid() == old(self).grid(),
            final(self).spec_prev() == old(self).spec_prev(),
            final(self).spec_move_number() == old(self).spec_move_number(),
            final(self).spec_moves() == old(self).spec_moves(),
    {
        self.next_board.push(board_number);
    }

    /// The identifier of the continuation with the given variation index,
    /// if one has been recorded.
    pub fn get_next(&self, variation: u32) -> (r: Option<u32>)
        ensures
            r == (if (variation as int) < self.nexts().len() {
                Some(self.nexts()[variation as int])
            } else {
                None::<u32>
            }),
    {
        if self.next_board.len() > variation as usize {
            Some(self.next_board[variation as usize])
        } else {
            None
        }
    }

    /// All continuations of this position, in creation order.
    pub fn get_next_boards(&self) -> (r: Vec<u32>)
        ensures
            r@ == self.nexts(),
    {
        copy_vec(&self.next_board)
    }

    /// The move that produced this position. Only positions derived by a
    /// numbered move have one; the root does not.
    pub fn get_last_move(&self) -> (m: Move)
        requires
            self.wf(),
            self.spec_move_number() >= 1,
        ensures
            m == self.spec_moves().last(),
            m.move_number == self.spec_move_number(),
    {
        self.moves[self.moves.len() - 1]
    }

    /// How many continuations this position has.
    pub fn get_variation_count(&self) -> (n: u32)
        requires
            self.nexts().len() <= u32::MAX,
        ensures
            n == self.nexts().len(),
    {
        self.next_board.len() as u32
    }

    /// The move with the given number along this position's line, if any.
    pub fn get_move(&self, number: u32) -> (m: Option<Move>)
        requires
            self.wf(),
        ensures
            m == (if 1 <= number <= self.spec_moves().len() {
                Some(self.spec_moves()[number - 1])
            } else {
                None::<Move>
            }),
    {
        if number >= 1 && (number as usize) <= self.moves.len() {
            Some(self.moves[(number - 1) as usize])
        } else {
            None
        }
    }

    /// The state of cell (r, c), or `OutOfRange` for a coordinate off the grid.
    pub fn get_point(&self, r: u32, c: u32) -> (res: Result<PointState, Error>)
        requires
            self.wf(),
        ensures
            res == (if in_bounds(self.spec_size() as int, r as int, c as int) {
                Ok::<PointState, Error>(cell(self.grid(), self.spec_size() as int, r as int, c as int))
            } else {
                Err::<PointState, Error>(Error::OutOfRange)
            }),
    {
        if r < self.size && c < self.size {
            Ok(self.read_cell(r, c))
        } else {
            Err(Error::OutOfRange)
        }
    }

    /// Reads one in-bounds cell of the grid.
    fn read_cell(&self, r: u32, c: u32) -> (p: PointState)
        requires
            self.wf(),
            in_bounds(self.spec_size() as int, r as int, c as int),
        ensures
            p == cell(self.grid(), self.spec_size() as int, r as int, c as int),
    {
        proof {
            lemma_gidx_bounds(self.spec_size() as int, r as int, c as int);
        }
        let n = self.points.len();
        let i: usize = (r as usize) * (self.size as usize) + (c as usize);
        self.points[i]
    }

    /// A field-for-field copy of this board.
    pub fn clone_board(&self) -> (b: Board)
        ensures
            board_eq(*self, b),
    {
        Board {
            size: self.size,
            points: copy_vec(&self.points),
            prev_board: self.prev_board,
            next_board: copy_vec(&self.next_board),
            move_number: self.move_number,
            moves: copy_vec(&self.moves),
        }
    }

    /// A plain-text dump of the grid: one line per row, each cell rendered
    /// as three characters, X for Black, O for White, a dot for empty.
    pub fn to_ascii(&self) -> (out: String)
        requires
            self.wf(),
        ensures
            out@ == ascii_board(self.grid(), self.spec_size() as int),
    {
        let ghost g = self.grid();
        let ghost s = self.spec_size() as int;
        let size = self.size;
        let mut out = String::new();
        let mut r: u32 = 0;
        while r < size
            invariant
                self.wf(),
                self.size == size,
                g == self.grid(),
                s == size as int,
                r <= size,
                out@ == ascii_rows_prefix(g, s, r as int),
            decreases size - r,
        {
            let mut c: u32 = 0;
            while c < size
                invariant
                    self.wf(),
                    self.size == size,
                    g == self.grid(),
                    s == size as int,
                    r < size,
                    c <= size,
                    out@ == ascii_rows_prefix(g, s, r as int) + ascii_row_prefix(g, s, r as int, c as int),
                decreases size - c,
            {
                let p = self.read_cell(r, c);
                match p {
                    PointState::Filled { move_number: _, stone_color: Color::Black } => {
                        out.append("X  ");
                        proof {
                            reveal_strlit("X  ");
                            assert("X  "@ =~= ascii_cell(cell(g, s, r as int, c as int)));
                        }
                    },
                    PointState::Filled { move_number: _, stone_color: Color::White } => {
                        out.append("O  ");
                        proof {
                            reveal_strlit("O  ");
                            assert("O  "@ =~= ascii_cell(cell(g, s, r as int, c as int)));
                        }
                    },
                    PointState::Empty => {
                        out.append(".  ");
                        proof {
                            reveal_strlit(".  ");
                            assert(".  "@ =~= ascii_cell(cell(g, s, r as int, c as int)));
                        }
                    },
                }
                proof {
                    assert(out@ =~= ascii_rows_prefix(g, s, r as int) + ascii_row_prefix(
                        g,
                        s,
                        r as int,
                        c as int + 1,
                    ));
                }
                c = c + 1;
            }
            out.append("\n");
            proof {
                reveal_strlit("\n");
                assert("\n"@ =~= seq!['\n']);
                assert(out@ =~= ascii_rows_prefix(g, s, r as int + 1));
            }
            r = r + 1;
        }
        out
    }

    /// Places a setup stone carrying no move number (a handicap stone), then
    /// runs the capture pass; a setup stone too can capture a surrounded
    /// enemy group. On failure the board is left exactly as it was.
    pub fn add_stone(&mut self, intersection: Intersection, stone_color: Color) -> (res: Result<(), Error>)
        requires
            old(self).wf(),
        ensures
            final(self).wf(),
            final(self).spec_size() == old(self).spec_size(),
            final(self).spec_prev() == old(self).spec_prev(),
            final(self).nexts() == old(self).nexts(),
            final(self).spec_move_number() == old(self).spec_move_number(),
            final(self).spec_moves() == old(self).spec_moves(),
            match res {
                Ok(()) => {
                    &&& in_bounds(old(self).spec_size() as int, intersection.row as int, intersection.col as int)
                    &&& cell(
                        old(self).grid(),
                        old(self).spec_size() as int,
                        intersection.row as int,
                        intersection.col as int,
                    ) is Empty
                    &&& capture_ok(
                        old(self).grid().update(
                            gidx(old(self).spec_size() as int, intersection.row as int, intersection.col as int),
                            PointState::Filled { move_number: 0, stone_color },
                        ),
                        final(self).grid(),
                        old(self).spec_size() as int,
                        stone_color,
                    )
                    &&& cell(
                        final(self).grid(),
                        old(self).spec_size() as int,
                        intersection.row as int,
                        intersection.col as int,
                    ) == (PointState::Filled { move_number: 0, stone_color })
                },
                Err(Error::OutOfRange) => !in_bounds(
                    old(self).spec_size() as int,
                    intersection.row as int,
                    intersection.col as int,
                ) && *final(self) == *old(self),
                Err(Error::PointOccupied) => in_bounds(
                    old(self).spec_size() as int,
                    intersection.row as int,
                    intersection.col as int,
                ) && cell(
                    old(self).grid(),
                    old(self).spec_size() as int,
                    intersection.row as int,
                    intersection.col as int,
                ) is Filled && *final(self) == *old(self),
                _ => false,
            },
    {
        self.put_stone(intersection, stone_color, 0)
    }

    /// Places the next numbered stone, records it in the move record, then
    /// runs the capture pass. On failure the board is left exactly as it was.
    pub fn place_stone(&mut self, intersection: Intersection, stone_color: Color) -> (res: Result<(), Error>)
        requires
            old(self).wf(),
            old(self).spec_move_number() < u32::MAX,
        ensures
            final(self).wf(),
            final(self).spec_size() == old(self).spec_size(),
            final(self).spec_prev() == old(self).spec_prev(),
            final(self).nexts() == old(self).nexts(),
            match res {
                Ok(()) => {
                    &&& in_bounds(old(self).spec_size() as int, intersection.row as int, intersection.col as int)
                    &&& cell(
                        old(self).grid(),
                        old(self).spec_size() as int,
                        intersection.row as int,
                        intersection.col as int,
                    ) is Empty
                    &&& final(self).spec_move_number() == old(self).spec_move_number() + 1
                    &&& final(self).spec_moves() == old(self).spec_moves().push(
                        Move {
                            move_number: (old(self).spec_move_number() + 1) as u32,
                            intersection,
                            color: stone_color,
                        },
                    )
                    &&& capture_ok(
                        old(self).grid().update(
                            gidx(old(self).spec_size() as int, intersection.row as int, intersection.col as int),
                            PointState::Filled {
                                move_number: (old(self).spec_move_number() + 1) as u32,
                                stone_color,
                            },
                        ),
                        final(self).grid(),
                        old(self).spec_size() as int,
                        stone_color,
                    )
                    &&& cell(
                        final(self).grid(),
                        old(self).spec_size() as int,
                        intersection.row as int,
                        intersection.col as int,
                    ) == (PointState::Filled {
                        move_number: (old(self).spec_move_number() + 1) as u32,
                        stone_color,
                    })
                },
                Err(Error::OutOfRange) => !in_bounds(
                    old(self).spec_size() as int,
                    intersection.row as int,
                    intersection.col as int,
                ) && *final(self) == *old(self),
                Err(Error::PointOccupied) => in_bounds(
                    old(self).spec_size() as int,
                    intersection.row as int,
                    intersection.col as int,
                ) && cell(
                    old(self).grid(),
                    old(self).spec_size() as int,
                    intersection.row as int,
                    intersection.col as int,
                ) is Filled && *final(self) == *old(self),
                _ => false,
            },
    {
        let number = self.move_number + 1;
        let res = self.put_stone(intersection, stone_color, number);
        if res.is_ok() {
            self.move_number = number;
            self.moves.push(Move { move_number: number, intersection, color: stone_color });
        }
        res
    }

    /// The shared body of stone placement: validates the target cell, fills
    /// it with the given move number, and runs the capture pass.
    fn put_stone(&mut self, intersection: Intersection, stone_color: Color, number: u32) -> (res: Result<(), Error>)
        requires
            old(self).wf(),
        ensures
            final(self).wf(),
            final(self).spec_size() == old(self).spec_size(),
            final(self).spec_prev() == old(self).spec_prev(),
            final(self).nexts() == old(self).nexts(),
            final(self).spec_move_number() == old(self).spec_move_number(),
            final(self).spec_moves() == old(self).spec_moves(),
            match res {
                Ok(()) => {
                    &&& in_bounds(old(self).spec_size() as int, intersection.row as int, intersection.col as int)
                    &&& cell(
                        old(self).grid(),
                        old(self).spec_size() as int,
                        intersection.row as int,
                        intersection.col as int,
                    ) is Empty
                    &&& capture_ok(
                        old(self).grid().update(
                            gidx(old(self).spec_size() as int, intersection.row as int, intersection.col as int),
                            PointState::Filled { move_number: number, stone_color },
                        ),
                        final(self).grid(),
                        old(self).spec_size() as int,
                        stone_color,
                    )
                    &&& cell(
                        final(self).grid(),
                        old(self).spec_size() as int,
                        intersection.row as int,
                        intersection.col as int,
                    ) == (PointState::Filled { move_number: number, stone_color })
                },
                Err(Error::OutOfRange) => !in_bounds(
                    old(self).spec_size() as int,
                    intersection.row as int,
                    intersection.col as int,
                ) && *final(self) == *old(self),
                Err(Error::PointOccupied) => in_bounds(
                    old(self).spec_size() as int,
                    intersection.row as int,
                    intersection.col as int,
                ) && cell(
                    old(self).grid(),
                    old(self).spec_size() as int,
                    intersection.row as int,
                    intersection.col as int,
                ) is Filled && *final(self) == *old(self),
                _ => false,
            },
    {
        let ghost s = self.size as int;
        if !(intersection.row < self.size && intersection.col < self.size) {
            return Err(Error::OutOfRange);
        }
        let r = intersection.row;
        let c = intersection.col;
        proof {
            lemma_gidx_bounds(s, r as int, c as int);
            assert((r as int) * (self.size as int) + (c as int) == gidx(s, r as int, c as int));
        }
        let n = self.points.len();
        let i: usize = (r as usize) * (self.size as usize) + (c as usize);
        match self.points[i] {
            PointState::Filled { .. } => Err(Error::PointOccupied),
            PointState::Empty => {
                self.points.set(i, PointState::Filled { move_number: number, stone_color });
                let ghost mid = self.points@;
                self.remove_captures(stone_color);
                proof {
                    lemma_cell_update(
                        old(self).grid(),
                        s,
                        r as int,
                        c as int,
                        PointState::Filled { move_number: number, stone_color },
                        r as int,
                        c as int,
                    );
                    // The just-placed stone has the placed colour, so the
                    // capture pass never removes it.
                    assert(cell(mid, s, r as int, c as int) == (PointState::Filled { move_number: number, stone_color }));
                    assert(!captured_cell(mid, s, stone_color, r as int, c as int));
                    assert(cell(self.grid(), s, r as int, c as int) == cell(mid, s, r as int, c as int));
                }
                Ok(())
            },
        }
    }

    /// The capture pass: walks the whole grid once, gathers each maximal
    /// group, and empties every opposing group whose liberty count is zero.
    /// It analyses a snapshot of the grid, so the groups and liberties it
    /// judges are those of the board state right after the placement.
    fn remove_captures(&mut self, placed_stone_color: Color)
        requires
            old(self).wf(),
        ensures
            final(self).wf(),
            capture_ok(old(self).grid(), final(self).grid(), old(self).spec_size() as int, placed_stone_color),
            final(self).spec_size() == old(self).spec_size(),
            final(self).spec_prev() == old(self).spec_prev(),
            final(self).nexts() == old(self).nexts(),
            final(self).spec_move_number() == old(self).spec_move_number(),
            final(self).spec_moves() == old(self).spec_moves(),
    {
        let ghost s = self.size as int;
        let ghost orig = self.points@;
        let size = self.size;
        let n = self.points.len();
        let orig_points = copy_vec(&self.points);
        let mut visited: Vec<bool> = Vec::new();
        while visited.len() < n
            invariant
                visited@.len() <= n,
                forall|k: int| 0 <= k < visited@.len() ==> !(#[trigger] visited@[k]),
            decreases n - visited@.len(),
        {
            visited.push(false);
        }
        proof {
            assert forall|r0: int, c0: int| in_bounds(s, r0, c0) implies !visited@[gidx(s, r0, c0)] by {
                lemma_gidx_bounds(s, r0, c0);
            }
        }
        let mut r: u32 = 0;
        while r < size
            invariant
                self.wf(),
                self.size == size,
                s == size as int,
                orig == old(self).grid(),
                orig.len() == s * s,
                orig_points@ == orig,
                self.points@.len() == s * s,
                visited@.len() == s * s,
                self.prev_board == old(self).spec_prev(),
                self.next_board@ == old(self).nexts(),
                self.move_number == old(self).spec_move_number(),
                self.moves@ == old(self).spec_moves(),
                r <= size,
                s * s <= usize::MAX as int,
                visited_closed(orig, s, visited@),
                forall|r0: int, c0: int|
                    in_bounds(s, r0, c0) && r0 < r as int && cell(orig, s, r0, c0) is Filled
                        ==> #[trigger] visited@[gidx(s, r0, c0)],
                forall|r0: int, c0: int|
                    in_bounds(s, r0, c0) ==> #[trigger] cell(self.points@, s, r0, c0) == (if visited@[gidx(
                        s,
                        r0,
                        c0,
                    )] && captured_cell(orig, s, placed_stone_color, r0, c0) {
                        PointState::Empty
                    } else {
                        cell(orig, s, r0, c0)
                    }),
            decreases size - r,
        {
            let mut c: u32 = 0;
            while c < size
                invariant
                    self.wf(),
                    self.size == size,
                    s == size as int,
                    orig == old(self).grid(),
                    orig.len() == s * s,
                    orig_points@ == orig,
                    self.points@.len() == s * s,
                    visited@.len() == s * s,
                    self.prev_board == old(self).spec_prev(),
                    self.next_board@ == old(self).nexts(),
                    self.move_number == old(self).spec_move_number(),
                    self.moves@ == old(self).spec_moves(),
                    r < size,
                    c <= size,
                    s * s <= usize::MAX as int,
                    visited_closed(orig, s, visited@),
                    forall|r0: int, c0: int|
                        in_bounds(s, r0, c0) && (r0 < r as int || (r0 == r as int && c0 < c as int))
                            && cell(orig, s, r0, c0) is Filled ==> #[trigger] visited@[gidx(s, r0, c0)],
                    forall|r0: int, c0: int|
                        in_bounds(s, r0, c0) ==> #[trigger] cell(self.points@, s, r0, c0) == (if visited@[gidx(
                            s,
                            r0,
                            c0,
                        )] && captured_cell(orig, s, placed_stone_color, r0, c0) {
                            PointState::Empty
                        } else {
                            cell(orig, s, r0, c0)
                        }),
                decreases size - c,
            {
                proof {
                    lemma_gidx_bounds(s, r as int, c as int);
                    assert((r as int) * (size as int) + (c as int) == gidx(s, r as int, c as int));
                }
                let i: usize = (r as usize) * (size as usize) + (c as usize);
                let p = orig_points[i];
                proof {
                    assert(p == cell(orig, s, r as int, c as int));
                }
                match p {
                    PointState::Empty => {},
                    PointState::Filled { move_number: _, stone_color } => {
                        if !visited[i] {
                            let (members, has_lib) = flood_fill(
                                &orig_points,
                                size,
                                r,
                                c,
                                stone_color,
                                &mut visited,
                            );
                            proof {
                                lemma_connected_refl(orig, s, stone_color, r as int, c as int);
                                assert(mem_in(members@, r as int, c as int));
                            }
                            if !has_lib && !color_eq(placed_stone_color, stone_color) {
                                // The whole opposing group is removed at once.
                                let ghost before_clear = self.points@;
                                let mut j: usize = 0;
                                while j < members.len()
                                    invariant
                                        j <= members@.len(),
                                        self.size == size,
                                        s == size as int,
                                        self.points@.len() == s * s,
                                        self.prev_board == old(self).spec_prev(),
                                        self.next_board@ == old(self).nexts(),
                                        self.move_number == old(self).spec_move_number(),
                                        self.moves@ == old(self).spec_moves(),
                                        self.wf(),
                                        s * s <= usize::MAX as int,
                                        before_clear.len() == s * s,
                                        forall|k: int|
                                            0 <= k < members@.len() ==> in_bounds(
                                                s,
                                                (#[trigger] members@[k]).0 as int,
                                                members@[k].1 as int,
                                            ),
                                        forall|r0: int, c0: int|
                                            in_bounds(s, r0, c0) ==> #[trigger] cell(self.points@, s, r0, c0)
                                                == (if mem_in(members@.take(j as int), r0, c0) {
                                                PointState::Empty
                                            } else {
                                                cell(before_clear, s, r0, c0)
                                            }),
                                    decreases members@.len() - j,
                                {
                                    let (qr, qc) = members[j];
                                    proof {
                                        assert(members@[j as int] == (qr, qc));
                                        lemma_gidx_bounds(s, qr as int, qc as int);
                                        assert((qr as int) * (size as int) + (qc as int) == gidx(
                                            s,
                                            qr as int,
                                            qc as int,
                                        ));
                                    }
                                    let qi: usize = (qr as usize) * (size as usize) + (qc as usize);
                                    let ghost pts0 = self.points@;
                                    self.points.set(qi, PointState::Empty);
                                    proof {
                                        assert forall|r0: int, c0: int| in_bounds(s, r0, c0) implies #[trigger] cell(
                                            self.points@,
                                            s,
                                            r0,
                                            c0,
                                        ) == (if mem_in(members@.take(j as int + 1), r0, c0) {
                                            PointState::Empty
                                        } else {
                                            cell(before_clear, s, r0, c0)
                                        }) by {
                                            lemma_cell_update(pts0, s, qr as int, qc as int, PointState::Empty, r0, c0);
                                            assert(members@.take(j as int + 1)
                                                =~= members@.take(j as int).push((qr, qc)));
                                            lemma_mem_in_push_iff(members@.take(j as int), (qr, qc), r0, c0);
                                        }
                                    }
                                    j = j + 1;
                                }
                                proof {
                                    assert(members@.take(members@.len() as int) =~= members@);
                                    assert forall|r0: int, c0: int| in_bounds(s, r0, c0) implies #[trigger] cell(
                                        self.points@,
                                        s,
                                        r0,
                                        c0,
                                    ) == (if visited@[gidx(s, r0, c0)] && captured_cell(
                                        orig,
                                        s,
                                        placed_stone_color,
                                        r0,
                                        c0,
                                    ) {
                                        PointState::Empty
                                    } else {
                                        cell(orig, s, r0, c0)
                                    }) by {
                                        if mem_in(members@, r0, c0) {
                                            let k = choose|k: int|
                                                0 <= k < members@.len() && (#[trigger] members@[k]).0 == r0
                                                    && members@[k].1 == c0;
                                            assert(filled_with(cell(orig, s, r0, c0), stone_color));
                                            lemma_group_liberty_shared(
                                                orig,
                                                s,
                                                stone_color,
                                                r as int,
                                                c as int,
                                                r0,
                                                c0,
                                            );
                                            assert(captured_cell(orig, s, placed_stone_color, r0, c0));
                                        }
                                    }
                                }
                            } else {
                                proof {
                                    assert forall|r0: int, c0: int| in_bounds(s, r0, c0) implies #[trigger] cell(
                                        self.points@,
                                        s,
                                        r0,
                                        c0,
                                    ) == (if visited@[gidx(s, r0, c0)] && captured_cell(
                                        orig,
                                        s,
                                        placed_stone_color,
                                        r0,
                                        c0,
                                    ) {
                                        PointState::Empty
                                    } else {
                                        cell(orig, s, r0, c0)
                                    }) by {
                                        if mem_in(members@, r0, c0) {
                                            let k = choose|k: int|
                                                0 <= k < members@.len() && (#[trigger] members@[k]).0 == r0
                                                    && members@[k].1 == c0;
                                            assert(filled_with(cell(orig, s, r0, c0), stone_color));
                                            if has_lib {
                                                lemma_group_liberty_shared(
                                                    orig,
                                                    s,
                                                    stone_color,
                                                    r as int,
                                                    c as int,
                                                    r0,
                                                    c0,
                                                );
                                                assert(!captured_cell(orig, s, placed_stone_color, r0, c0));
                                            } else {
                                                assert(filled_with(cell(orig, s, r0, c0), stone_color));
                                                assert(!captured_cell(orig, s, placed_stone_color, r0, c0));
                                            }
                                        }
                                    }
                                }
                            }
                        }
                    },
                }
                c = c + 1;
            }
            r = r + 1;
        }
        proof {
            assert forall|r0: int, c0: int| in_bounds(s, r0, c0) implies #[trigger] cell(self.points@, s, r0, c0)
                == (if captured_cell(orig, s, placed_stone_color, r0, c0) {
                PointState::Empty
            } else {
                cell(orig, s, r0, c0)
            }) by {
                if cell(orig, s, r0, c0) is Filled {
                    assert(visited@[gidx(s, r0, c0)]);
                } else {
                    assert(!captured_cell(orig, s, placed_stone_color, r0, c0));
                }
            }
        }
    }
}

/// How many cells of a grid hold a stone of colour col.
pub open spec fn count_stones(g: Seq<PointState>, col: Color) -> int
    decreases g.len(),
{
    if g.len() == 0 {
        0
    } else {
        count_stones(g.drop_last(), col) + (if filled_with(g.last(), col) {
            1int
        } else {
            0int
        })
    }
}

/// Taking away exactly one col stone lowers the col stone count by one.
proof fn lemma_count_stones_one_removed(before: Seq<PointState>, after: Seq<PointState>, col: Color, i: int)
    requires
        after.len() == before.len(),
        0 <= i < before.len(),
        filled_with(before[i], col),
        !filled_with(after[i], col),
        forall|k: int| 0 <= k < before.len() && k != i ==> after[k] == before[k],
    ensures
        count_stones(after, col) == count_stones(before, col) - 1,
    decreases before.len(),
{
    if i == before.len() - 1 {
        assert(after.drop_last() =~= before.drop_last());
        assert(count_stones(after.drop_last(), col) == count_stones(before.drop_last(), col));
    } else {
        assert(after.last() == before.last());
        assert forall|k: int| 0 <= k < before.drop_last().len() && k != i implies after.drop_last()[k]
            == before.drop_last()[k] by {
            assert(after[k] == before[k]);
        }
        lemma_count_stones_one_removed(before.drop_last(), after.drop_last(), col, i);
    }
}

/// Every in-grid flat index addresses one in-bounds cell.
proof fn lemma_flat_to_coords(size: int, k: int)
    requires
        size > 0,
        0 <= k < size * size,
    ensures
        in_bounds(size, k / size, k % size),
        gidx(size, k / size, k % size) == k,
{
    assert(0 <= k / size < size && 0 <= k % size < size && (k / size) * size + (k % size) == k)
        by (nonlinear_arith)
        requires
            size > 0,
            0 <= k < size * size,
    ;
}

/// A group of stones sharing liberties is captured atomically: one capture
/// pass removes either every stone of the group or none of it, because the
/// liberty count is judged over the whole group, never per stone.
pub proof fn lemma_group_captured_atomically(
    before: Seq<PointState>,
    after: Seq<PointState>,
    size: int,
    placed: Color,
    col: Color,
    r1: int,
    c1: int,
    r2: int,
    c2: int,
)
    requires
        capture_ok(before, after, size, placed),
        connected(before, size, col, r1, c1, r2, c2),
    ensures
        captured_cell(before, size, placed, r1, c1) <==> captured_cell(before, size, placed, r2, c2),
        cell(after, size, r1, c1) is Empty <==> cell(after, size, r2, c2) is Empty,
{
    let path = choose|path: Seq<(int, int)>|
        #[trigger] stone_path(before, size, col, path) && path.first() == (r1, c1) && path.last() == (r2, c2);
    assert(path[0] == (r1, c1) && path[path.len() - 1] == (r2, c2));
    assert(in_bounds(size, r1, c1) && filled_with(cell(before, size, r1, c1), col));
    assert(in_bounds(size, r2, c2) && filled_with(cell(before, size, r2, c2), col));
    lemma_group_liberty_shared(before, size, col, r1, c1, r2, c2);
    assert(cell(after, size, r1, c1) == (if captured_cell(before, size, placed, r1, c1) {
        PointState::Empty
    } else {
        cell(before, size, r1, c1)
    }));
    assert(cell(after, size, r2, c2) == (if captured_cell(before, size, placed, r2, c2) {
        PointState::Empty
    } else {
        cell(before, size, r2, c2)
    }));
}

/// A lone stone whose in-bounds neighbours all hold opposing stones forms a
/// group of one with no liberty, so the capture pass run for the opposing
/// colour removes it.
pub proof fn lemma_surrounded_stone_captured(
    before: Seq<PointState>,
    after: Seq<PointState>,
    size: int,
    placed: Color,
    r: int,
    c: int,
)
    requires
        capture_ok(before, after, size, placed),
        in_bounds(size, r, c),
        cell(before, size, r, c) is Filled,
        cell(before, size, r, c)->stone_color != placed,
        forall|r2: int, c2: int|
            #[trigger] adjacent(r, c, r2, c2) && in_bounds(size, r2, c2) ==> filled_with(
                cell(before, size, r2, c2),
                placed,
            ),
    ensures
        captured_cell(before, size, placed, r, c),
        cell(after, size, r, c) is Empty,
{
    let col = cell(before, size, r, c)->stone_color;
    assert(filled_with(cell(before, size, r, c), col));
    if group_has_liberty(before, size, col, r, c) {
        let (qr, qc) = choose|qr: int, qc: int|
            #[trigger] connected(before, size, col, r, c, qr, qc) && has_liberty_at(before, size, qr, qc);
        // The stone's group is just itself: every in-bounds neighbour holds
        // the other colour.
        let sset = Set::new(|p: (int, int)| p == (r, c));
        assert(closed_group_set(before, size, col, sset)) by {
            assert forall|ar: int, ac: int, br: int, bc: int|
                #![trigger sset.contains((ar, ac)), adjacent(ar, ac, br, bc)]
                sset.contains((ar, ac)) && in_bounds(size, br, bc) && adjacent(ar, ac, br, bc) && filled_with(
                    cell(before, size, br, bc),
                    col,
                ) implies sset.contains((br, bc)) by {
                assert((ar, ac) == (r, c));
                assert(adjacent(r, c, br, bc));
                assert(filled_with(cell(before, size, br, bc), placed));
            }
        }
        assert(sset.contains((r, c)));
        lemma_component_in_closed_set(before, size, col, sset, r, c, qr, qc);
        assert((qr, qc) == (r, c));
        let (lr, lc) = choose|lr: int, lc: int|
            in_bounds(size, lr, lc) && #[trigger] adjacent(qr, qc, lr, lc) && cell(before, size, lr, lc) is Empty;
        assert(adjacent(r, c, lr, lc));
        assert(filled_with(cell(before, size, lr, lc), placed));
    }
    assert(captured_cell(before, size, placed, r, c));
    assert(cell(after, size, r, c) == (if captured_cell(before, size, placed, r, c) {
        PointState::Empty
    } else {
        cell(before, size, r, c)
    }));
}

/// When a capture pass removes one surrounded lone stone of colour col and
/// every other col group still has a liberty, the count of col stones on the
/// board goes down by exactly one. Without the last premise the law fails:
/// one placement can suffocate several opposing groups at once.
pub proof fn lemma_capture_single_stone_count(
    before: Seq<PointState>,
    after: Seq<PointState>,
    size: int,
    placed: Color,
    col: Color,
    r: int,
    c: int,
)
    requires
        capture_ok(before, after, size, placed),
        before.len() == size * size,
        in_bounds(size, r, c),
        col != placed,
        filled_with(cell(before, size, r, c), col),
        forall|r2: int, c2: int|
            #[trigger] adjacent(r, c, r2, c2) && in_bounds(size, r2, c2) ==> filled_with(
                cell(before, size, r2, c2),
                placed,
            ),
        forall|r2: int, c2: int|
            in_bounds(size, r2, c2) && !(r2 == r && c2 == c) && #[trigger] filled_with(
                cell(before, size, r2, c2),
                col,
            ) ==> group_has_liberty(before, size, col, r2, c2),
    ensures
        count_stones(after, col) == count_stones(before, col) - 1,
{
    lemma_surrounded_stone_captured(before, after, size, placed, r, c);
    lemma_gidx_bounds(size, r, c);
    let i = gidx(size, r, c);
    assert(cell(after, size, r, c) is Empty);
    assert(!filled_with(after[i], col));
    assert(filled_with(before[i], col));
    assert forall|k: int| 0 <= k < before.len() && k != i implies after[k] == before[k] by {
        lemma_flat_to_coords(size, k);
        let r2 = k / size;
        let c2 = k % size;
        if !(r2 == r && c2 == c) {
            assert(cell(after, size, r2, c2) == (if captured_cell(before, size, placed, r2, c2) {
                PointState::Empty
            } else {
                cell(before, size, r2, c2)
            }));
            if captured_cell(before, size, placed, r2, c2) {
                // A captured cell holds a stone that is not the placed
                // colour; with two colours that stone is col, yet every col
                // group away from (r, c) still has a liberty.
                let sc = cell(before, size, r2, c2)->stone_color;
                assert(sc == col) by {
                    if sc != col {
                        assert(sc == placed);
                    }
                }
                assert(filled_with(cell(before, size, r2, c2), col));
                assert(group_has_liberty(before, size, col, r2, c2));
                assert(false);
            }
        } else {
            lemma_gidx_injective(size, r, c, r2, c2);
        }
    }
    lemma_count_stones_one_removed(before, after, col, i);
}

/// An element-for-element copy of a vector of plain values.
fn copy_vec<T: Copy>(v: &Vec<T>) -> (r: Vec<T>)
    ensures
        r@ == v@,
{
    let mut r: Vec<T> = Vec::new();
    let mut k: usize = 0;
    while k < v.len()
        invariant
            k <= v@.len(),
            r@ == v@.take(k as int),
        decreases v@.len() - k,
    {
        r.push(v[k]);
        k = k + 1;
    }
    proof {
        assert(r@ =~= v@);
    }
    r
}

/// Every numbered stone on a grid is recorded: a nonzero move number on a
/// cell never exceeds the board's own move number, so it always appears as
/// a key of the board's move record, which holds moves 1 ..= move_number.
pub open spec fn numbers_recorded(g: Seq<PointState>, size: int, mn: int) -> bool {
    forall|r: int, c: int|
        in_bounds(size, r, c) ==> ((#[trigger] cell(g, size, r, c)) matches PointState::Filled {
            move_number,
            ..
        } ==> move_number == 0 || move_number <= mn)
}

/// Whether two boards agree on everything observable: the grid, the tree
/// links, the move number and the move record.
pub open spec fn board_eq(a: Board, b: Board) -> bool {
    &&& a.spec_size() == b.spec_size()
    &&& a.grid() == b.grid()
    &&& a.spec_prev() == b.spec_prev()
    &&& a.nexts() == b.nexts()
    &&& a.spec_move_number() == b.spec_move_number()
    &&& a.spec_moves() == b.spec_moves()
}

/// Whether the two colours are the same, usable from executable code.
fn color_eq(a: Color, b: Color) -> (r: bool)
    ensures
        r == (a == b),
{
    a == b
}

} // verus!
