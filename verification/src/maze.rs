use vstd::prelude::*;

use crate::{Maze, MazeIndex};

verus! {

// ---------------------------------------------------------------------------
// The grid model, in spec.
// ---------------------------------------------------------------------------

/// The grid as a mathematical sequence of rows.
pub open spec fn grid_view(rows: Seq<Vec<i32>>) -> Seq<Seq<i32>> {
    Seq::new(rows.len(), |i: int| rows[i]@)
}

/// A rectangular grid of at least one row and one column.
pub open spec fn grid_rect(g: Seq<Seq<i32>>) -> bool {
    &&& g.len() >= 1
    &&& g[0].len() >= 1
    &&& forall|i: int| 0 <= i < g.len() ==> #[trigger] g[i].len() == g[0].len()
}

/// `p` names a cell of the grid.
pub open spec fn pos_in_bounds(g: Seq<Seq<i32>>, p: (i32, i32)) -> bool {
    0 <= p.0 < g.len() && 0 <= p.1 < g[0].len()
}

/// The passability bitmask stored at cell `p`.
pub open spec fn mask_at(g: Seq<Seq<i32>>, p: (i32, i32)) -> i32 {
    g[p.0 as int][p.1 as int]
}

/// One legal move: `b` lies one cardinal step from `a`, the bit for that
/// direction is set in `a`'s mask, and `b` lies on the grid.
pub open spec fn step_allowed(g: Seq<Seq<i32>>, a: (i32, i32), b: (i32, i32)) -> bool {
    &&& pos_in_bounds(g, a)
    &&& pos_in_bounds(g, b)
    &&& ({
        ||| (mask_at(g, a) & 1 != 0 && b.0 == a.0 - 1 && b.1 == a.1)
        ||| (mask_at(g, a) & 2 != 0 && b.0 == a.0 && b.1 == a.1 + 1)
        ||| (mask_at(g, a) & 4 != 0 && b.0 == a.0 + 1 && b.1 == a.1)
        ||| (mask_at(g, a) & 8 != 0 && b.0 == a.0 && b.1 == a.1 - 1)
    })
}

/// A walk through the maze: the first entry is `a`, the last is `b`, and each
/// consecutive pair is a legal step.
pub open spec fn is_path(
    g: Seq<Seq<i32>>,
    p: Seq<(i32, i32)>,
    a: (i32, i32),
    b: (i32, i32),
) -> bool {
    &&& p.len() >= 1
    &&& p[0] == a
    &&& p.last() == b
    &&& pos_in_bounds(g, a)
    &&& forall|i: int| 0 <= i < p.len() - 1 ==> step_allowed(g, #[trigger] p[i], p[i + 1])
}

/// Manhattan distance between two positions.
pub open spec fn manhattan(a: (i32, i32), b: (i32, i32)) -> int {
    (vstd::math::abs(b.0 - a.0) + vstd::math::abs(b.1 - a.1)) as int
}

/// The start position of a maze, as a tuple.
pub open spec fn spec_start(m: Maze) -> (i32, i32) {
    (m.start.row, m.start.col)
}

/// The end position of a maze, as a tuple.
pub open spec fn spec_end(m: Maze) -> (i32, i32) {
    (m.end.row, m.end.col)
}

/// The grid of a maze, as a sequence of rows.
pub open spec fn spec_grid(m: Maze) -> Seq<Seq<i32>> {
    grid_view(m.rowsAndColumns@)
}

impl Maze {
    /// Well-formed input: a rectangular, non-empty grid, start and end on the
    /// grid, and few enough cells that every cost fits in an `i32`.
    pub open spec fn wf(&self) -> bool {
        &&& grid_rect(spec_grid(*self))
        &&& pos_in_bounds(spec_grid(*self), spec_start(*self))
        &&& pos_in_bounds(spec_grid(*self), spec_end(*self))
        &&& spec_grid(*self).len() * spec_grid(*self)[0].len() < 0x7fff_ffff
    }
}

/// On a grid, the Manhattan distance between two cells is below the cell
/// count.
proof fn lemma_manhattan_bound(g: Seq<Seq<i32>>, a: (i32, i32), b: (i32, i32))
    requires
        grid_rect(g),
        pos_in_bounds(g, a),
        pos_in_bounds(g, b),
    ensures
        0 <= manhattan(a, b) <= g.len() * g[0].len() - 1,
{
    let h = g.len() as int;
    let w = g[0].len() as int;
    assert((h - 1) + (w - 1) <= h * w - 1) by (nonlinear_arith)
        requires
            1 <= h,
            1 <= w,
    ;
}

/// The grid's dimensions never exceed its cell count.
proof fn lemma_dims_le_total(h: int, w: int)
    requires
        1 <= h,
        1 <= w,
    ensures
        h <= h * w,
        w <= h * w,
{
    assert(h <= h * w && w <= h * w) by (nonlinear_arith)
        requires
            1 <= h,
            1 <= w,
    ;
}

// ---------------------------------------------------------------------------
// Search nodes.
// ---------------------------------------------------------------------------

/// One search node: a grid position, the accumulated cost from the start,
/// the heuristic estimate to the goal, and the node it was expanded from.
/// Each node owns a full copy of its ancestor chain.
#[derive(Debug)]
pub struct MazeCell {
    pub h_cost: i32,
    pub g_cost: i32,
    pub index: (i32, i32),
    pub parent: Box<Option<MazeCell>>,
}

/// The positions along a node's ancestor chain, oldest first, ending with the
/// node's own position.
pub open spec fn chain_seq(c: MazeCell) -> Seq<(i32, i32)>
    decreases c,
{
    match *c.parent {
        Option::None => seq![c.index],
        Option::Some(p) => chain_seq(p).push(c.index),
    }
}

impl Clone for MazeCell {
    fn clone(&self) -> (r: Self)
        ensures
            r == *self,
        decreases *self,
    {
        MazeCell {
            h_cost: self.h_cost,
            g_cost: self.g_cost,
            index: self.index,
            parent: Box::new(
                match &*self.parent {
                    Some(p) => Some(p.clone()),
                    None => None,
                },
            ),
        }
    }
}

impl MazeCell {
    /// A fresh node at `index`: zero costs, no predecessor.
    pub fn from_index(index: (i32, i32)) -> (r: Self)
        ensures
            r.h_cost == 0,
            r.g_cost == 0,
            r.index == index,
            *r.parent is None,
    {
        MazeCell { h_cost: 0, g_cost: 0, index: index, parent: Box::new(None) }
    }

    /// The ordered positions from the chain's root to this node.
    pub fn get_path(&self) -> (r: Vec<(i32, i32)>)
        ensures
            r@ == chain_seq(*self),
        decreases *self,
    {
        match &*self.parent {
            Some(parent_cell) => {
                let mut path = parent_cell.get_path();
                path.push(self.index);
                path
            },
            None => {
                let mut path: Vec<(i32, i32)> = Vec::new();
                path.push(self.index);
                proof {
                    assert(path@ =~= seq![self.index]);
                }
                path
            },
        }
    }

    /// Manhattan distance between positions `a` and `b`.
    pub fn distance_fn(a: (i32, i32), b: (i32, i32)) -> (r: i32)
        requires
            manhattan(a, b) <= 0x7fff_ffff,
        ensures
            r == manhattan(a, b),
    {
        let dr: i32 = if b.0 >= a.0 { b.0 - a.0 } else { a.0 - b.0 };
        let dc: i32 = if b.1 >= a.1 { b.1 - a.1 } else { a.1 - b.1 };
        dr + dc
    }

    /// Set the heuristic to the Manhattan distance from `a` to `b`.
    /// Manhattan distance is an exact fit for cardinal-only movement.
    pub fn set_h_cost(&mut self, a: (i32, i32), b: (i32, i32))
        requires
            manhattan(a, b) <= 0x7fff_ffff,
        ensures
            final(self).h_cost == manhattan(a, b),
            final(self).g_cost == old(self).g_cost,
            final(self).index == old(self).index,
            final(self).parent == old(self).parent,
    {
        self.h_cost = MazeCell::distance_fn(a, b);
    }

    /// The node's total estimated cost, `f = g + h`.
    pub fn cost(&self) -> (r: i32)
        requires
            -0x8000_0000 <= self.h_cost + self.g_cost <= 0x7fff_ffff,
        ensures
            r == self.h_cost + self.g_cost,
    {
        self.h_cost + self.g_cost
    }

    /// The position as unsigned indexes, for grid lookup.
    pub fn as_usize_index(&self) -> (r: (usize, usize))
        requires
            self.index.0 >= 0,
            self.index.1 >= 0,
        ensures
            r.0 == self.index.0,
            r.1 == self.index.1,
    {
        (self.index.0 as usize, self.index.1 as usize)
    }
}

// ---------------------------------------------------------------------------
// Invariants of a search node's ancestor chain, and their consequences.
// ---------------------------------------------------------------------------

/// Every link of the chain is a legal step, `g_cost` counts the steps from
/// the chain's root, `h_cost` is the Manhattan distance to `dest`, and the
/// root is `start` with cost zero.
spec fn cell_inv(
    g: Seq<Seq<i32>>,
    start: (i32, i32),
    dest: (i32, i32),
    c: MazeCell,
) -> bool
    decreases c,
{
    &&& pos_in_bounds(g, c.index)
    &&& c.h_cost == manhattan(c.index, dest)
    &&& match *c.parent {
        Option::None => c.index == start && c.g_cost == 0,
        Option::Some(p) => cell_inv(g, start, dest, p) && step_allowed(g, p.index, c.index)
            && c.g_cost == p.g_cost + 1,
    }
}

/// No position repeats along the chain.
spec fn chain_distinct(c: MazeCell) -> bool
    decreases c,
{
    match *c.parent {
        Option::None => true,
        Option::Some(p) => chain_distinct(p) && !chain_seq(p).contains(c.index),
    }
}

/// Every ancestor's position lies in `closed`.
spec fn ancestors_closed(c: MazeCell, closed: Seq<(i32, i32)>) -> bool
    decreases c,
{
    match *c.parent {
        Option::None => true,
        Option::Some(p) => closed.contains(p.index) && ancestors_closed(p, closed),
    }
}

/// A chain that satisfies `cell_inv` spells out a path from `start` to the
/// node's position, one position per unit of `g_cost`.
proof fn lemma_chain_path(g: Seq<Seq<i32>>, start: (i32, i32), dest: (i32, i32), c: MazeCell)
    requires
        cell_inv(g, start, dest, c),
    ensures
        is_path(g, chain_seq(c), start, c.index),
        chain_seq(c).len() == c.g_cost + 1,
    decreases c,
{
    match *c.parent {
        Option::None => {
            assert(chain_seq(c) =~= seq![c.index]);
        },
        Option::Some(p) => {
            lemma_chain_path(g, start, dest, p);
            let pre = chain_seq(p);
            let whole = chain_seq(c);
            assert(whole == pre.push(c.index));
            assert(whole.last() == c.index);
            assert forall|i: int| 0 <= i < whole.len() - 1 implies #[trigger] step_allowed(
                g,
                whole[i],
                whole[i + 1],
            ) by {
                if i < pre.len() - 1 {
                    assert(whole[i] == pre[i] && whole[i + 1] == pre[i + 1]);
                    assert(step_allowed(g, pre[i], pre[i + 1]));
                } else {
                    assert(whole[i] == pre.last() && whole[i + 1] == c.index);
                }
            }
        },
    }
}

/// A chain whose positions never repeat yields a duplicate-free path.
proof fn lemma_chain_no_dup(c: MazeCell)
    requires
        chain_distinct(c),
    ensures
        chain_seq(c).no_duplicates(),
    decreases c,
{
    match *c.parent {
        Option::None => {},
        Option::Some(p) => {
            lemma_chain_no_dup(p);
            let pre = chain_seq(p);
            let whole = chain_seq(c);
            assert forall|i: int, j: int|
                0 <= i < whole.len() && 0 <= j < whole.len() && i != j implies whole[i]
                != whole[j] by {
                if i < pre.len() && j < pre.len() {
                    assert(whole[i] == pre[i] && whole[j] == pre[j]);
                } else if i < pre.len() {
                    assert(whole[i] == pre[i] && whole[j] == c.index);
                    assert(pre.contains(pre[i]));
                } else {
                    assert(whole[i] == c.index && whole[j] == pre[j]);
                    assert(pre.contains(pre[j]));
                }
            }
        },
    }
}

/// When the node's own position is in `closed` and so are its ancestors',
/// the whole chain lies in `closed`.
proof fn lemma_chain_in_closed(c: MazeCell, closed: Seq<(i32, i32)>)
    requires
        ancestors_closed(c, closed),
        closed.contains(c.index),
    ensures
        forall|i: int|
            0 <= i < chain_seq(c).len() ==> closed.contains(#[trigger] chain_seq(c)[i]),
    decreases c,
{
    match *c.parent {
        Option::None => {},
        Option::Some(p) => {
            lemma_chain_in_closed(p, closed);
            let pre = chain_seq(p);
            let whole = chain_seq(c);
            assert forall|i: int| 0 <= i < whole.len() implies closed.contains(
                #[trigger] whole[i],
            ) by {
                if i < pre.len() {
                    assert(whole[i] == pre[i]);
                } else {
                    assert(whole[i] == c.index);
                }
            }
        },
    }
}

/// `ancestors_closed` survives growing the closed set.
proof fn lemma_ancestors_closed_push(c: MazeCell, closed: Seq<(i32, i32)>, x: (i32, i32))
    requires
        ancestors_closed(c, closed),
    ensures
        ancestors_closed(c, closed.push(x)),
    decreases c,
{
    match *c.parent {
        Option::None => {},
        Option::Some(p) => {
            lemma_ancestors_closed_push(p, closed, x);
            lemma_contains_after_push(closed, x, p.index);
        },
    }
}

/// Pushing onto a sequence keeps every element it already contains.
proof fn lemma_contains_after_push<A>(s: Seq<A>, x: A, q: A)
    requires
        s.contains(q),
    ensures
        s.push(x).contains(q),
{
    let i = choose|i: int| 0 <= i < s.len() && s[i] == q;
    assert(s.push(x)[i] == q);
}

/// If a set of positions contains `a`, is closed under legal steps, and does
/// not contain `b`, then no walk `p` leads from `a` to `b`.
proof fn lemma_no_escape(
    g: Seq<Seq<i32>>,
    closed: Seq<(i32, i32)>,
    a: (i32, i32),
    b: (i32, i32),
    p: Seq<(i32, i32)>,
)
    requires
        closed.contains(a),
        !closed.contains(b),
        forall|c: (i32, i32), q: (i32, i32)|
            closed.contains(c) && #[trigger] step_allowed(g, c, q) ==> closed.contains(q),
    ensures
        !is_path(g, p, a, b),
    decreases p.len(),
{
    if is_path(g, p, a, b) {
        if p.len() == 1 {
            assert(a == b);
        } else {
            assert(step_allowed(g, p[0], p[1]));
            let rest = p.subrange(1, p.len() as int);
            assert(rest[0] == p[1]);
            assert(rest.last() == p.last());
            assert forall|i: int| 0 <= i < rest.len() - 1 implies #[trigger] step_allowed(
                g,
                rest[i],
                rest[i + 1],
            ) by {
                assert(rest[i] == p[i + 1] && rest[i + 1] == p[i + 2]);
                assert(step_allowed(g, p[i + 1], p[i + 2]));
            }
            lemma_no_escape(g, closed, p[1], b, rest);
            assert(is_path(g, rest, p[1], b));
        }
    }
}

/// Every walk from `a` to `b` has more entries than the Manhattan distance
/// between them: one cardinal step changes that distance by at most one, so
/// the heuristic never overestimates the steps that remain.
pub proof fn lemma_manhattan_lower_bound(
    g: Seq<Seq<i32>>,
    p: Seq<(i32, i32)>,
    a: (i32, i32),
    b: (i32, i32),
)
    requires
        is_path(g, p, a, b),
    ensures
        p.len() > manhattan(a, b),
    decreases p.len(),
{
    if p.len() == 1 {
        assert(a == b);
    } else {
        assert(step_allowed(g, p[0], p[1]));
        let rest = p.subrange(1, p.len() as int);
        assert(rest[0] == p[1]);
        assert(rest.last() == p.last());
        assert forall|i: int| 0 <= i < rest.len() - 1 implies step_allowed(
            g,
            #[trigger] rest[i],
            rest[i + 1],
        ) by {
            assert(rest[i] == p[i + 1] && rest[i + 1] == p[i + 2]);
            assert(step_allowed(g, p[i + 1], p[i + 2]));
        }
        lemma_manhattan_lower_bound(g, rest, p[1], b);
        assert(manhattan(a, b) <= manhattan(p[1], b) + 1);
    }
}

/// Distinct positions on an `h` by `w` grid number at most `h * w`.
proof fn lemma_positions_bound(s: Seq<(i32, i32)>, h: int, w: int)
    requires
        s.no_duplicates(),
        0 < h,
        0 < w,
        forall|i: int| 0 <= i < s.len() ==> 0 <= (#[trigger] s[i]).0 < h && 0 <= s[i].1 < w,
    ensures
        s.len() <= h * w,
{
    let enc = |p: (i32, i32)| p.0 * w + p.1;
    let t = s.map_values(enc);
    assert(t.no_duplicates()) by {
        assert forall|i: int, j: int|
            0 <= i < t.len() && 0 <= j < t.len() && i != j implies t[i] != t[j] by {
            let pi = s[i];
            let pj = s[j];
            if pi.0 * w + pi.1 == pj.0 * w + pj.1 {
                assert(pi.0 == pj.0 && pi.1 == pj.1) by (nonlinear_arith)
                    requires
                        0 <= pi.1 < w,
                        0 <= pj.1 < w,
                        pi.0 * w + pi.1 == pj.0 * w + pj.1,
                ;
                assert(s[i] == s[j]);
            }
        }
    }
    assert(t.to_set().subset_of(vstd::set_lib::set_int_range(0, h * w))) by {
        assert forall|e: int| t.to_set().contains(e) implies vstd::set_lib::set_int_range(
            0,
            h * w,
        ).contains(e) by {
            let i = choose|i: int| 0 <= i < t.len() && t[i] == e;
            let pi = s[i];
            assert(0 <= pi.0 * w + pi.1 < h * w) by (nonlinear_arith)
                requires
                    0 <= pi.0 < h,
                    0 <= pi.1 < w,
            ;
        }
    }
    vstd::set_lib::lemma_int_range(0, h * w);
    vstd::set_lib::lemma_len_subset(t.to_set(), vstd::set_lib::set_int_range(0, h * w));
    t.unique_seq_to_set();
}

// ---------------------------------------------------------------------------
// The grid model, executable.
// ---------------------------------------------------------------------------

/// The `(row, col)` pair of a `MazeIndex`.
pub fn index_to_tuple(idx: &MazeIndex) -> (r: (i32, i32))
    ensures
        r == (idx.row, idx.col),
{
    (idx.row, idx.col)
}

/// True when position `p` lies inside a grid of the given `(height, width)`.
pub fn is_in_bounds(p: (i32, i32), dims: (i32, i32)) -> (r: bool)
    ensures
        r == (p.1 >= 0 && p.0 >= 0 && p.1 < dims.1 && p.0 < dims.0),
{
    let (y, x) = p;
    let (height, width) = dims;
    x >= 0 && y >= 0 && x < width && y < height
}

/// True when `mask` has the bit for one cardinal direction set.
pub fn is_passable(mask: i32, direction: i32) -> (r: bool)
    ensures
        r == (mask & direction != 0),
{
    mask & direction != 0
}

/// The 0 to 4 neighbors of cell `pos` reachable in one step: a cardinal
/// neighbor is included exactly when the cell's mask has the bit for that
/// direction and the neighbor lies on the grid. A mask bit that points off
/// the grid is silently dropped. Each neighbor comes back as a fresh node
/// (zero costs, no predecessor), to be finalized by the search.
pub fn get_neighbors(pos: (usize, usize), maze: &Vec<Vec<i32>>) -> (r: Vec<MazeCell>)
    requires
        grid_rect(grid_view(maze@)),
        pos.0 < maze@.len(),
        pos.1 < maze@[0]@.len(),
        maze@.len() <= 0x7fff_ffff,
        maze@[0]@.len() <= 0x7fff_ffff,
    ensures
        forall|i: int|
            0 <= i < r@.len() ==> ((#[trigger] r@[i]).g_cost == 0 && r@[i].h_cost == 0
                && *r@[i].parent is None && step_allowed(
                grid_view(maze@),
                (pos.0 as i32, pos.1 as i32),
                r@[i].index,
            )),
        forall|q: (i32, i32)|
            #[trigger] step_allowed(grid_view(maze@), (pos.0 as i32, pos.1 as i32), q)
                ==> exists|i: int| 0 <= i < r@.len() && (#[trigger] r@[i]).index == q,
{
    let ghost g = grid_view(maze@);
    let ghost cur = (pos.0 as i32, pos.1 as i32);
    let (y, x) = pos;
    proof {
        assert(g[y as int] == maze@[y as int]@);
        assert(g[y as int].len() == g[0].len());
    }
    let current: i32 = maze[y][x];
    proof {
        assert(current == mask_at(g, cur));
    }
    let height: i32 = maze.len() as i32;
    let width: i32 = maze[0].len() as i32;
    let yi: i32 = y as i32;
    let xi: i32 = x as i32;
    let mut result: Vec<MazeCell> = Vec::new();

    if is_passable(current, 1) && is_in_bounds((yi - 1, xi), (height, width)) {
        result.push(MazeCell::from_index((yi - 1, xi)));
    }
    let ghost r_up = result@;
    if is_passable(current, 2) && is_in_bounds((yi, xi + 1), (height, width)) {
        result.push(MazeCell::from_index((yi, xi + 1)));
    }
    let ghost r_right = result@;
    if is_passable(current, 4) && is_in_bounds((yi + 1, xi), (height, width)) {
        result.push(MazeCell::from_index((yi + 1, xi)));
    }
    let ghost r_down = result@;
    if is_passable(current, 8) && is_in_bounds((yi, xi - 1), (height, width)) {
        result.push(MazeCell::from_index((yi, xi - 1)));
    }
    proof {
        assert forall|q: (i32, i32)| #[trigger] step_allowed(g, cur, q) implies exists|i: int|
            0 <= i < result@.len() && (#[trigger] result@[i]).index == q by {
            if mask_at(g, cur) & 1 != 0 && q.0 == cur.0 - 1 && q.1 == cur.1 {
                assert(result@[r_up.len() - 1].index == q);
            } else if mask_at(g, cur) & 2 != 0 && q.0 == cur.0 && q.1 == cur.1 + 1 {
                assert(result@[r_right.len() - 1].index == q);
            } else if mask_at(g, cur) & 4 != 0 && q.0 == cur.0 + 1 && q.1 == cur.1 {
                assert(result@[r_down.len() - 1].index == q);
            } else {
                assert(result@[result@.len() - 1].index == q);
            }
        }
    }
    result
}

// ---------------------------------------------------------------------------
// The search engine.
// ---------------------------------------------------------------------------

/// Linear scan for a position in a list of positions.
fn contains_pos(v: &Vec<(i32, i32)>, p: (i32, i32)) -> (r: bool)
    ensures
        r == v@.contains(p),
{
    let mut i: usize = 0;
    while i < v.len()
        invariant
            i <= v@.len(),
            forall|k: int| 0 <= k < i ==> v@[k] != p,
        decreases v@.len() - i,
    {
        if v[i].0 == p.0 && v[i].1 == p.1 {
            assert(v@[i as int] == p);
            return true;
        }
        i = i + 1;
    }
    false
}

/// Remove and return a node with minimal total cost `f = g + h` from the
/// frontier, so that the smallest estimate is always expanded next.
fn pop_min(open: &mut Vec<MazeCell>) -> (r: MazeCell)
    requires
        old(open)@.len() >= 1,
    ensures
        exists|i: int|
            (0 <= i < old(open)@.len() && r == old(open)@[i] && final(open)@ == old(
                open,
            )@.remove(i)),
        forall|j: int|
            0 <= j < old(open)@.len() ==> r.g_cost + r.h_cost <= (#[trigger] old(
                open,
            )@[j]).g_cost + old(open)@[j].h_cost,
{
    let mut best: usize = 0;
    let mut k: usize = 1;
    while k < open.len()
        invariant
            open@ == old(open)@,
            open@.len() >= 1,
            best < k,
            1 <= k <= open@.len(),
            forall|j: int|
                0 <= j < k ==> open@[best as int].g_cost + open@[best as int].h_cost
                    <= (#[trigger] open@[j]).g_cost + open@[j].h_cost,
        decreases open@.len() - k,
    {
        let fk: i64 = open[k].g_cost as i64 + open[k].h_cost as i64;
        let fb: i64 = open[best].g_cost as i64 + open[best].h_cost as i64;
        if fk < fb {
            best = k;
        }
        k = k + 1;
    }
    open.remove(best)
}

/// A* search over `maze`: returns the ordered positions of a path from start
/// to end (inclusive), or `None` when no path exists.
///
/// The frontier is expanded in ascending order of `f = g + h`; a position is
/// never re-opened or cost-relaxed after it first enters the frontier, an
/// intentional simplification that relies on every step costing one.
pub fn get_path(maze: &Maze) -> (r: Option<Vec<(i32, i32)>>)
    requires
        maze.wf(),
    ensures
        (match r {
            Option::Some(path) => is_path(
                spec_grid(*maze),
                path@,
                spec_start(*maze),
                spec_end(*maze),
            ) && path@.no_duplicates() && (spec_start(*maze) == spec_end(*maze) ==> path@ =~= seq![
                spec_start(*maze),
            ]),
            Option::None => forall|p: Seq<(i32, i32)>|
                !is_path(spec_grid(*maze), p, spec_start(*maze), spec_end(*maze)),
        }),
        spec_start(*maze) == spec_end(*maze) ==> r is Some,
{
    let ghost g = spec_grid(*maze);
    let ghost h = g.len() as int;
    let ghost w = g[0].len() as int;
    let ghost total = h * w;
    let destination = index_to_tuple(&maze.end);
    let start_t = index_to_tuple(&maze.start);

    let mut open: Vec<MazeCell> = Vec::new();
    let mut closed: Vec<(i32, i32)> = Vec::new();
    let mut marked: Vec<(i32, i32)> = Vec::new();

    let mut start_cell = MazeCell::from_index(start_t);
    proof {
        lemma_manhattan_bound(g, start_t, destination);
    }
    start_cell.set_h_cost(start_t, destination);
    open.push(start_cell);
    marked.push(start_t);
    proof {
        assert(marked@[0] == start_t);
        assert(cell_inv(g, start_t, destination, open@[0]));
    }

    while open.len() > 0
        invariant
            maze.wf(),
            g == spec_grid(*maze),
            h == g.len(),
            w == g[0].len(),
            total == h * w,
            destination == spec_end(*maze),
            start_t == spec_start(*maze),
            marked@.no_duplicates(),
            forall|i: int| 0 <= i < marked@.len() ==> pos_in_bounds(g, #[trigger] marked@[i]),
            marked@.contains(start_t),
            closed@.no_duplicates(),
            forall|i: int| 0 <= i < closed@.len() ==> pos_in_bounds(g, #[trigger] closed@[i]),
            forall|i: int| 0 <= i < closed@.len() ==> marked@.contains(#[trigger] closed@[i]),
            forall|i: int| 0 <= i < closed@.len() ==> #[trigger] closed@[i] != destination,
            forall|i: int, q: (i32, i32)|
                0 <= i < closed@.len() && #[trigger] step_allowed(g, closed@[i], q)
                    ==> marked@.contains(q),
            forall|i: int|
                0 <= i < marked@.len() ==> closed@.contains(#[trigger] marked@[i]) || exists|
                    j: int,
                |
                    0 <= j < open@.len() && (#[trigger] open@[j]).index == marked@[i],
            forall|j: int|
                0 <= j < open@.len() ==> cell_inv(g, start_t, destination, #[trigger] open@[j]),
            forall|j: int| 0 <= j < open@.len() ==> chain_distinct(#[trigger] open@[j]),
            forall|j: int|
                0 <= j < open@.len() ==> ancestors_closed(#[trigger] open@[j], closed@),
            forall|j: int|
                0 <= j < open@.len() ==> !closed@.contains((#[trigger] open@[j]).index),
            forall|j: int| 0 <= j < open@.len() ==> marked@.contains((#[trigger] open@[j]).index),
            forall|j: int| 0 <= j < open@.len() ==> (#[trigger] open@[j]).g_cost <= closed@.len(),
            forall|j1: int, j2: int|
                0 <= j1 < j2 < open@.len() ==> (#[trigger] open@[j1]).index != (
                #[trigger] open@[j2]).index,
        decreases 2 * (total - marked@.len()) + open@.len(),
    {
        proof {
            lemma_positions_bound(marked@, h, w);
            lemma_positions_bound(closed@, h, w);
        }
        let ghost open0 = open@;
        let ghost closed0 = closed@;
        let ghost marked0 = marked@;
        let ghost measure0 = 2 * (total - marked@.len()) + open@.len();
        let next = pop_min(&mut open);
        proof {
            let i0 = choose|i: int|
                0 <= i < open0.len() && next == open0[i] && open@ == open0.remove(i);
            assert forall|j: int| 0 <= j < open@.len() implies (cell_inv(
                g,
                start_t,
                destination,
                #[trigger] open@[j],
            ) && chain_distinct(open@[j]) && ancestors_closed(open@[j], closed0)
                && !closed0.contains(open@[j].index) && marked0.contains(open@[j].index)
                && open@[j].g_cost <= closed0.len()) by {
                if j < i0 {
                    assert(open@[j] == open0[j]);
                } else {
                    assert(open@[j] == open0[j + 1]);
                }
            }
            assert forall|j1: int, j2: int| 0 <= j1 < j2 < open@.len() implies (
            #[trigger] open@[j1]).index != (#[trigger] open@[j2]).index by {
                let k1: int = if j1 < i0 { j1 } else { j1 + 1 };
                let k2: int = if j2 < i0 { j2 } else { j2 + 1 };
                assert(open@[j1] == open0[k1] && open@[j2] == open0[k2]);
            }
            assert(cell_inv(g, start_t, destination, next));
            assert(chain_distinct(next));
            assert(ancestors_closed(next, closed0));
            assert(!closed0.contains(next.index));
            assert(marked0.contains(next.index));
            assert(next.g_cost <= closed0.len());
        }
        closed.push(next.index);
        if next.index.0 == destination.0 && next.index.1 == destination.1 {
            proof {
                assert(next.index == destination);
                lemma_chain_path(g, start_t, destination, next);
                lemma_chain_no_dup(next);
                if start_t == destination {
                    let cs = chain_seq(next);
                    if cs.len() > 1 {
                        assert(cs[0] == start_t && cs[cs.len() - 1] == destination);
                    }
                    assert(cs =~= seq![start_t]);
                }
            }
            return Some(next.get_path());
        }
        proof {
            // The fresh closed set keeps its element-wise invariants.
            assert(closed@ == closed0.push(next.index));
            assert forall|i: int, j: int|
                0 <= i < closed@.len() && 0 <= j < closed@.len() && i != j implies closed@[i]
                != closed@[j] by {
                if i < closed0.len() && j < closed0.len() {
                    assert(closed@[i] == closed0[i] && closed@[j] == closed0[j]);
                } else if i < closed0.len() {
                    assert(closed0.contains(closed0[i]));
                    assert(closed@[i] == closed0[i] && closed@[j] == next.index);
                } else {
                    assert(closed0.contains(closed0[j]));
                    assert(closed@[i] == next.index && closed@[j] == closed0[j]);
                }
            }
            assert(closed@.no_duplicates());
            assert forall|j: int| 0 <= j < open@.len() implies ancestors_closed(
                #[trigger] open@[j],
                closed@,
            ) && !closed@.contains(open@[j].index) by {
                lemma_ancestors_closed_push(open@[j], closed0, next.index);
                if closed@.contains(open@[j].index) {
                    let t = choose|t: int|
                        0 <= t < closed@.len() && closed@[t] == open@[j].index;
                    if t < closed0.len() {
                        assert(closed0.contains(closed0[t]));
                    } else {
                        assert(open@[j].index == next.index);
                        let i0 = choose|i: int|
                            0 <= i < open0.len() && next == open0[i] && open@ == open0.remove(i);
                        if j < i0 {
                            assert(open@[j] == open0[j]);
                            assert(open0[j].index != open0[i0].index);
                        } else {
                            assert(open@[j] == open0[j + 1]);
                            assert(open0[i0].index != open0[j + 1].index);
                        }
                    }
                }
            }
            lemma_ancestors_closed_push(next, closed0, next.index);
            assert(closed@.contains(next.index)) by {
                assert(closed@[closed@.len() - 1] == next.index);
            }
            lemma_positions_bound(closed@, h, w);
            assert forall|i: int| 0 <= i < marked@.len() implies closed@.contains(
                #[trigger] marked@[i],
            ) || exists|j: int|
                0 <= j < open@.len() && (#[trigger] open@[j]).index == marked@[i] by {
                if closed0.contains(marked@[i]) {
                    lemma_contains_after_push(closed0, next.index, marked@[i]);
                } else {
                    let j = choose|j: int|
                        0 <= j < open0.len() && (#[trigger] open0[j]).index == marked@[i];
                    let i0 = choose|i: int|
                        0 <= i < open0.len() && next == open0[i] && open@ == open0.remove(i);
                    if j == i0 {
                        assert(marked@[i] == next.index);
                    } else if j < i0 {
                        assert(open@[j] == open0[j]);
                    } else {
                        assert(open@[j - 1] == open0[j]);
                    }
                }
            }
        }
        proof {
            lemma_dims_le_total(h, w);
        }
        let neighbors = get_neighbors(
            (next.index.0 as usize, next.index.1 as usize),
            &maze.rowsAndColumns,
        );
        proof {
            assert(((next.index.0 as usize) as i32, (next.index.1 as usize) as i32)
                == next.index);
        }
        let ghost o1 = open@.len() as int;
        let ghost m1 = marked@.len() as int;
        let mut k: usize = 0;
        while k < neighbors.len()
            invariant
                maze.wf(),
                g == spec_grid(*maze),
                h == g.len(),
                w == g[0].len(),
                total == h * w,
                destination == spec_end(*maze),
                start_t == spec_start(*maze),
                k <= neighbors@.len(),
                closed@ == closed0.push(next.index),
                closed@.no_duplicates(),
                forall|i: int| 0 <= i < closed@.len() ==> pos_in_bounds(g, #[trigger] closed@[i]),
                forall|i: int| 0 <= i < closed@.len() ==> marked@.contains(#[trigger] closed@[i]),
                forall|i: int| 0 <= i < closed@.len() ==> #[trigger] closed@[i] != destination,
                forall|i: int, q: (i32, i32)|
                    0 <= i < closed@.len() - 1 && #[trigger] step_allowed(g, closed@[i], q)
                        ==> marked@.contains(q),
                forall|t: int| 0 <= t < k ==> marked@.contains((#[trigger] neighbors@[t]).index),
                forall|t: int|
                    0 <= t < neighbors@.len() ==> step_allowed(
                        g,
                        next.index,
                        (#[trigger] neighbors@[t]).index,
                    ),
                forall|q: (i32, i32)|
                    #[trigger] step_allowed(g, next.index, q) ==> exists|t: int|
                        0 <= t < neighbors@.len() && (#[trigger] neighbors@[t]).index == q,
                cell_inv(g, start_t, destination, next),
                chain_distinct(next),
                ancestors_closed(next, closed@),
                closed@.contains(next.index),
                next.g_cost + 1 <= closed@.len(),
                closed@.len() <= total,
                marked@.no_duplicates(),
                forall|i: int| 0 <= i < marked@.len() ==> pos_in_bounds(g, #[trigger] marked@[i]),
                marked@.contains(start_t),
                forall|i: int|
                    0 <= i < marked@.len() ==> closed@.contains(#[trigger] marked@[i]) || exists|
                        j: int,
                    |
                        0 <= j < open@.len() && (#[trigger] open@[j]).index == marked@[i],
                forall|j: int|
                    0 <= j < open@.len() ==> cell_inv(g, start_t, destination, #[trigger] open@[j]),
                forall|j: int| 0 <= j < open@.len() ==> chain_distinct(#[trigger] open@[j]),
                forall|j: int|
                    0 <= j < open@.len() ==> ancestors_closed(#[trigger] open@[j], closed@),
                forall|j: int|
                    0 <= j < open@.len() ==> !closed@.contains((#[trigger] open@[j]).index),
                forall|j: int|
                    0 <= j < open@.len() ==> marked@.contains((#[trigger] open@[j]).index),
                forall|j: int|
                    0 <= j < open@.len() ==> (#[trigger] open@[j]).g_cost <= closed@.len(),
                forall|j1: int, j2: int|
                    0 <= j1 < j2 < open@.len() ==> (#[trigger] open@[j1]).index != (
                    #[trigger] open@[j2]).index,
                open@.len() - o1 == marked@.len() - m1,
                open@.len() >= o1,
            decreases neighbors@.len() - k,
        {
            let nb_index = neighbors[k].index;
            let in_closed = contains_pos(&closed, nb_index);
            let in_marked = contains_pos(&marked, nb_index);
            if !in_closed && !in_marked {
                let ghost marked_pre = marked@;
                let ghost open_pre = open@;
                let mut cell = neighbors[k].clone();
                cell.g_cost = next.g_cost + 1;
                proof {
                    lemma_manhattan_bound(g, cell.index, destination);
                }
                let idx = cell.index;
                cell.set_h_cost(idx, destination);
                cell.parent = Box::new(Some(next.clone()));
                proof {
                    assert(cell.index == nb_index);
                    assert(step_allowed(g, next.index, cell.index));
                    assert(cell_inv(g, start_t, destination, cell));
                    lemma_chain_in_closed(next, closed@);
                    assert(!chain_seq(next).contains(cell.index)) by {
                        if chain_seq(next).contains(cell.index) {
                            let t = choose|t: int|
                                0 <= t < chain_seq(next).len() && chain_seq(next)[t]
                                    == cell.index;
                            assert(closed@.contains(chain_seq(next)[t]));
                        }
                    }
                    assert(chain_distinct(cell));
                    assert(ancestors_closed(cell, closed@));
                }
                open.push(cell);
                marked.push(nb_index);
                proof {
                    assert forall|q: (i32, i32)| marked_pre.contains(q) implies marked@.contains(
                        q,
                    ) by {
                        lemma_contains_after_push(marked_pre, nb_index, q);
                    }
                    assert(marked@.contains(nb_index)) by {
                        assert(marked@[marked@.len() - 1] == nb_index);
                    }
                    assert forall|i: int, j: int|
                        0 <= i < marked@.len() && 0 <= j < marked@.len() && i != j implies marked@[i]
                        != marked@[j] by {
                        if i < marked_pre.len() && j < marked_pre.len() {
                            assert(marked@[i] == marked_pre[i] && marked@[j] == marked_pre[j]);
                        } else if i < marked_pre.len() {
                            assert(marked_pre.contains(marked_pre[i]));
                            assert(marked@[i] == marked_pre[i] && marked@[j] == nb_index);
                        } else {
                            assert(marked_pre.contains(marked_pre[j]));
                            assert(marked@[i] == nb_index && marked@[j] == marked_pre[j]);
                        }
                    }
                    assert(marked@.no_duplicates());
                    assert forall|i: int|
                        0 <= i < marked@.len() implies closed@.contains(#[trigger] marked@[i])
                        || exists|j: int|
                        0 <= j < open@.len() && (#[trigger] open@[j]).index == marked@[i] by {
                        if i < marked_pre.len() {
                            assert(marked@[i] == marked_pre[i]);
                            if !closed@.contains(marked_pre[i]) {
                                let j = choose|j: int|
                                    0 <= j < open_pre.len() && (#[trigger] open_pre[j]).index
                                        == marked_pre[i];
                                assert(open@[j] == open_pre[j]);
                            }
                        } else {
                            assert(marked@[i] == nb_index);
                            assert(open@[open@.len() - 1].index == nb_index);
                        }
                    }
                }
            }
            k = k + 1;
        }
        proof {
            assert forall|i: int, q: (i32, i32)|
                0 <= i < closed@.len() && #[trigger] step_allowed(g, closed@[i], q) implies marked@.contains(
                q,
            ) by {
                if i == closed@.len() - 1 {
                    assert(closed@[i] == next.index);
                    let t = choose|t: int|
                        0 <= t < neighbors@.len() && (#[trigger] neighbors@[t]).index == q;
                    assert(marked@.contains(neighbors@[t].index));
                }
            }
            lemma_positions_bound(marked@, h, w);
            assert(2 * (total - marked@.len()) + open@.len() < measure0);
        }
    }
    proof {
        assert forall|i: int| 0 <= i < marked@.len() implies closed@.contains(
            #[trigger] marked@[i],
        ) by {}
        assert(closed@.contains(start_t));
        assert(!closed@.contains(destination)) by {
            if closed@.contains(destination) {
                let t = choose|t: int| 0 <= t < closed@.len() && closed@[t] == destination;
                assert(closed@[t] != destination);
            }
        }
        assert forall|c: (i32, i32), q: (i32, i32)|
            closed@.contains(c) && #[trigger] step_allowed(g, c, q) implies closed@.contains(
            q,
        ) by {
            let i = choose|i: int| 0 <= i < closed@.len() && closed@[i] == c;
            assert(step_allowed(g, closed@[i], q));
            assert(marked@.contains(q));
        }
        assert forall|p: Seq<(i32, i32)>| !is_path(g, p, start_t, destination) by {
            lemma_no_escape(g, closed@, start_t, destination, p);
        }
        if start_t == destination {
            let witness = seq![start_t];
            assert(witness.len() == 1 && witness[0] == start_t && witness.last() == destination);
            assert(is_path(g, witness, start_t, destination));
        }
    }
    None
}

} // verus!
