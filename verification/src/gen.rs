//! Seeded maze generation by randomized depth-first backtracking.
//!
//! The pseudo-random sequence is fixed exactly, so that the same
//! `(width, height, seed, start)` always carves the same maze:
//!
//! * the 16 seed bytes are read as two little-endian 64-bit words `s0`
//!   (bytes 0..8) and `s1` (bytes 8..16), and the initial state is
//!   `s0 XOR rotate(s1, 32)`;
//! * each draw is one xorshift round over the 64-bit state:
//!   `t ^= t << 13; t ^= t >> 7; t ^= t << 17`;
//! * at each carving step the unvisited in-grid neighbors of the current
//!   cell are listed in the fixed order NORTH, EAST, SOUTH, WEST, one value
//!   is drawn, and the neighbor at position `value mod count` is carved to.
//!
//! The whole run is mirrored by the specification function [`generated`],
//! and [`recursive`] promises to produce exactly that model, which makes
//! determinism a theorem ([`lemma_generate_deterministic`]).

use vstd::prelude::*;
use crate::square_maze::{MazeModel, SquareMaze, MazeCell, WallDirection, lemma_open_edge_wf, lemma_horiz_index, lemma_vert_index};

verus! {

// ---------------------------------------------------------------------------
// The deterministic pseudo-random sequence.
// ---------------------------------------------------------------------------

/// One xorshift round over the 64-bit generator state.
pub open spec fn rng_next(s: u64) -> u64 {
    let a = s ^ (s << 13);
    let b = a ^ (a >> 7);
    b ^ (b << 17)
}

fn rng_step(s: u64) -> (r: u64)
    ensures
        r == rng_next(s),
{
    let a = s ^ (s << 13u64);
    let b = a ^ (a >> 7u64);
    b ^ (b << 17u64)
}

/// The little-endian 64-bit word at offset `off` of a byte sequence.
pub open spec fn le_word(s: Seq<u8>, off: int) -> u64 {
    (s[off] as u64) | ((s[off + 1] as u64) << 8) | ((s[off + 2] as u64) << 16)
        | ((s[off + 3] as u64) << 24) | ((s[off + 4] as u64) << 32)
        | ((s[off + 5] as u64) << 40) | ((s[off + 6] as u64) << 48)
        | ((s[off + 7] as u64) << 56)
}

/// The initial generator state derived from the 16 seed bytes.
pub open spec fn seed_state(s: Seq<u8>) -> u64 {
    le_word(s, 0) ^ ((le_word(s, 8) << 32) | (le_word(s, 8) >> 32))
}

fn le_word_at(seed: &[u8; 16], off: usize) -> (r: u64)
    requires
        off + 8 <= 16,
    ensures
        r == le_word(seed@, off as int),
{
    (seed[off] as u64) | ((seed[off + 1] as u64) << 8u64) | ((seed[off + 2] as u64) << 16u64)
        | ((seed[off + 3] as u64) << 24u64) | ((seed[off + 4] as u64) << 32u64)
        | ((seed[off + 5] as u64) << 40u64) | ((seed[off + 6] as u64) << 48u64)
        | ((seed[off + 7] as u64) << 56u64)
}

fn init_rng(seed: &[u8; 16]) -> (r: u64)
    ensures
        r == seed_state(seed@),
{
    let s0 = le_word_at(seed, 0);
    let s1 = le_word_at(seed, 8);
    s0 ^ ((s1 << 32u64) | (s1 >> 32u64))
}

// ---------------------------------------------------------------------------
// Counting helpers over boolean sequences.
// ---------------------------------------------------------------------------

/// How many entries of `s` are `false`.
pub open spec fn count_false(s: Seq<bool>) -> nat
    decreases s.len(),
{
    if s.len() == 0 {
        0
    } else {
        count_false(s.drop_last()) + if s.last() {
            0nat
        } else {
            1nat
        }
    }
}

/// Setting a `false` entry to `true` lowers the `false` count by one.
pub proof fn lemma_count_false_set_true(s: Seq<bool>, i: int)
    requires
        0 <= i < s.len(),
        !s[i],
    ensures
        count_false(s.update(i, true)) + 1 == count_false(s),
    decreases s.len(),
{
    let t = s.update(i, true);
    if i == s.len() - 1 {
        assert(t.drop_last() =~= s.drop_last());
    } else {
        assert(t.drop_last() =~= s.drop_last().update(i, true));
        lemma_count_false_set_true(s.drop_last(), i);
    }
}

/// Setting a `true` entry to `false` raises the `false` count by one.
pub proof fn lemma_count_false_set_false(s: Seq<bool>, i: int)
    requires
        0 <= i < s.len(),
        s[i],
    ensures
        count_false(s.update(i, false)) == count_false(s) + 1,
    decreases s.len(),
{
    let t = s.update(i, false);
    if i == s.len() - 1 {
        assert(t.drop_last() =~= s.drop_last());
    } else {
        assert(t.drop_last() =~= s.drop_last().update(i, false));
        lemma_count_false_set_false(s.drop_last(), i);
    }
}

/// A sequence that is `true` everywhere has no `false` entry.
pub proof fn lemma_count_false_none(s: Seq<bool>)
    requires
        forall|i: int| 0 <= i < s.len() ==> s[i],
    ensures
        count_false(s) == 0,
    decreases s.len(),
{
    if s.len() > 0 {
        lemma_count_false_none(s.drop_last());
    }
}

/// A sequence that is `false` everywhere has only `false` entries.
pub proof fn lemma_count_false_all(s: Seq<bool>)
    requires
        forall|i: int| 0 <= i < s.len() ==> !s[i],
    ensures
        count_false(s) == s.len(),
    decreases s.len(),
{
    if s.len() > 0 {
        lemma_count_false_all(s.drop_last());
    }
}

// ---------------------------------------------------------------------------
// Cell indexing.
// ---------------------------------------------------------------------------

/// Row-major index of cell `(x, y)` in a grid of width `w`.
pub open spec fn cell_idx(w: int, x: int, y: int) -> int {
    y * w + x
}

/// The row-major index of an in-grid cell is within the cell count and
/// fits in a machine word when the cell count does.
pub proof fn lemma_cell_index(w: int, h: int, x: int, y: int)
    requires
        0 <= x < w,
        0 <= y < h,
        w * h <= usize::MAX,
    ensures
        0 <= cell_idx(w, x, y) < w * h,
{
    assert(0 <= y * w + x < w * h) by (nonlinear_arith)
        requires
            0 <= x < w,
            0 <= y < h,
    ;
}

/// Row-major indexing is injective over in-grid cells.
pub proof fn lemma_cell_index_injective(w: int, x1: int, y1: int, x2: int, y2: int)
    requires
        0 <= x1 < w,
        0 <= x2 < w,
        0 <= y1,
        0 <= y2,
        cell_idx(w, x1, y1) == cell_idx(w, x2, y2),
    ensures
        x1 == x2 && y1 == y2,
{
    assert(y1 * w + x1 == y2 * w + x2 && 0 <= x1 < w && 0 <= x2 < w && 0 <= y1 && 0 <= y2
        ==> x1 == x2 && y1 == y2) by (nonlinear_arith);
}

// ---------------------------------------------------------------------------
// The carving state and its one-step transition.
// ---------------------------------------------------------------------------

/// The stored horizontal wall above `(x, y)`.
pub open spec fn horiz_at(m: MazeModel, x: int, y: int) -> bool {
    m.horiz[cell_idx(m.width, x, y)]
}

/// The stored vertical wall east of `(x, y)`.
pub open spec fn vert_at(m: MazeModel, x: int, y: int) -> bool {
    m.vert[y * (m.width - 1) + x]
}

/// The unvisited in-grid neighbors of `(x, y)`, in the fixed candidate
/// order NORTH, EAST, SOUTH, WEST; each entry carries the direction from
/// `(x, y)` and the neighbor's coordinates.
pub open spec fn spec_candidates(w: int, h: int, visited: Seq<bool>, x: int, y: int) -> Seq<
    (WallDirection, int, int),
> {
    (if y + 1 < h && !visited[cell_idx(w, x, y + 1)] {
        seq![(WallDirection::NORTH, x, y + 1)]
    } else {
        Seq::empty()
    }) + (if x + 1 < w && !visited[cell_idx(w, x + 1, y)] {
        seq![(WallDirection::EAST, x + 1, y)]
    } else {
        Seq::empty()
    }) + (if y >= 1 && !visited[cell_idx(w, x, y - 1)] {
        seq![(WallDirection::SOUTH, x, y - 1)]
    } else {
        Seq::empty()
    }) + (if x >= 1 && !visited[cell_idx(w, x - 1, y)] {
        seq![(WallDirection::WEST, x - 1, y)]
    } else {
        Seq::empty()
    })
}

/// The generator state: the maze so far, the visited flags (row-major),
/// the backtracking stack, and the pseudo-random state.
pub struct GenState {
    pub maze: MazeModel,
    pub visited: Seq<bool>,
    pub stack: Seq<(int, int)>,
    pub rng: u64,
}

/// The stack entry at position `i` is an in-grid, visited cell.
pub open spec fn stack_cell_ok(s: GenState, i: int) -> bool {
    &&& 0 <= s.stack[i].0 < s.maze.width
    &&& 0 <= s.stack[i].1 < s.maze.height
    &&& s.visited[cell_idx(s.maze.width, s.stack[i].0, s.stack[i].1)]
}

pub open spec fn wf_gen(s: GenState) -> bool {
    &&& s.maze.wf()
    &&& s.visited.len() == s.maze.width * s.maze.height
    &&& forall|i: int| 0 <= i < s.stack.len() ==> #[trigger] stack_cell_ok(s, i)
}

/// One step of the carve loop: with an empty candidate list the top cell
/// is popped; otherwise one pseudo-random value picks a candidate, the
/// shared wall is opened and the candidate becomes the new top.
pub open spec fn gen_step(s: GenState) -> GenState
    recommends
        s.stack.len() > 0,
{
    let c = s.stack.last();
    let cs = spec_candidates(s.maze.width, s.maze.height, s.visited, c.0, c.1);
    if cs.len() == 0 {
        GenState { stack: s.stack.drop_last(), ..s }
    } else {
        let r = rng_next(s.rng);
        let t = cs[(r as int) % (cs.len() as int)];
        GenState {
            maze: s.maze.open_edge(t.0, c.0, c.1),
            visited: s.visited.update(cell_idx(s.maze.width, t.1, t.2), true),
            stack: s.stack.push((t.1, t.2)),
            rng: r,
        }
    }
}

/// Every candidate is an unvisited in-grid neighbor of `(x, y)`, reached
/// by the direction it carries.
pub proof fn lemma_candidates_elems(w: int, h: int, visited: Seq<bool>, x: int, y: int)
    requires
        0 <= x < w,
        0 <= y < h,
    ensures
        forall|i: int|
            0 <= i < spec_candidates(w, h, visited, x, y).len() ==> {
                let t = #[trigger] spec_candidates(w, h, visited, x, y)[i];
                &&& 0 <= t.1 < w
                &&& 0 <= t.2 < h
                &&& !visited[cell_idx(w, t.1, t.2)]
                &&& (t.0 == WallDirection::NORTH && t.1 == x && t.2 == y + 1)
                    || (t.0 == WallDirection::EAST && t.1 == x + 1 && t.2 == y)
                    || (t.0 == WallDirection::SOUTH && t.1 == x && t.2 == y - 1)
                    || (t.0 == WallDirection::WEST && t.1 == x - 1 && t.2 == y)
            },
{
}

/// The transition preserves well-formedness, leaves the dimensions and
/// entry alone, and makes progress: a pop shortens the stack and keeps
/// the visited flags; a carve visits one new cell.
pub proof fn lemma_step_wf(s: GenState)
    requires
        wf_gen(s),
        s.stack.len() > 0,
    ensures
        wf_gen(gen_step(s)),
        gen_step(s).maze.width == s.maze.width,
        gen_step(s).maze.height == s.maze.height,
        gen_step(s).maze.entry == s.maze.entry,
        gen_step(s).visited.len() == s.visited.len(),
        spec_candidates(
            s.maze.width,
            s.maze.height,
            s.visited,
            s.stack.last().0,
            s.stack.last().1,
        ).len() == 0 ==> gen_step(s).visited == s.visited && gen_step(s).stack.len() < s.stack.len(),
        spec_candidates(
            s.maze.width,
            s.maze.height,
            s.visited,
            s.stack.last().0,
            s.stack.last().1,
        ).len() != 0 ==> count_false(gen_step(s).visited) + 1 == count_false(s.visited),
{
    let w = s.maze.width;
    let h = s.maze.height;
    let c = s.stack.last();
    assert(stack_cell_ok(s, s.stack.len() - 1));
    let cs = spec_candidates(w, h, s.visited, c.0, c.1);
    let s2 = gen_step(s);
    lemma_candidates_elems(w, h, s.visited, c.0, c.1);
    if cs.len() == 0 {
        assert forall|i: int| 0 <= i < s2.stack.len() implies #[trigger] stack_cell_ok(s2, i) by {
            assert(s2.stack[i] == s.stack[i]);
            assert(stack_cell_ok(s, i));
        }
    } else {
        let r = rng_next(s.rng);
        let k = (r as int) % (cs.len() as int);
        assert(0 <= k < cs.len());
        let t = cs[k];
        lemma_open_edge_wf(s.maze, t.0, c.0, c.1);
        lemma_cell_index(w, h, t.1, t.2);
        lemma_count_false_set_true(s.visited, cell_idx(w, t.1, t.2));
        assert forall|i: int| 0 <= i < s2.stack.len() implies #[trigger] stack_cell_ok(s2, i) by {
            if i < s.stack.len() {
                assert(s2.stack[i] == s.stack[i]);
                assert(stack_cell_ok(s, i));
                let c2 = s.stack[i];
                lemma_cell_index(w, h, c2.0, c2.1);
                assert(s2.visited[cell_idx(w, c2.0, c2.1)]);
            } else {
                assert(s2.stack[i] == (t.1, t.2));
            }
        }
    }
}

/// The whole carve run from a given state: steps until the stack empties.
/// Terminates because each step either visits a new cell or shortens the
/// stack.
pub open spec fn gen_run(s: GenState) -> GenState
    decreases count_false(s.visited), s.stack.len(),
        when wf_gen(s)
        via gen_run_decreases
{
    if s.stack.len() == 0 {
        s
    } else {
        gen_run(gen_step(s))
    }
}

#[via_fn]
proof fn gen_run_decreases(s: GenState) {
    if s.stack.len() > 0 {
        lemma_step_wf(s);
    }
}

/// The initial carving state: entry set to `start`, only `start` visited
/// and on the stack, generator state derived from the seed.
pub open spec fn init_state(m: MazeModel, seed: Seq<u8>, start: (int, int)) -> GenState {
    GenState {
        maze: MazeModel { entry: start, ..m },
        visited: Seq::new((m.width * m.height) as nat, |i: int| i == cell_idx(m.width, start.0, start.1)),
        stack: seq![start],
        rng: seed_state(seed),
    }
}

/// The maze that generation produces from `m`, `seed` and `start`: a pure
/// function of its arguments, which is what makes generation reproducible.
pub open spec fn generated(m: MazeModel, seed: Seq<u8>, start: (int, int)) -> MazeModel {
    gen_run(init_state(m, seed, start)).maze
}

/// How many internal edges of `m` are open.
pub open spec fn opened_edges(m: MazeModel) -> nat {
    count_false(m.horiz) + count_false(m.vert)
}

// ---------------------------------------------------------------------------
// Invariants carried by the carve loop.
// ---------------------------------------------------------------------------

/// Every in-grid neighbor of `(x, y)` is visited.
pub open spec fn neighbors_visited(w: int, h: int, visited: Seq<bool>, x: int, y: int) -> bool {
    &&& y + 1 < h ==> visited[cell_idx(w, x, y + 1)]
    &&& x + 1 < w ==> visited[cell_idx(w, x + 1, y)]
    &&& y >= 1 ==> visited[cell_idx(w, x, y - 1)]
    &&& x >= 1 ==> visited[cell_idx(w, x - 1, y)]
}

/// A visited cell that is no longer on the stack has been backtracked from,
/// so all of its neighbors are visited.
pub open spec fn interior_closed(w: int, h: int, visited: Seq<bool>, stack: Seq<(int, int)>) -> bool {
    forall|a: int, b: int|
        0 <= a < w && 0 <= b < h && visited[cell_idx(w, a, b)] && !stack.contains((a, b))
            ==> #[trigger] neighbors_visited(w, h, visited, a, b)
}

/// Every internal edge with an unvisited endpoint is still walled.
pub open spec fn unvisited_edges_walled(m: MazeModel, visited: Seq<bool>) -> bool {
    &&& forall|a: int, b: int|
        0 <= a < m.width && 0 <= b < m.height - 1 && !(visited[cell_idx(m.width, a, b)]
            && visited[cell_idx(m.width, a, b + 1)]) ==> #[trigger] horiz_at(m, a, b)
    &&& forall|a: int, b: int|
        0 <= a < m.width - 1 && 0 <= b < m.height && !(visited[cell_idx(m.width, a, b)]
            && visited[cell_idx(m.width, a + 1, b)]) ==> #[trigger] vert_at(m, a, b)
}

/// An element is in a pushed sequence exactly when it is the pushed element
/// or was already present.
pub proof fn lemma_contains_push<A>(s: Seq<A>, t: A, c: A)
    ensures
        s.push(t).contains(c) <==> (s.contains(c) || c == t),
{
    assert(s.push(t)[s.len() as int] == t);
    if s.push(t).contains(c) {
        let i = choose|i: int| 0 <= i < s.push(t).len() && s.push(t)[i] == c;
        if i < s.len() {
            assert(s[i] == c);
        }
    }
    if s.contains(c) {
        let i = choose|i: int| 0 <= i < s.len() && s[i] == c;
        assert(s.push(t)[i] == c);
    }
}

/// Marking one more cell visited cannot unvisit a neighbor.
pub proof fn lemma_neighbors_visited_monotone(w: int, h: int, v: Seq<bool>, k: int, x: int, y: int)
    requires
        v.len() == w * h,
        w * h <= usize::MAX,
        0 <= k < v.len(),
        0 <= x < w,
        0 <= y < h,
        neighbors_visited(w, h, v, x, y),
    ensures
        neighbors_visited(w, h, v.update(k, true), x, y),
{
    if y + 1 < h {
        lemma_cell_index(w, h, x, y + 1);
    }
    if x + 1 < w {
        lemma_cell_index(w, h, x + 1, y);
    }
    if y >= 1 {
        lemma_cell_index(w, h, x, y - 1);
    }
    if x >= 1 {
        lemma_cell_index(w, h, x - 1, y);
    }
}

/// From a visited start cell, closure under "visited cells have visited
/// neighbors" reaches every cell of the (connected) grid.
pub proof fn lemma_walk(w: int, h: int, visited: Seq<bool>, sx: int, sy: int, x: int, y: int)
    requires
        visited.len() == w * h,
        0 <= sx < w,
        0 <= sy < h,
        0 <= x < w,
        0 <= y < h,
        visited[cell_idx(w, sx, sy)],
        forall|a: int, b: int|
            0 <= a < w && 0 <= b < h && visited[cell_idx(w, a, b)]
                ==> #[trigger] neighbors_visited(w, h, visited, a, b),
    ensures
        visited[cell_idx(w, x, y)],
    decreases vstd::math::abs(x - sx) + vstd::math::abs(y - sy),
{
    if x > sx {
        lemma_walk(w, h, visited, sx, sy, x - 1, y);
        assert(neighbors_visited(w, h, visited, x - 1, y));
    } else if x < sx {
        lemma_walk(w, h, visited, sx, sy, x + 1, y);
        assert(neighbors_visited(w, h, visited, x + 1, y));
    } else if y > sy {
        lemma_walk(w, h, visited, sx, sy, x, y - 1);
        assert(neighbors_visited(w, h, visited, x, y - 1));
    } else if y < sy {
        lemma_walk(w, h, visited, sx, sy, x, y + 1);
        assert(neighbors_visited(w, h, visited, x, y + 1));
    }
}

/// Opening the wall toward an unvisited neighbor opens exactly one
/// previously walled edge, and afterwards every internal edge with an
/// unvisited endpoint (under the extended visited set) is still walled.
pub proof fn lemma_carve_edges(m: MazeModel, v: Seq<bool>, d: WallDirection, x: int, y: int, nx: int, ny: int)
    requires
        m.wf(),
        v.len() == m.width * m.height,
        0 <= x < m.width,
        0 <= y < m.height,
        0 <= nx < m.width,
        0 <= ny < m.height,
        (d == WallDirection::NORTH && nx == x && ny == y + 1)
            || (d == WallDirection::EAST && nx == x + 1 && ny == y)
            || (d == WallDirection::SOUTH && nx == x && ny == y - 1)
            || (d == WallDirection::WEST && nx == x - 1 && ny == y),
        v[cell_idx(m.width, x, y)],
        !v[cell_idx(m.width, nx, ny)],
        unvisited_edges_walled(m, v),
    ensures
        opened_edges(m.open_edge(d, x, y)) == opened_edges(m) + 1,
        unvisited_edges_walled(m.open_edge(d, x, y), v.update(cell_idx(m.width, nx, ny), true)),
{
    let w = m.width;
    let h = m.height;
    let k = cell_idx(w, nx, ny);
    let m2 = m.open_edge(d, x, y);
    let v2 = v.update(k, true);
    lemma_cell_index(w, h, x, y);
    lemma_cell_index(w, h, nx, ny);
    if d == WallDirection::NORTH || d == WallDirection::SOUTH {
        let by = if d == WallDirection::NORTH { y } else { y - 1 };
        lemma_horiz_index(w, h, x, by);
        lemma_cell_index(w, h, x, by);
        lemma_cell_index(w, h, x, by + 1);
        assert(!(v[cell_idx(w, x, by)] && v[cell_idx(w, x, by + 1)]));
        assert(horiz_at(m, x, by));
        assert(m2.horiz == m.horiz.update(cell_idx(w, x, by), false));
        assert(m2.vert == m.vert);
        lemma_count_false_set_false(m.horiz, cell_idx(w, x, by));
        assert(v2[cell_idx(w, x, by)] && v2[cell_idx(w, x, by + 1)]);
        assert forall|a: int, b: int|
            0 <= a < w && 0 <= b < h - 1 && !(v2[cell_idx(w, a, b)] && v2[cell_idx(w, a, b + 1)])
                implies #[trigger] horiz_at(m2, a, b) by {
            lemma_cell_index(w, h, a, b);
            lemma_cell_index(w, h, a, b + 1);
            lemma_horiz_index(w, h, a, b);
            if cell_idx(w, a, b) == cell_idx(w, x, by) {
                lemma_cell_index_injective(w, a, b, x, by);
                assert(false);
            } else {
                assert(!(v[cell_idx(w, a, b)] && v[cell_idx(w, a, b + 1)]));
                assert(horiz_at(m, a, b));
            }
        }
        assert forall|a: int, b: int|
            0 <= a < w - 1 && 0 <= b < h && !(v2[cell_idx(w, a, b)] && v2[cell_idx(w, a + 1, b)])
                implies #[trigger] vert_at(m2, a, b) by {
            lemma_cell_index(w, h, a, b);
            lemma_cell_index(w, h, a + 1, b);
            lemma_vert_index(w, h, a, b);
            assert(!(v[cell_idx(w, a, b)] && v[cell_idx(w, a + 1, b)]));
            assert(vert_at(m, a, b));
        }
    } else {
        let bx = if d == WallDirection::EAST { x } else { x - 1 };
        lemma_vert_index(w, h, bx, y);
        lemma_cell_index(w, h, bx, y);
        lemma_cell_index(w, h, bx + 1, y);
        assert(!(v[cell_idx(w, bx, y)] && v[cell_idx(w, bx + 1, y)]));
        assert(vert_at(m, bx, y));
        assert(m2.vert == m.vert.update(y * (w - 1) + bx, false));
        assert(m2.horiz == m.horiz);
        lemma_count_false_set_false(m.vert, y * (w - 1) + bx);
        assert(v2[cell_idx(w, bx, y)] && v2[cell_idx(w, bx + 1, y)]);
        assert forall|a: int, b: int|
            0 <= a < w - 1 && 0 <= b < h && !(v2[cell_idx(w, a, b)] && v2[cell_idx(w, a + 1, b)])
                implies #[trigger] vert_at(m2, a, b) by {
            lemma_cell_index(w, h, a, b);
            lemma_cell_index(w, h, a + 1, b);
            lemma_vert_index(w, h, a, b);
            if b * (w - 1) + a == y * (w - 1) + bx {
                lemma_cell_index_injective(w - 1, a, b, bx, y);
                assert(false);
            } else {
                assert(!(v[cell_idx(w, a, b)] && v[cell_idx(w, a + 1, b)]));
                assert(vert_at(m, a, b));
            }
        }
        assert forall|a: int, b: int|
            0 <= a < w && 0 <= b < h - 1 && !(v2[cell_idx(w, a, b)] && v2[cell_idx(w, a, b + 1)])
                implies #[trigger] horiz_at(m2, a, b) by {
            lemma_cell_index(w, h, a, b);
            lemma_cell_index(w, h, a, b + 1);
            lemma_horiz_index(w, h, a, b);
            assert(!(v[cell_idx(w, a, b)] && v[cell_idx(w, a, b + 1)]));
            assert(horiz_at(m, a, b));
        }
    }
}

// ---------------------------------------------------------------------------
// The executable generator.
// ---------------------------------------------------------------------------

/// View of an executable candidate list in the model's terms.
pub open spec fn cands_view(s: Seq<(WallDirection, usize, usize)>) -> Seq<(WallDirection, int, int)> {
    s.map_values(|t: (WallDirection, usize, usize)| (t.0, t.1 as int, t.2 as int))
}

/// View of an executable cell stack in the model's terms.
pub open spec fn cells_view(s: Seq<MazeCell>) -> Seq<(int, int)> {
    s.map_values(|c: MazeCell| (c.x as int, c.y as int))
}

/// The carving state described by the loop's executable variables.
pub open spec fn loop_state(m: MazeModel, visited: Seq<bool>, stack: Seq<MazeCell>, rng: u64) -> GenState {
    GenState { maze: m, visited, stack: cells_view(stack), rng }
}

fn candidates(w: usize, h: usize, visited: &Vec<bool>, x: usize, y: usize) -> (cs: Vec<
    (WallDirection, usize, usize),
>)
    requires
        x < w,
        y < h,
        w * h <= usize::MAX,
        visited@.len() == w * h,
    ensures
        cands_view(cs@) == spec_candidates(w as int, h as int, visited@, x as int, y as int),
{
    let mut cs: Vec<(WallDirection, usize, usize)> = Vec::new();
    if y + 1 < h {
        proof {
            lemma_cell_index(w as int, h as int, x as int, y as int + 1);
        }
        if !visited[(y + 1) * w + x] {
            cs.push((WallDirection::NORTH, x, y + 1));
        }
    }
    if x + 1 < w {
        proof {
            lemma_cell_index(w as int, h as int, x as int + 1, y as int);
        }
        if !visited[y * w + x + 1] {
            cs.push((WallDirection::EAST, x + 1, y));
        }
    }
    if y >= 1 {
        proof {
            lemma_cell_index(w as int, h as int, x as int, y as int - 1);
        }
        if !visited[(y - 1) * w + x] {
            cs.push((WallDirection::SOUTH, x, y - 1));
        }
    }
    if x >= 1 {
        proof {
            lemma_cell_index(w as int, h as int, x as int - 1, y as int);
        }
        if !visited[y * w + x - 1] {
            cs.push((WallDirection::WEST, x - 1, y));
        }
    }
    proof {
        assert(cands_view(cs@) =~= spec_candidates(w as int, h as int, visited@, x as int, y as int));
    }
    cs
}

fn falses(n: usize) -> (v: Vec<bool>)
    ensures
        v@.len() == n,
        forall|i: int| 0 <= i < n ==> !v@[i],
{
    let mut v: Vec<bool> = Vec::new();
    let mut k: usize = 0;
    while k < n
        invariant
            k <= n,
            v@.len() == k,
            forall|i: int| 0 <= i < k ==> !v@[i],
        decreases n - k,
    {
        v.push(false);
        k = k + 1;
    }
    v
}


// ---------------------------------------------------------------------------
// Reachability along opened edges.
// ---------------------------------------------------------------------------

/// One move between grid-adjacent in-grid cells whose shared wall is open.
pub open spec fn step_ok(m: MazeModel, a: (int, int), b: (int, int)) -> bool {
    &&& 0 <= a.0 < m.width && 0 <= a.1 < m.height
    &&& 0 <= b.0 < m.width && 0 <= b.1 < m.height
    &&& ((b.0 == a.0 && b.1 == a.1 + 1 && !horiz_at(m, a.0, a.1))
        || (b.0 == a.0 && b.1 == a.1 - 1 && !horiz_at(m, b.0, b.1))
        || (b.0 == a.0 + 1 && b.1 == a.1 && !vert_at(m, a.0, a.1))
        || (b.0 == a.0 - 1 && b.1 == a.1 && !vert_at(m, b.0, b.1)))
}

/// A walk from `a` to `b` through opened walls.
pub open spec fn is_path(m: MazeModel, p: Seq<(int, int)>, a: (int, int), b: (int, int)) -> bool {
    &&& p.len() >= 1
    &&& p.first() == a
    &&& p.last() == b
    &&& forall|i: int| 0 <= i < p.len() - 1 ==> step_ok(m, #[trigger] p[i], p[i + 1])
}

/// Whether some walk through opened walls joins `a` to `b`.
pub open spec fn connected(m: MazeModel, a: (int, int), b: (int, int)) -> bool {
    exists|p: Seq<(int, int)>| is_path(m, p, a, b)
}

/// Removing walls never disconnects: a walk stays a walk when every open
/// wall stays open.
pub proof fn lemma_connected_monotone(m: MazeModel, m2: MazeModel, a: (int, int), b: (int, int))
    requires
        m.wf(),
        m2.width == m.width,
        m2.height == m.height,
        forall|i: int| 0 <= i < m.horiz.len() && !m.horiz[i] ==> !(#[trigger] m2.horiz[i]),
        forall|i: int| 0 <= i < m.vert.len() && !m.vert[i] ==> !(#[trigger] m2.vert[i]),
        connected(m, a, b),
    ensures
        connected(m2, a, b),
{
    let p = choose|p: Seq<(int, int)>| is_path(m, p, a, b);
    assert forall|i: int| 0 <= i < p.len() - 1 implies step_ok(m2, #[trigger] p[i], p[i + 1]) by {
        assert(step_ok(m, p[i], p[i + 1]));
        let c = p[i];
        let e = p[i + 1];
        if e.0 == c.0 && e.1 == c.1 + 1 {
            lemma_horiz_index(m.width, m.height, c.0, c.1);
        } else if e.0 == c.0 && e.1 == c.1 - 1 {
            lemma_horiz_index(m.width, m.height, e.0, e.1);
        } else if e.0 == c.0 + 1 {
            lemma_vert_index(m.width, m.height, c.0, c.1);
        } else {
            lemma_vert_index(m.width, m.height, e.0, e.1);
        }
    }
    assert(is_path(m2, p, a, b));
}

/// Every visited cell can be reached from `start` through opened walls.
pub open spec fn visited_connected(m: MazeModel, visited: Seq<bool>, start: (int, int)) -> bool {
    forall|a: int, b: int|
        0 <= a < m.width && 0 <= b < m.height && visited[cell_idx(m.width, a, b)]
            ==> #[trigger] connected(m, start, (a, b))
}

/// Determinism: generation is a function of `(width, height, seed, start)`
/// alone. Any two fully walled grids of the same dimensions carve to the
/// same model under the same seed and start cell.
pub proof fn lemma_generate_deterministic(m1: MazeModel, m2: MazeModel, seed: Seq<u8>, start: (int, int))
    requires
        m1.wf(),
        m2.wf(),
        m1.width == m2.width,
        m1.height == m2.height,
        m1.fully_walled(),
        m2.fully_walled(),
    ensures
        generated(m1, seed, start) == generated(m2, seed, start),
{
    assert(m1.horiz =~= m2.horiz);
    assert(m1.vert =~= m2.vert);
    assert(init_state(m1, seed, start) == init_state(m2, seed, start));
}


/// Carves a perfect maze into `maze` by seeded depth-first backtracking,
/// starting from `start`, which becomes the maze's entry cell.
///
/// The grid must be fully walled: generation is a single pass over a fresh
/// grid. On return the wall layout is exactly [`generated`] of the inputs
/// (so equal inputs always carve equal mazes), and the number of opened
/// internal edges is `width * height - 1`, as a spanning tree requires,
/// and every cell is reachable from `start` through the opened edges.
#[verifier::rlimit(100)]
pub fn recursive(maze: &mut SquareMaze, seed: [u8; 16], start: MazeCell)
    requires
        old(maze).wf(),
        start.x < old(maze).width,
        start.y < old(maze).height,
        old(maze).model().fully_walled(),
    ensures
        final(maze).wf(),
        final(maze).width == old(maze).width,
        final(maze).height == old(maze).height,
        final(maze).entry == start,
        final(maze).model() == generated(
            old(maze).model(),
            seed@,
            (start.x as int, start.y as int),
        ),
        opened_edges(final(maze).model()) + 1 == old(maze).width * old(maze).height,
        forall|x: int, y: int|
            0 <= x < old(maze).width && 0 <= y < old(maze).height ==> #[trigger] connected(
                final(maze).model(),
                (start.x as int, start.y as int),
                (x, y),
            ),
{
    let ghost s0 = init_state(old(maze).model(), seed@, (start.x as int, start.y as int));
    let w = maze.width;
    let h = maze.height;
    maze.entry = start;
    let mut rng = init_rng(&seed);
    let n = w * h;
    let mut visited: Vec<bool> = falses(n);
    proof {
        lemma_cell_index(w as int, h as int, start.x as int, start.y as int);
        lemma_count_false_all(visited@);
    }
    let ghost v0 = visited@;
    let sidx = start.y * w + start.x;
    visited.set(sidx, true);
    proof {
        lemma_count_false_set_true(v0, sidx as int);
    }
    let mut stack: Vec<MazeCell> = Vec::new();
    stack.push(start);
    proof {
        assert(visited@ =~= s0.visited);
        assert(cells_view(stack@) =~= s0.stack);
        assert(maze.model() == s0.maze);
        assert(cells_view(stack@)[0] == (start.x as int, start.y as int));
        lemma_count_false_none(maze.model().horiz);
        lemma_count_false_none(maze.model().vert);
        assert(stack_cell_ok(loop_state(maze.model(), visited@, stack@, rng), 0));
        assert forall|a: int, b: int|
            0 <= a < w && 0 <= b < h && visited@[cell_idx(w as int, a, b)]
                && !cells_view(stack@).contains((a, b))
                implies #[trigger] neighbors_visited(w as int, h as int, visited@, a, b) by {
            lemma_cell_index(w as int, h as int, a, b);
            lemma_cell_index_injective(w as int, a, b, start.x as int, start.y as int);
            assert(cells_view(stack@).contains((a, b)));
        }
        assert forall|a: int, b: int|
            0 <= a < w && 0 <= b < h - 1 implies #[trigger] horiz_at(maze.model(), a, b) by {
            lemma_horiz_index(w as int, h as int, a, b);
        }
        assert forall|a: int, b: int|
            0 <= a < w - 1 && 0 <= b < h implies #[trigger] vert_at(maze.model(), a, b) by {
            lemma_vert_index(w as int, h as int, a, b);
        }
        let sc = (start.x as int, start.y as int);
        assert(is_path(maze.model(), seq![sc], sc, sc));
        assert(connected(maze.model(), sc, sc));
        assert forall|a: int, b: int|
            0 <= a < w && 0 <= b < h && visited@[cell_idx(w as int, a, b)]
                implies #[trigger] connected(maze.model(), sc, (a, b)) by {
            lemma_cell_index(w as int, h as int, a, b);
            lemma_cell_index_injective(w as int, a, b, start.x as int, start.y as int);
        }
    }
    while stack.len() > 0
        invariant
            maze.wf(),
            maze.width == w,
            maze.height == h,
            maze.entry == start,
            start.x < w,
            start.y < h,
            visited@.len() == w * h,
            wf_gen(loop_state(maze.model(), visited@, stack@, rng)),
            gen_run(loop_state(maze.model(), visited@, stack@, rng)) == gen_run(s0),
            visited@[cell_idx(w as int, start.x as int, start.y as int)],
            interior_closed(w as int, h as int, visited@, cells_view(stack@)),
            unvisited_edges_walled(maze.model(), visited@),
            visited_connected(maze.model(), visited@, (start.x as int, start.y as int)),
            opened_edges(maze.model()) + count_false(visited@) + 1 == w * h,
        decreases count_false(visited@), stack@.len(),
    {
        let ghost pre = loop_state(maze.model(), visited@, stack@, rng);
        let top = stack[stack.len() - 1];
        proof {
            assert(cells_view(stack@)[stack@.len() - 1] == (top.x as int, top.y as int));
            assert(pre.stack.last() == (top.x as int, top.y as int));
            assert(stack_cell_ok(pre, pre.stack.len() - 1));
            lemma_step_wf(pre);
        }
        let x = top.x;
        let y = top.y;
        let cs = candidates(w, h, &visited, x, y);
        if cs.len() == 0 {
            stack.pop();
            proof {
                assert(cells_view(stack@) =~= pre.stack.drop_last());
                assert(gen_step(pre) == loop_state(maze.model(), visited@, stack@, rng));
                assert(gen_run(pre) == gen_run(gen_step(pre)));
                assert(neighbors_visited(w as int, h as int, visited@, x as int, y as int));
                assert forall|a: int, b: int|
                    0 <= a < w && 0 <= b < h && visited@[cell_idx(w as int, a, b)]
                        && !cells_view(stack@).contains((a, b))
                        implies #[trigger] neighbors_visited(w as int, h as int, visited@, a, b) by {
                    lemma_contains_push(cells_view(stack@), (x as int, y as int), (a, b));
                    assert(pre.stack =~= cells_view(stack@).push((x as int, y as int)));
                    if a == x as int && b == y as int {
                    } else {
                        assert(!pre.stack.contains((a, b)));
                    }
                }
            }
        } else {
            let r = rng_step(rng);
            let nlen = cs.len();
            let idx = (r % (nlen as u64)) as usize;
            let t = cs[idx];
            let d = t.0;
            let nx = t.1;
            let ny = t.2;
            proof {
                let csv = spec_candidates(w as int, h as int, visited@, x as int, y as int);
                assert(csv[idx as int] == (d, nx as int, ny as int));
                lemma_candidates_elems(w as int, h as int, visited@, x as int, y as int);
                lemma_cell_index(w as int, h as int, nx as int, ny as int);
                lemma_carve_edges(
                    maze.model(),
                    visited@,
                    d,
                    x as int,
                    y as int,
                    nx as int,
                    ny as int,
                );
            }
            let ghost vpre = visited@;
            maze.open_wall(d, x, y);
            visited.set(ny * w + nx, true);
            stack.push(MazeCell::new(nx, ny));
            rng = r;
            proof {
                let k = cell_idx(w as int, nx as int, ny as int);
                assert(visited@ == vpre.update(k, true));
                lemma_cell_index(w as int, h as int, start.x as int, start.y as int);
                assert(cells_view(stack@) =~= pre.stack.push((nx as int, ny as int)));
                assert(gen_step(pre) == loop_state(maze.model(), visited@, stack@, rng));
                assert(gen_run(pre) == gen_run(gen_step(pre)));
                lemma_count_false_set_true(vpre, k);
                assert(cells_view(stack@)[stack@.len() - 1] == (nx as int, ny as int));
                assert forall|a: int, b: int|
                    0 <= a < w && 0 <= b < h && visited@[cell_idx(w as int, a, b)]
                        && !cells_view(stack@).contains((a, b))
                        implies #[trigger] neighbors_visited(w as int, h as int, visited@, a, b) by {
                    lemma_contains_push(pre.stack, (nx as int, ny as int), (a, b));
                    assert(!pre.stack.contains((a, b)));
                    lemma_cell_index(w as int, h as int, a, b);
                    if vpre[cell_idx(w as int, a, b)] {
                        assert(neighbors_visited(w as int, h as int, vpre, a, b));
                        lemma_neighbors_visited_monotone(w as int, h as int, vpre, k, a, b);
                    } else {
                        lemma_cell_index_injective(w as int, a, b, nx as int, ny as int);
                        assert(cells_view(stack@).contains((a, b)));
                        assert(false);
                    }
                }
                let mpre = pre.maze;
                let m2 = maze.model();
                let sc = (start.x as int, start.y as int);
                assert forall|i: int| 0 <= i < mpre.horiz.len() && !mpre.horiz[i]
                    implies !(#[trigger] m2.horiz[i]) by {
                    if d == WallDirection::NORTH {
                        lemma_horiz_index(w as int, h as int, x as int, y as int);
                    } else if d == WallDirection::SOUTH {
                        lemma_horiz_index(w as int, h as int, x as int, y as int - 1);
                    }
                }
                assert forall|i: int| 0 <= i < mpre.vert.len() && !mpre.vert[i]
                    implies !(#[trigger] m2.vert[i]) by {
                    if d == WallDirection::EAST {
                        lemma_vert_index(w as int, h as int, x as int, y as int);
                    } else if d == WallDirection::WEST {
                        lemma_vert_index(w as int, h as int, x as int - 1, y as int);
                    }
                }
                assert(vpre[cell_idx(w as int, x as int, y as int)]);
                assert(connected(mpre, sc, (x as int, y as int)));
                lemma_connected_monotone(mpre, m2, sc, (x as int, y as int));
                assert(step_ok(m2, (x as int, y as int), (nx as int, ny as int))) by {
                    if d == WallDirection::NORTH {
                        lemma_horiz_index(w as int, h as int, x as int, y as int);
                    } else if d == WallDirection::SOUTH {
                        lemma_horiz_index(w as int, h as int, nx as int, ny as int);
                    } else if d == WallDirection::EAST {
                        lemma_vert_index(w as int, h as int, x as int, y as int);
                    } else {
                        lemma_vert_index(w as int, h as int, nx as int, ny as int);
                    }
                }
                let q = choose|q: Seq<(int, int)>| is_path(m2, q, sc, (x as int, y as int));
                let q2 = q.push((nx as int, ny as int));
                assert forall|i: int| 0 <= i < q2.len() - 1 implies step_ok(
                    m2,
                    #[trigger] q2[i],
                    q2[i + 1],
                ) by {
                    if i < q.len() - 1 {
                        assert(q2[i] == q[i] && q2[i + 1] == q[i + 1]);
                        assert(step_ok(m2, q[i], q[i + 1]));
                    } else {
                        assert(q2[i] == q.last() && q2[i + 1] == (nx as int, ny as int));
                    }
                }
                assert(is_path(m2, q2, sc, (nx as int, ny as int)));
                assert(connected(m2, sc, (nx as int, ny as int)));
                assert forall|a: int, b: int|
                    0 <= a < w && 0 <= b < h && visited@[cell_idx(w as int, a, b)]
                        implies #[trigger] connected(m2, sc, (a, b)) by {
                    lemma_cell_index(w as int, h as int, a, b);
                    if vpre[cell_idx(w as int, a, b)] {
                        assert(connected(mpre, sc, (a, b)));
                        lemma_connected_monotone(mpre, m2, sc, (a, b));
                    } else {
                        lemma_cell_index_injective(w as int, a, b, nx as int, ny as int);
                        assert((a, b) == (nx as int, ny as int));
                    }
                }
            }
        }
    }
    proof {
        let cur = loop_state(maze.model(), visited@, stack@, rng);
        assert(cur.stack.len() == 0);
        assert(gen_run(cur) == cur);
        assert(maze.model() == gen_run(s0).maze);
        assert forall|a: int, b: int| 0 <= a < w && 0 <= b < h
            implies visited@[cell_idx(w as int, a, b)] by {
            assert forall|a2: int, b2: int|
                0 <= a2 < w && 0 <= b2 < h && visited@[cell_idx(w as int, a2, b2)]
                    implies #[trigger] neighbors_visited(w as int, h as int, visited@, a2, b2) by {
                assert(!cells_view(stack@).contains((a2, b2)));
            }
            lemma_walk(w as int, h as int, visited@, start.x as int, start.y as int, a, b);
        }
        assert forall|i: int| 0 <= i < visited@.len() implies visited@[i] by {
            let a = i % (w as int);
            let b = i / (w as int);
            vstd::arithmetic::div_mod::lemma_fundamental_div_mod(i, w as int);
            vstd::arithmetic::div_mod::lemma_mod_bound(i, w as int);
            assert(0 <= b < h as int) by (nonlinear_arith)
                requires
                    i == (w as int) * b + a,
                    0 <= a < w as int,
                    0 <= i < (w as int) * (h as int),
                    w as int >= 1,
            ;
            assert(visited@[cell_idx(w as int, a, b)]);
            assert(cell_idx(w as int, a, b) == i);
        }
        lemma_count_false_none(visited@);
        assert forall|x: int, y: int| 0 <= x < w && 0 <= y < h implies #[trigger] connected(
            maze.model(),
            (start.x as int, start.y as int),
            (x, y),
        ) by {
            lemma_cell_index(w as int, h as int, x, y);
        }
    }
}

} // verus!
