//! The wall grid: a rectangle of cells with one stored boolean per internal
//! edge, so the two cell-relative views of a shared edge can never disagree.
//!
//! Direction convention: `NORTH` points toward increasing `y`, `EAST` toward
//! increasing `x`; `SOUTH` and `WEST` are their opposites.

use vstd::prelude::*;

verus! {

/// Selector for one of the four grid directions.
#[derive(Clone, Copy, PartialEq, Eq, Structural, Debug)]
#[allow(non_camel_case_types)]
pub enum WallDirection {
    NORTH,
    EAST,
    SOUTH,
    WEST,
}

/// A cell coordinate: `0 <= x < width`, `0 <= y < height`.
#[derive(Clone, Copy, PartialEq, Eq, Structural, Debug)]
pub struct MazeCell {
    pub x: usize,
    pub y: usize,
}

impl MazeCell {
    pub fn new(x: usize, y: usize) -> (c: MazeCell)
        ensures
            c.x == x,
            c.y == y,
    {
        MazeCell { x, y }
    }
}

/// The two failures the grid can report: rejected dimensions at construction,
/// and a coordinate outside the grid at query time.
#[derive(Clone, Copy, PartialEq, Eq, Structural, Debug)]
pub enum MazeError {
    InvalidDimensions,
    OutOfBounds,
}

/// Mathematical model of a wall grid: dimensions, entry cell, and the two
/// sequences of stored (internal) edge bits. `true` means the wall is present.
pub struct MazeModel {
    pub width: int,
    pub height: int,
    pub entry: (int, int),
    /// Wall between `(x, y)` and `(x, y + 1)`, at index `y * width + x`,
    /// for `0 <= y < height - 1`.
    pub horiz: Seq<bool>,
    /// Wall between `(x, y)` and `(x + 1, y)`, at index `y * (width - 1) + x`,
    /// for `0 <= x < width - 1`.
    pub vert: Seq<bool>,
}

impl MazeModel {
    /// Well-formed model: positive dimensions that fit the machine, storage
    /// sized to the number of internal edges, entry in bounds.
    pub open spec fn wf(self) -> bool {
        &&& 1 <= self.width
        &&& 1 <= self.height
        &&& self.width * self.height <= usize::MAX
        &&& self.horiz.len() == self.width * (self.height - 1)
        &&& self.vert.len() == (self.width - 1) * self.height
        &&& 0 <= self.entry.0 < self.width
        &&& 0 <= self.entry.1 < self.height
    }

    /// The stored edge a cell-relative query refers to: `Some((true, i))` for
    /// the horizontal wall at index `i`, `Some((false, i))` for the vertical
    /// wall at index `i`, `None` when the neighbor lies outside the grid
    /// (a boundary edge, which is not stored and always walled).
    pub open spec fn edge_index(self, d: WallDirection, x: int, y: int) -> Option<(bool, int)> {
        match d {
            WallDirection::NORTH => if y + 1 < self.height {
                Some((true, y * self.width + x))
            } else {
                None
            },
            WallDirection::SOUTH => if y >= 1 {
                Some((true, (y - 1) * self.width + x))
            } else {
                None
            },
            WallDirection::EAST => if x + 1 < self.width {
                Some((false, y * (self.width - 1) + x))
            } else {
                None
            },
            WallDirection::WEST => if x >= 1 {
                Some((false, y * (self.width - 1) + (x - 1)))
            } else {
                None
            },
        }
    }

    /// Whether the wall in direction `d` of cell `(x, y)` is present.
    /// Boundary edges are always present.
    pub open spec fn wall(self, d: WallDirection, x: int, y: int) -> bool {
        match self.edge_index(d, x, y) {
            None => true,
            Some((horiz, i)) => if horiz {
                self.horiz[i]
            } else {
                self.vert[i]
            },
        }
    }

    /// The model after clearing the wall in direction `d` of cell `(x, y)`;
    /// a no-op when the edge is a boundary edge.
    pub open spec fn open_edge(self, d: WallDirection, x: int, y: int) -> MazeModel {
        match self.edge_index(d, x, y) {
            None => self,
            Some((horiz, i)) => if horiz {
                MazeModel { horiz: self.horiz.update(i, false), ..self }
            } else {
                MazeModel { vert: self.vert.update(i, false), ..self }
            },
        }
    }

    /// Every edge, internal and boundary, is walled.
    pub open spec fn fully_walled(self) -> bool {
        &&& forall|i: int| 0 <= i < self.horiz.len() ==> self.horiz[i]
        &&& forall|i: int| 0 <= i < self.vert.len() ==> self.vert[i]
    }
}

/// The horizontal-wall index of an in-bounds internal edge is within the
/// storage and fits in a machine word.
pub proof fn lemma_horiz_index(w: int, h: int, x: int, y: int)
    requires
        0 <= x < w,
        0 <= y < h - 1,
        w * h <= usize::MAX,
    ensures
        0 <= y * w + x < w * (h - 1),
        y * w + x < usize::MAX,
{
    assert(0 <= y * w + x < w * (h - 1) && w * (h - 1) <= w * h) by (nonlinear_arith)
        requires
            0 <= x < w,
            0 <= y < h - 1,
    ;
}

/// The vertical-wall index of an in-bounds internal edge is within the
/// storage and fits in a machine word.
pub proof fn lemma_vert_index(w: int, h: int, x: int, y: int)
    requires
        0 <= x < w - 1,
        0 <= y < h,
        w * h <= usize::MAX,
    ensures
        0 <= y * (w - 1) + x < (w - 1) * h,
        y * (w - 1) + x < usize::MAX,
{
    assert(0 <= y * (w - 1) + x < (w - 1) * h && (w - 1) * h <= w * h) by (nonlinear_arith)
        requires
            0 <= x < w - 1,
            0 <= y < h,
    ;
}

/// Opening an edge from an in-grid cell preserves well-formedness and
/// touches nothing but the stored wall bits.
pub proof fn lemma_open_edge_wf(m: MazeModel, d: WallDirection, x: int, y: int)
    requires
        m.wf(),
        0 <= x < m.width,
        0 <= y < m.height,
    ensures
        m.open_edge(d, x, y).wf(),
        m.open_edge(d, x, y).width == m.width,
        m.open_edge(d, x, y).height == m.height,
        m.open_edge(d, x, y).entry == m.entry,
        m.open_edge(d, x, y).horiz.len() == m.horiz.len(),
        m.open_edge(d, x, y).vert.len() == m.vert.len(),
{
    match d {
        WallDirection::NORTH => {
            if y + 1 < m.height {
                lemma_horiz_index(m.width, m.height, x, y);
            }
        },
        WallDirection::SOUTH => {
            if y >= 1 {
                lemma_horiz_index(m.width, m.height, x, y - 1);
            }
        },
        WallDirection::EAST => {
            if x + 1 < m.width {
                lemma_vert_index(m.width, m.height, x, y);
            }
        },
        WallDirection::WEST => {
            if x >= 1 {
                lemma_vert_index(m.width, m.height, x - 1, y);
            }
        },
    }
}

/// The wall grid. `width` and `height` are fixed at construction; `entry`
/// is the designated start cell. The wall vectors are the single source of
/// truth for internal edges; use [`SquareMaze::wall`] to query them.
#[derive(Debug)]
pub struct SquareMaze {
    pub width: usize,
    pub height: usize,
    pub entry: MazeCell,
    /// Stored horizontal walls; see [`MazeModel::horiz`] for the layout.
    pub horiz_walls: Vec<bool>,
    /// Stored vertical walls; see [`MazeModel::vert`] for the layout.
    pub vert_walls: Vec<bool>,
}

impl SquareMaze {
    /// The mathematical model of this grid.
    pub open spec fn model(self) -> MazeModel {
        MazeModel {
            width: self.width as int,
            height: self.height as int,
            entry: (self.entry.x as int, self.entry.y as int),
            horiz: self.horiz_walls@,
            vert: self.vert_walls@,
        }
    }

    pub open spec fn wf(self) -> bool {
        self.model().wf()
    }
}

fn filled_walls(n: usize) -> (v: Vec<bool>)
    ensures
        v@.len() == n,
        forall|i: int| 0 <= i < n ==> v@[i],
{
    let mut v: Vec<bool> = Vec::new();
    let mut k: usize = 0;
    while k < n
        invariant
            k <= n,
            v@.len() == k,
            forall|i: int| 0 <= i < k ==> v@[i],
        decreases n - k,
    {
        v.push(true);
        k = k + 1;
    }
    v
}

impl SquareMaze {
    /// A fully walled grid of the given dimensions with entry `(0, 0)`.
    /// Rejects `width == 0` or `height == 0` with `InvalidDimensions`.
    pub fn new_filled(width: usize, height: usize) -> (r: Result<SquareMaze, MazeError>)
        requires
            width * height <= usize::MAX,
        ensures
            match r {
                Ok(m) => {
                    &&& width >= 1 && height >= 1
                    &&& m.wf()
                    &&& m.width == width
                    &&& m.height == height
                    &&& m.entry == (MazeCell { x: 0, y: 0 })
                    &&& m.model().fully_walled()
                },
                Err(e) => e == MazeError::InvalidDimensions && (width == 0 || height == 0),
            },
    {
        if width == 0 || height == 0 {
            return Err(MazeError::InvalidDimensions);
        }
        assert(width * (height - 1) <= width * height && (width - 1) * height <= width * height)
            by (nonlinear_arith)
            requires width >= 1 && height >= 1;
        let horiz_walls = filled_walls(width * (height - 1));
        let vert_walls = filled_walls((width - 1) * height);
        Ok(SquareMaze { width, height, entry: MazeCell { x: 0, y: 0 }, horiz_walls, vert_walls })
    }

    /// Whether the wall in direction `d` of cell `(x, y)` is present; a
    /// direction whose neighbor lies outside the grid reports a wall.
    pub fn wall(&self, d: WallDirection, x: usize, y: usize) -> (r: bool)
        requires
            self.wf(),
            x < self.width,
            y < self.height,
        ensures
            r == self.model().wall(d, x as int, y as int),
    {
        match d {
            WallDirection::NORTH => {
                if y + 1 < self.height {
                    proof {
                        lemma_horiz_index(self.width as int, self.height as int, x as int, y as int);
                    }
                    self.horiz_walls[y * self.width + x]
                } else {
                    true
                }
            },
            WallDirection::SOUTH => {
                if y >= 1 {
                    proof {
                        lemma_horiz_index(self.width as int, self.height as int, x as int, y as int - 1);
                    }
                    self.horiz_walls[(y - 1) * self.width + x]
                } else {
                    true
                }
            },
            WallDirection::EAST => {
                if x + 1 < self.width {
                    proof {
                        lemma_vert_index(self.width as int, self.height as int, x as int, y as int);
                    }
                    self.vert_walls[y * (self.width - 1) + x]
                } else {
                    true
                }
            },
            WallDirection::WEST => {
                if x >= 1 {
                    proof {
                        lemma_vert_index(self.width as int, self.height as int, x as int - 1, y as int);
                    }
                    self.vert_walls[y * (self.width - 1) + (x - 1)]
                } else {
                    true
                }
            },
        }
    }

    /// Bounds-checked wall query: `OutOfBounds` for a coordinate outside the
    /// grid, otherwise exactly [`SquareMaze::wall`].
    pub fn try_wall(&self, d: WallDirection, x: usize, y: usize) -> (r: Result<bool, MazeError>)
        requires
            self.wf(),
        ensures
            x < self.width && y < self.height
                ==> r == Ok::<bool, MazeError>(self.model().wall(d, x as int, y as int)),
            !(x < self.width && y < self.height)
                ==> r == Err::<bool, MazeError>(MazeError::OutOfBounds),
    {
        if x < self.width && y < self.height {
            Ok(self.wall(d, x, y))
        } else {
            Err(MazeError::OutOfBounds)
        }
    }

    /// Clears the wall between `(x, y)` and its neighbor in direction `d`;
    /// a no-op when that neighbor lies outside the grid, so a boundary edge
    /// can never be opened.
    pub fn open_wall(&mut self, d: WallDirection, x: usize, y: usize)
        requires
            old(self).wf(),
            x < old(self).width,
            y < old(self).height,
        ensures
            final(self).model() == old(self).model().open_edge(d, x as int, y as int),
            final(self).wf(),
    {
        match d {
            WallDirection::NORTH => {
                if y + 1 < self.height {
                    proof {
                        lemma_horiz_index(self.width as int, self.height as int, x as int, y as int);
                    }
                    self.horiz_walls.set(y * self.width + x, false);
                }
            },
            WallDirection::SOUTH => {
                if y >= 1 {
                    proof {
                        lemma_horiz_index(self.width as int, self.height as int, x as int, y as int - 1);
                    }
                    self.horiz_walls.set((y - 1) * self.width + x, false);
                }
            },
            WallDirection::EAST => {
                if x + 1 < self.width {
                    proof {
                        lemma_vert_index(self.width as int, self.height as int, x as int, y as int);
                    }
                    self.vert_walls.set(y * (self.width - 1) + x, false);
                }
            },
            WallDirection::WEST => {
                if x >= 1 {
                    proof {
                        lemma_vert_index(self.width as int, self.height as int, x as int - 1, y as int);
                    }
                    self.vert_walls.set(y * (self.width - 1) + (x - 1), false);
                }
            },
        }
    }
}

/// Symmetry of shared edges: the two cell-relative queries for one internal
/// edge read the same stored bit, so they always agree.
pub proof fn lemma_wall_symmetry(m: MazeModel, x: int, y: int)
    requires
        m.wf(),
        0 <= x < m.width,
        0 <= y < m.height,
    ensures
        x + 1 < m.width ==> m.wall(WallDirection::EAST, x, y) == m.wall(WallDirection::WEST, x + 1, y),
        y + 1 < m.height ==> m.wall(WallDirection::NORTH, x, y) == m.wall(WallDirection::SOUTH, x, y + 1),
{
}

/// Boundary sealing: a query whose neighbor lies outside the grid reports a
/// wall, whatever the stored bits hold; boundary edges have no storage at
/// all, so no mutation can unseal them.
pub proof fn lemma_boundary_sealed(m: MazeModel, d: WallDirection, x: int, y: int)
    requires
        0 <= x < m.width,
        0 <= y < m.height,
        m.edge_index(d, x, y) is None,
    ensures
        m.wall(d, x, y),
{
}

} // verus!
