//! Pure helpers for the terminal presentation of a maze: the lookup from a
//! wall-junction pattern to its box-drawing glyph, and the mapping from maze
//! coordinates to terminal coordinates.

use vstd::prelude::*;

verus! {

/// The four wall stubs meeting at a junction, counter-clockwise: above,
/// left, below, right of the junction point.
#[derive(Clone, Copy, PartialEq, Eq, Structural, Hash, Debug)]
pub struct EdgePattern {
    pub top: bool,
    pub left: bool,
    pub bottom: bool,
    pub right: bool,
}

impl EdgePattern {
    pub fn new(top: bool, left: bool, bottom: bool, right: bool) -> (p: EdgePattern)
        ensures
            p == (EdgePattern { top, left, bottom, right }),
    {
        EdgePattern { top, left, bottom, right }
    }

    /// The pattern's position in the glyph table: top, left, bottom, right
    /// read as the bits of a four-bit number, most significant first.
    pub open spec fn code_spec(self) -> int {
        (if self.top { 8int } else { 0int }) + (if self.left { 4int } else { 0int })
            + (if self.bottom { 2int } else { 0int }) + (if self.right { 1int } else { 0int })
    }

    pub fn code(&self) -> (c: usize)
        ensures
            c == self.code_spec(),
            c < 16,
    {
        (if self.top { 8usize } else { 0usize }) + (if self.left { 4usize } else { 0usize })
            + (if self.bottom { 2usize } else { 0usize }) + (if self.right { 1usize } else { 0usize })
    }
}

/// The glyph drawn for each junction pattern, indexed by
/// [`EdgePattern::code_spec`].
pub open spec fn edge_glyphs() -> Seq<char> {
    seq![
        ' ', '━', '╻', '┏', '━', '━', '┓', '┳', '╹', '┗', '┃', '┣', '┛', '┻', '┫', '╋',
    ]
}

/// The junction-glyph table: the glyph for a pattern `p` is at index
/// `p.code()`.
pub fn init_edge_map() -> (m: Vec<char>)
    ensures
        m@ == edge_glyphs(),
        m@.len() == 16,
{
    let mut m: Vec<char> = Vec::new();
    m.push(' ');
    m.push('━');
    m.push('╻');
    m.push('┏');
    m.push('━');
    m.push('━');
    m.push('┓');
    m.push('┳');
    m.push('╹');
    m.push('┗');
    m.push('┃');
    m.push('┣');
    m.push('┛');
    m.push('┻');
    m.push('┫');
    m.push('╋');
    proof {
        assert(m@ =~= edge_glyphs());
    }
    m
}

/// Transforms maze `(x, y)` coordinates into terminal `(column, row)`
/// coordinates: each cell is three columns wide and two rows tall, rows
/// count downward from the top of the drawing, and the drawing is offset
/// by one glyph in each direction.
pub fn maze_pos(x: usize, y: usize, maze_height: usize) -> (r: (usize, usize))
    requires
        y <= maze_height,
        3 * x + 2 <= usize::MAX,
        2 * maze_height + 2 <= usize::MAX,
    ensures
        r.0 == 2 + 3 * x,
        r.1 == 2 * maze_height - 2 * y,
{
    let h_maze = 2 + maze_height * 2;
    (2 + x * 3, h_maze - (2 + y * 2))
}

} // verus!
