//! The maze grid: the authoritative level layout that the host serves to
//! every joiner.
//!
//! A cell is `0` where players can walk and non-zero where a wall stands.
//! The standard level is 33 tiles wide and 17 tall with a closed border.
//! Reading a map file and drawing are outside jobs; this module holds the
//! grid itself, the digit-line parser, and the random spawn picker.

use vstd::prelude::*;
use crate::codec::row_wf;
use crate::rng::rand_in_range;

verus! {

/// The number of rows of the standard level.
pub const MAP_ROWS: usize = 17;

/// The number of columns of the standard level.
pub const MAP_COLS: usize = 33;

/// A grid that fits the wire format: both dimensions fit the two-byte
/// counts and every cell fits one byte.
pub open spec fn grid_wf(g: Seq<Seq<i32>>) -> bool {
    g.len() <= 0xFFFF && forall|i: int| 0 <= i < g.len() ==> row_wf(#[trigger] g[i])
}

/// The maze level: a rectangular grid of tiles.
pub struct Maze {
    pub grid: Vec<Vec<i32>>,
}

impl View for Maze {
    type V = Seq<Seq<i32>>;

    open spec fn view(&self) -> Seq<Seq<i32>> {
        Seq::new(self.grid@.len(), |i: int| self.grid@[i]@)
    }
}

/// Every byte is an ASCII digit.
pub open spec fn all_digits(lines: Seq<Seq<u8>>) -> bool {
    forall|i: int, j: int|
        0 <= i < lines.len() && 0 <= j < lines[i].len() ==> 48 <= #[trigger] lines[i][j] <= 57
}

/// The dimensions fit the wire format's two-byte counts.
pub open spec fn lines_sized(lines: Seq<Seq<u8>>) -> bool {
    lines.len() <= 0xFFFF && forall|i: int| 0 <= i < lines.len() ==> (#[trigger] lines[i]).len()
        <= 0xFFFF
}

impl Maze {
    pub open spec fn wf(&self) -> bool {
        grid_wf(self@)
    }

    /// The standard empty level: a walkable interior enclosed by a one-tile
    /// wall border.
    pub fn empty_map() -> (m: Maze)
        ensures
            m.wf(),
            m@.len() == MAP_ROWS,
            forall|i: int| 0 <= i < MAP_ROWS ==> (#[trigger] m@[i]).len() == MAP_COLS,
            forall|i: int, j: int|
                0 <= i < MAP_ROWS && 0 <= j < MAP_COLS ==> (#[trigger] m@[i][j]) == (if i == 0 || i
                    == MAP_ROWS - 1 || j == 0 || j == MAP_COLS - 1 {
                    1int
                } else {
                    0int
                }),
    {
        let mut grid: Vec<Vec<i32>> = Vec::new();
        let mut row_i: usize = 0;
        while row_i < MAP_ROWS
            invariant
                row_i <= MAP_ROWS,
                grid@.len() == row_i,
                forall|i: int| 0 <= i < row_i ==> (#[trigger] grid@[i]@).len() == MAP_COLS,
                forall|i: int, j: int|
                    0 <= i < row_i && 0 <= j < MAP_COLS ==> (#[trigger] grid@[i]@[j]) == (if i == 0
                        || i == MAP_ROWS - 1 || j == 0 || j == MAP_COLS - 1 {
                        1int
                    } else {
                        0int
                    }),
            decreases MAP_ROWS - row_i,
        {
            let mut row: Vec<i32> = Vec::new();
            let mut col: usize = 0;
            while col < MAP_COLS
                invariant
                    col <= MAP_COLS,
                    row_i < MAP_ROWS,
                    row@.len() == col,
                    forall|j: int|
                        0 <= j < col ==> (#[trigger] row@[j]) == (if row_i == 0 || row_i == MAP_ROWS
                            - 1 || j == 0 || j == MAP_COLS - 1 {
                            1int
                        } else {
                            0int
                        }),
                decreases MAP_COLS - col,
            {
                if row_i == 0 || row_i == MAP_ROWS - 1 || col == 0 || col == MAP_COLS - 1 {
                    row.push(1);
                } else {
                    row.push(0);
                }
                col += 1;
            }
            grid.push(row);
            row_i += 1;
        }
        let m = Maze { grid };
        m
    }

    /// Builds a maze from the digit lines of a map file: one line per row,
    /// one digit per tile. Fails on any non-digit byte and on dimensions
    /// that would not fit a datagram; the file contents are otherwise taken
    /// as they are.
    pub fn from_lines(lines: &Vec<Vec<u8>>) -> (r: Option<Maze>)
        ensures
            match r {
                Some(m) => {
                    &&& all_digits(lines.deep_view())
                    &&& lines_sized(lines.deep_view())
                    &&& m.wf()
                    &&& m@.len() == lines@.len()
                    &&& forall|i: int|
                        0 <= i < lines@.len() ==> (#[trigger] m@[i]).len() == lines@[i]@.len()
                    &&& forall|i: int, j: int|
                        0 <= i < lines@.len() && 0 <= j < lines@[i]@.len() ==> (#[trigger] m@[i][j])
                            == lines@[i]@[j] - 48
                },
                None => !(all_digits(lines.deep_view()) && lines_sized(lines.deep_view())),
            },
    {
        proof {
            crate::codec::lemma_names_deep_view_v(*lines);
        }
        if lines.len() > 0xFFFF {
            return None;
        }
        let mut grid: Vec<Vec<i32>> = Vec::new();
        let mut i: usize = 0;
        while i < lines.len()
            invariant
                i <= lines@.len(),
                lines@.len() <= 0xFFFF,
                lines.deep_view().len() == lines@.len(),
                forall|k: int| 0 <= k < lines@.len() ==> lines.deep_view()[k] == lines@[k]@,
                grid@.len() == i,
                forall|k: int| 0 <= k < i ==> (#[trigger] grid@[k]@).len() == lines@[k]@.len(),
                forall|k: int| 0 <= k < i ==> lines@[k]@.len() <= 0xFFFF,
                forall|k: int, j: int|
                    0 <= k < i && 0 <= j < lines@[k]@.len() ==> 48 <= #[trigger] lines@[k]@[j]
                        <= 57,
                forall|k: int, j: int|
                    0 <= k < i && 0 <= j < lines@[k]@.len() ==> (#[trigger] grid@[k]@[j])
                        == lines@[k]@[j] - 48,
            decreases lines@.len() - i,
        {
            let line = &lines[i];
            if line.len() > 0xFFFF {
                proof {
                    assert(lines.deep_view()[i as int].len() > 0xFFFF);
                }
                return None;
            }
            let mut row: Vec<i32> = Vec::new();
            let mut j: usize = 0;
            while j < line.len()
                invariant
                    j <= line@.len(),
                    i < lines@.len(),
                    line@ == lines@[i as int]@,
                    lines.deep_view().len() == lines@.len(),
                    lines.deep_view()[i as int] == lines@[i as int]@,
                    row@.len() == j,
                    forall|t: int| 0 <= t < j ==> 48 <= #[trigger] line@[t] <= 57,
                    forall|t: int| 0 <= t < j ==> (#[trigger] row@[t]) == line@[t] - 48,
                decreases line@.len() - j,
            {
                let b = line[j];
                if b < 48 || b > 57 {
                    proof {
                        assert(lines.deep_view()[i as int][j as int] == b);
                    }
                    return None;
                }
                row.push(b as i32 - 48);
                j += 1;
            }
            grid.push(row);
            i += 1;
        }
        let m = Maze { grid };
        proof {
            assert(m@.len() == lines@.len());
            assert forall|k: int| 0 <= k < lines@.len() implies (#[trigger] m@[k]).len()
                == lines@[k]@.len() by {
                assert(m@[k] == grid@[k]@);
            }
            assert forall|k: int, j: int|
                0 <= k < lines@.len() && 0 <= j < lines@[k]@.len() implies (#[trigger] m@[k][j])
                == lines@[k]@[j] - 48 by {
                assert(m@[k] == grid@[k]@);
            }
            assert forall|k: int| 0 <= k < m@.len() implies row_wf(#[trigger] m@[k]) by {
                assert(m@[k] == grid@[k]@);
                assert forall|j: int| 0 <= j < m@[k].len() implies 0 <= (#[trigger] m@[k][j])
                    <= 255 by {
                    assert(grid@[k]@[j] == lines@[k]@[j] - 48);
                }
            }
        }
        Some(m)
    }

    /// Picks a random free tile in the standard level's interior: up to a
    /// thousand draws of a tile in rows 1 to 15 and columns 1 to 32, the
    /// first open one wins. `None` means no open tile was drawn.
    pub fn get_random_location(&self) -> (r: Option<(u32, u32)>)
        requires
            self@.len() > 15,
            forall|i: int| 0 <= i < self@.len() ==> (#[trigger] self@[i]).len() > 32,
        ensures
            r matches Some(p) ==> 1 <= p.0 <= 32 && 1 <= p.1 <= 15 && self@[p.1 as int][p.0 as int]
                == 0,
    {
        let mut tries: usize = 0;
        while tries < 1000
            invariant
                self@.len() > 15,
                forall|i: int| 0 <= i < self@.len() ==> (#[trigger] self@[i]).len() > 32,
            decreases 1000 - tries,
        {
            let y = rand_in_range(1, 15);
            let x = rand_in_range(1, 32);
            proof {
                assert(self@[y as int].len() > 32);
                assert(self@[y as int] == self.grid@[y as int]@);
            }
            if self.grid[y][x] == 0 {
                return Some((x as u32, y as u32));
            }
            tries += 1;
        }
        None
    }

    /// The number of rows.
    pub fn rows(&self) -> (r: usize)
        ensures
            r == self@.len(),
    {
        self.grid.len()
    }
}

} // verus!
