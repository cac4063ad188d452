//! Drawing on a character grid, for the ASCII layout of a sheet.

use vstd::prelude::*;

verus! {

/// The characters of a grid, row by row.
pub open spec fn cells(grid: Seq<Vec<char>>) -> Seq<Seq<char>> {
    grid.map_values(|row: Vec<char>| row@)
}

/// Every row of the grid has `cols` cells.
pub open spec fn is_rectangular(grid: Seq<Seq<char>>, cols: int) -> bool {
    forall|r: int| 0 <= r < grid.len() ==> (#[trigger] grid[r]).len() == cols
}

/// A cell that a horizontal edge crosses: it joins a vertical edge into a corner.
pub open spec fn horizontal_mark(c: char) -> char {
    if c == '|' || c == '+' {
        '+'
    } else {
        '-'
    }
}

/// A cell that a vertical edge crosses: it joins a horizontal edge into a corner.
pub open spec fn vertical_mark(c: char) -> char {
    if c == '-' || c == '+' {
        '+'
    } else {
        '|'
    }
}

/// The cell at row `r`, column `c`, showing `old`, once the outline of the box with corner
/// `(x, y)` and extent `w` by `h` is drawn over it.
pub open spec fn outlined(old: char, r: int, c: int, x: int, y: int, w: int, h: int) -> char {
    let on_row = r == y || r == y + h;
    let on_col = c == x || c == x + w;
    if on_row && on_col {
        '+'
    } else if on_row && x <= c <= x + w {
        horizontal_mark(old)
    } else if on_col && y <= r <= y + h {
        vertical_mark(old)
    } else {
        old
    }
}

/// The cells after the horizontal edges of the box are drawn at the columns before `i`.
pub open spec fn after_rows(old: char, r: int, c: int, x: int, y: int, h: int, i: int) -> char {
    if (r == y || r == y + h) && x <= c < i {
        horizontal_mark(old)
    } else {
        old
    }
}

/// The cells after the vertical edges of the box are drawn at the rows before `j`.
pub open spec fn after_cols(prev: char, r: int, c: int, x: int, y: int, w: int, j: int) -> char {
    if (c == x || c == x + w) && y <= r < j {
        vertical_mark(prev)
    } else {
        prev
    }
}

/// Sets one cell of a grid.
fn set_cell(grid: &mut Vec<Vec<char>>, r: usize, c: usize, v: char)
    requires
        r < old(grid).len(),
        c < old(grid)@[r as int].len(),
    ensures
        final(grid).len() == old(grid).len(),
        cells(final(grid)@) == cells(old(grid)@).update(
            r as int,
            cells(old(grid)@)[r as int].update(c as int, v),
        ),
{
    let mut row = grid[r].clone();
    assert(row@ =~= old(grid)@[r as int]@);
    row.set(c, v);
    let ghost before = grid@;
    grid.set(r, row);
    assert(cells(grid@) =~= cells(before).update(r as int, cells(before)[r as int].update(c as int, v)));
}

/// Draws the outline of the box with corner `(x, y)` and extent `w` by `h` on the grid,
/// joining it with lines already there; what falls outside the grid is left out.
pub fn draw_rect(grid: &mut Vec<Vec<char>>, x: usize, y: usize, w: usize, h: usize)
    requires
        x + w < usize::MAX,
        y + h < usize::MAX,
        old(grid).len() > 0 ==> is_rectangular(cells(old(grid)@), old(grid)@[0].len() as int),
    ensures
        final(grid).len() == old(grid).len(),
        forall|r: int|
            0 <= r < final(grid).len() ==> (#[trigger] cells(final(grid)@)[r]).len() == cells(
                old(grid)@,
            )[r].len(),
        forall|r: int, c: int|
            0 <= r < final(grid).len() && 0 <= c < cells(old(grid)@)[r].len() ==> #[trigger] cells(
                final(grid)@,
            )[r][c] == outlined(cells(old(grid)@)[r][c], r, c, x as int, y as int, w as int, h as int),
{
    let rows = grid.len();
    if rows == 0 {
        return;
    }
    let cols = grid[0].len();
    let ghost start = cells(grid@);
    assert(start[0] == grid@[0]@);
    let mut i = x;
    while i <= x + w && i < cols
        invariant
            x <= i,
            i <= x + w + 1,
            x + w < usize::MAX,
            y + h < usize::MAX,
            grid.len() == rows,
            rows > 0,
            is_rectangular(start, cols as int),
            is_rectangular(cells(grid@), cols as int),
            forall|r: int, c: int|
                0 <= r < rows && 0 <= c < cols ==> #[trigger] cells(grid@)[r][c] == after_rows(
                    start[r][c],
                    r,
                    c,
                    x as int,
                    y as int,
                    h as int,
                    i as int,
                ),
        decreases cols - i,
    {
        if y < rows {
            let ghost before = cells(grid@);
            assert(before[y as int] == grid@[y as int]@ && before[y as int].len() == cols);
            let cur = grid[y][i];
            assert(cur == before[y as int][i as int]);
            set_cell(grid, y, i, if cur == '|' || cur == '+' {
                '+'
            } else {
                '-'
            });
            assert(is_rectangular(cells(grid@), cols as int)) by {
                assert forall|r: int| 0 <= r < rows implies (#[trigger] cells(grid@)[r]).len() == cols by {
                    if r != y {
                        assert(cells(grid@)[r] == before[r]);
                    }
                }
            }
        }
        if y + h < rows {
            let ghost before = cells(grid@);
            assert(before[(y + h) as int] == grid@[(y + h) as int]@ && before[(y + h) as int].len()
                == cols);
            let cur = grid[y + h][i];
            assert(cur == before[(y + h) as int][i as int]);
            set_cell(grid, y + h, i, if cur == '|' || cur == '+' {
                '+'
            } else {
                '-'
            });
            assert(is_rectangular(cells(grid@), cols as int)) by {
                assert forall|r: int| 0 <= r < rows implies (#[trigger] cells(grid@)[r]).len() == cols by {
                    if r != y + h {
                        assert(cells(grid@)[r] == before[r]);
                    }
                }
            }
        }
        i = i + 1;
    }
    let ghost mid = cells(grid@);
    let mut j = y;
    while j <= y + h && j < rows
        invariant
            y <= j,
            j <= y + h + 1,
            x + w < usize::MAX,
            y + h < usize::MAX,
            grid.len() == rows,
            is_rectangular(start, cols as int),
            is_rectangular(mid, cols as int),
            is_rectangular(cells(grid@), cols as int),
            forall|r: int, c: int|
                0 <= r < rows && 0 <= c < cols ==> #[trigger] mid[r][c] == after_rows(
                    start[r][c],
                    r,
                    c,
                    x as int,
                    y as int,
                    h as int,
                    (x + w + 1) as int,
                ),
            forall|r: int, c: int|
                0 <= r < rows && 0 <= c < cols ==> #[trigger] cells(grid@)[r][c] == after_cols(
                    mid[r][c],
                    r,
                    c,
                    x as int,
                    y as int,
                    w as int,
                    j as int,
                ),
        decreases rows - j,
    {
        if x < cols {
            let ghost before = cells(grid@);
            assert(before[j as int] == grid@[j as int]@ && before[j as int].len() == cols);
            let cur = grid[j][x];
            assert(cur == before[j as int][x as int]);
            set_cell(grid, j, x, if cur == '-' || cur == '+' {
                '+'
            } else {
                '|'
            });
            assert(is_rectangular(cells(grid@), cols as int)) by {
                assert forall|r: int| 0 <= r < rows implies (#[trigger] cells(grid@)[r]).len() == cols by {
                    if r != j {
                        assert(cells(grid@)[r] == before[r]);
                    }
                }
            }
        }
        if x + w < cols {
            let ghost before = cells(grid@);
            assert(before[j as int] == grid@[j as int]@ && before[j as int].len() == cols);
            let cur = grid[j][x + w];
            assert(cur == before[j as int][(x + w) as int]);
            set_cell(grid, j, x + w, if cur == '-' || cur == '+' {
                '+'
            } else {
                '|'
            });
            assert(is_rectangular(cells(grid@), cols as int)) by {
                assert forall|r: int| 0 <= r < rows implies (#[trigger] cells(grid@)[r]).len() == cols by {
                    if r != j {
                        assert(cells(grid@)[r] == before[r]);
                    }
                }
            }
        }
        j = j + 1;
    }
    let ghost sides = cells(grid@);
    mark_corner(grid, x, y, cols);
    mark_corner(grid, x, y + h, cols);
    mark_corner(grid, x + w, y, cols);
    mark_corner(grid, x + w, y + h, cols);
    proof {
        assert forall|r: int, c: int|
            0 <= r < rows && 0 <= c < cols implies #[trigger] cells(grid@)[r][c] == outlined(
            start[r][c],
            r,
            c,
            x as int,
            y as int,
            w as int,
            h as int,
        ) by {
            assert(mid[r][c] == after_rows(start[r][c], r, c, x as int, y as int, h as int, (x + w + 1) as int));
            assert(sides[r][c] == after_cols(mid[r][c], r, c, x as int, y as int, w as int, (y + h + 1) as int));
        }
        assert forall|r: int| 0 <= r < rows implies (#[trigger] cells(grid@)[r]).len() == cells(
            old(grid)@,
        )[r].len() by {}
    }
}

/// Sets the cell at column `cx`, row `cy` to a corner, when the grid has that cell.
fn mark_corner(grid: &mut Vec<Vec<char>>, cx: usize, cy: usize, cols: usize)
    requires
        is_rectangular(cells(old(grid)@), cols as int),
    ensures
        final(grid).len() == old(grid).len(),
        is_rectangular(cells(final(grid)@), cols as int),
        forall|r: int, c: int|
            0 <= r < old(grid).len() && 0 <= c < cols ==> #[trigger] cells(final(grid)@)[r][c] == if r
                == cy && c == cx {
                '+'
            } else {
                cells(old(grid)@)[r][c]
            },
{
    if cy < grid.len() && cx < cols {
        let ghost before = cells(grid@);
        assert(before[cy as int] == grid@[cy as int]@ && before[cy as int].len() == cols);
        set_cell(grid, cy, cx, '+');
        assert forall|r: int| 0 <= r < grid.len() implies (#[trigger] cells(grid@)[r]).len() == cols by {
            if r != cy {
                assert(cells(grid@)[r] == before[r]);
            }
        }
    }
}

/// The cell at row `r`, column `c`, showing `old`, once `label` is written centred in the
/// box with corner `(x, y)` and extent `w` by `h`: on the box's middle row, only strictly
/// inside the box, and only for a box more than two cells wide.
pub open spec fn labelled(
    old: char,
    r: int,
    c: int,
    x: int,
    y: int,
    w: int,
    h: int,
    label: Seq<char>,
) -> char {
    let cx = x + w / 2;
    let cy = y + h / 2;
    let half = label.len() / 2;
    let start = if cx >= half {
        cx - half
    } else {
        0
    };
    if w > 2 && h > 0 && r == cy && y < cy < y + h && x < c < x + w && start <= c < start
        + label.len() {
        label[c - start]
    } else {
        old
    }
}

/// Writes `label` centred in the box with corner `(x, y)` and extent `w` by `h`, inside its
/// outline; what falls outside the grid is left out.
pub fn write_label(grid: &mut Vec<Vec<char>>, x: usize, y: usize, w: usize, h: usize, label: &Vec<char>)
    requires
        x + w + label.len() < usize::MAX,
        y + h < usize::MAX,
    ensures
        final(grid).len() == old(grid).len(),
        forall|r: int|
            0 <= r < final(grid).len() ==> (#[trigger] cells(final(grid)@)[r]).len() == cells(
                old(grid)@,
            )[r].len(),
        forall|r: int, c: int|
            0 <= r < final(grid).len() && 0 <= c < cells(old(grid)@)[r].len() ==> #[trigger] cells(
                final(grid)@,
            )[r][c] == labelled(
                cells(old(grid)@)[r][c],
                r,
                c,
                x as int,
                y as int,
                w as int,
                h as int,
                label@,
            ),
{
    let ghost start_cells = cells(grid@);
    if !(w > 2 && h > 0) {
        return;
    }
    let cx = x + w / 2;
    let cy = y + h / 2;
    let half = label.len() / 2;
    let start_x = if cx >= half {
        cx - half
    } else {
        0
    };
    let mut i: usize = 0;
    while i < label.len()
        invariant
            i <= label.len(),
            x + w + label.len() < usize::MAX,
            y + h < usize::MAX,
            w > 2 && h > 0,
            cx == x + w / 2,
            cy == y + h / 2,
            start_x == if cx >= label.len() / 2 {
                cx - label.len() / 2
            } else {
                0
            },
            start_x <= cx,
            grid.len() == start_cells.len(),
            forall|r: int|
                0 <= r < grid.len() ==> (#[trigger] cells(grid@)[r]).len() == start_cells[r].len(),
            forall|r: int, c: int|
                0 <= r < grid.len() && 0 <= c < start_cells[r].len() ==> #[trigger] cells(
                    grid@,
                )[r][c] == if r == cy && y < cy < y + h && x < c < x + w && start_x <= c < start_x
                    + i {
                    label@[c - start_x]
                } else {
                    start_cells[r][c]
                },
        decreases label.len() - i,
    {
        let col = start_x + i;
        if col > x && col < x + w && cy > y && cy < y + h && cy < grid.len() && col < grid[cy].len() {
            let ghost before = cells(grid@);
            assert(before[cy as int] == grid@[cy as int]@);
            set_cell(grid, cy, col, label[i]);
            assert forall|r: int| 0 <= r < grid.len() implies (#[trigger] cells(grid@)[r]).len()
                == start_cells[r].len() by {
                if r != cy {
                    assert(cells(grid@)[r] == before[r]);
                }
            }
        } else {
            proof {
                if cy < grid.len() {
                    assert(cells(grid@)[cy as int] == grid@[cy as int]@);
                }
            }
        }
        i = i + 1;
    }
}

} // verus!
