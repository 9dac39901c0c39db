//! The placeholder a placement preview is painted with: a grid of lines
//! every sixth row and column.

use vstd::prelude::*;
use crate::text::push_char;

verus! {

/// Rows of the placeholder grid.
pub const GRID_ROWS: usize = 54;

/// Columns of the placeholder grid.
pub const GRID_COLS: usize = 36;

/// The placeholder's character at (`row`, `col`): a line glyph on every
/// sixth row and column, blank elsewhere.
pub open spec fn grid_char(row: int, col: int) -> char {
    if row % 6 == 0 || col % 6 == 0 {
        'n'
    } else {
        ' '
    }
}

/// Row `row` of the placeholder.
pub open spec fn grid_row(row: int) -> Seq<char> {
    Seq::new(GRID_COLS as nat, |col: int| grid_char(row, col))
}

/// The first `rows` rows of the placeholder, one line each.
pub open spec fn grid_lines(rows: int) -> Seq<char>
    decreases rows,
{
    if rows <= 0 {
        Seq::empty()
    } else if rows == 1 {
        grid_row(0)
    } else {
        grid_lines(rows - 1) + seq!['\n'] + grid_row(rows - 1)
    }
}

/// The placeholder text.
pub fn grid_text() -> (text: String)
    ensures
        text@ == grid_lines(GRID_ROWS as int),
{
    let mut text = String::new();
    let mut row: usize = 0;
    while row < GRID_ROWS
        invariant
            row <= GRID_ROWS,
            text@ == grid_lines(row as int),
        decreases GRID_ROWS - row,
    {
        let ghost start = text@;
        if row > 0 {
            push_char(&mut text, '\n');
        }
        let ghost line_start = text@;
        let mut col: usize = 0;
        while col < GRID_COLS
            invariant
                row < GRID_ROWS,
                col <= GRID_COLS,
                text@ == line_start + grid_row(row as int).take(col as int),
            decreases GRID_COLS - col,
        {
            let c = if row % 6 == 0 || col % 6 == 0 { 'n' } else { ' ' };
            push_char(&mut text, c);
            assert(grid_row(row as int).take(col + 1) =~= grid_row(row as int).take(col as int).push(c));
            col = col + 1;
        }
        assert(grid_row(row as int).take(GRID_COLS as int) =~= grid_row(row as int));
        proof {
            if row == 0 {
                assert(line_start =~= Seq::<char>::empty());
                assert(text@ =~= grid_lines(1));
            } else {
                assert(text@ =~= grid_lines(row as int) + seq!['\n'] + grid_row(row as int));
            }
        }
        row = row + 1;
    }
    text
}

/// A tile count taken from a script: at least one.
pub fn tile_count_arg(requested: i32) -> (count: usize)
    ensures
        count == if requested < 1 { 1 } else { requested as int },
{
    if requested < 1 {
        1
    } else {
        requested as usize
    }
}

} // verus!
