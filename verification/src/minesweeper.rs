//! Minefield annotation: replace each empty square of a board with the
//! number of mines in the eight adjacent squares, leaving squares with no
//! adjacent mine as they are.

use vstd::prelude::*;
use crate::strutil::string_from_chars;

verus! {

/// Whether the square at row `i`, column `j` of `rows` holds a mine.
pub open spec fn mine_at(rows: Seq<Seq<char>>, i: int, j: int) -> bool {
    0 <= i < rows.len() && 0 <= j < rows[i].len() && rows[i][j] == '*'
}

/// How many of the eight neighbours of row `i`, column `j` hold a mine.
pub open spec fn adjacent_mines(rows: Seq<Seq<char>>, i: int, j: int) -> int {
    (if mine_at(rows, i - 1, j - 1) {
        1int
    } else {
        0int
    }) + (if mine_at(rows, i - 1, j) {
        1int
    } else {
        0int
    }) + (if mine_at(rows, i - 1, j + 1) {
        1int
    } else {
        0int
    }) + (if mine_at(rows, i, j - 1) {
        1int
    } else {
        0int
    }) + (if mine_at(rows, i, j + 1) {
        1int
    } else {
        0int
    }) + (if mine_at(rows, i + 1, j - 1) {
        1int
    } else {
        0int
    }) + (if mine_at(rows, i + 1, j) {
        1int
    } else {
        0int
    }) + (if mine_at(rows, i + 1, j + 1) {
        1int
    } else {
        0int
    })
}

/// The decimal digit character for a neighbour count between 1 and 8.
pub open spec fn count_char(n: int) -> char {
    if n == 1 {
        '1'
    } else if n == 2 {
        '2'
    } else if n == 3 {
        '3'
    } else if n == 4 {
        '4'
    } else if n == 5 {
        '5'
    } else if n == 6 {
        '6'
    } else if n == 7 {
        '7'
    } else {
        '8'
    }
}

/// What the annotated board shows at row `i`, column `j`: mines stay, a
/// square with adjacent mines shows their count, and any other square shows
/// a space.
pub open spec fn annotated_at(rows: Seq<Seq<char>>, i: int, j: int) -> char {
    if rows[i][j] == '*' {
        '*'
    } else if adjacent_mines(rows, i, j) > 0 {
        count_char(adjacent_mines(rows, i, j))
    } else {
        ' '
    }
}

/// The rows of the board, each as its character sequence.
pub open spec fn board_view(minefield: Seq<&str>) -> Seq<Seq<char>> {
    Seq::new(minefield.len(), |i: int| minefield[i]@)
}

/// Whether the square at row `i`, column `j` holds a mine.
fn has_mine(minefield: &[&str], i: usize, j: usize) -> (r: bool)
    ensures
        r == mine_at(board_view(minefield@), i as int, j as int),
{
    if i < minefield.len() {
        let row = minefield[i];
        let len = row.unicode_len();
        if j < len {
            let c = row.get_char(j);
            c == '*'
        } else {
            false
        }
    } else {
        false
    }
}

/// Whether the neighbour of row `i`, column `j` at offset `(di, dj)` holds a
/// mine; offsets are -1, 0 or 1, encoded as `d? == 0` for -1, 1 for 0, 2
/// for +1 so that the lookup stays in unsigned arithmetic.
fn has_mine_off(minefield: &[&str], i: usize, j: usize, di: usize, dj: usize) -> (r: bool)
    requires
        di <= 2,
        dj <= 2,
        di == 2 ==> i < usize::MAX,
        dj == 2 ==> j < usize::MAX,
    ensures
        r == mine_at(board_view(minefield@), i as int + di as int - 1, j as int + dj as int - 1),
{
    if di == 0 && i == 0 {
        return false;
    }
    if dj == 0 && j == 0 {
        return false;
    }
    let x = if di == 0 {
        i - 1
    } else if di == 1 {
        i
    } else {
        i + 1
    };
    let y = if dj == 0 {
        j - 1
    } else if dj == 1 {
        j
    } else {
        j + 1
    };
    has_mine(minefield, x, y)
}

/// How many of the eight neighbours of row `i`, column `j` hold a mine.
fn count_adjacent(minefield: &[&str], i: usize, j: usize) -> (r: u32)
    requires
        i < usize::MAX,
        j < usize::MAX,
    ensures
        r == adjacent_mines(board_view(minefield@), i as int, j as int),
        r <= 8,
{
    let mut count: u32 = 0;
    if has_mine_off(minefield, i, j, 0, 0) {
        count = count + 1;
    }
    if has_mine_off(minefield, i, j, 0, 1) {
        count = count + 1;
    }
    if has_mine_off(minefield, i, j, 0, 2) {
        count = count + 1;
    }
    if has_mine_off(minefield, i, j, 1, 0) {
        count = count + 1;
    }
    if has_mine_off(minefield, i, j, 1, 2) {
        count = count + 1;
    }
    if has_mine_off(minefield, i, j, 2, 0) {
        count = count + 1;
    }
    if has_mine_off(minefield, i, j, 2, 1) {
        count = count + 1;
    }
    if has_mine_off(minefield, i, j, 2, 2) {
        count = count + 1;
    }
    count
}

/// The digit character for a neighbour count between 1 and 8.
fn digit_for(n: u32) -> (r: char)
    requires
        1 <= n <= 8,
    ensures
        r == count_char(n as int),
{
    if n == 1 {
        '1'
    } else if n == 2 {
        '2'
    } else if n == 3 {
        '3'
    } else if n == 4 {
        '4'
    } else if n == 5 {
        '5'
    } else if n == 6 {
        '6'
    } else if n == 7 {
        '7'
    } else {
        '8'
    }
}

/// Annotate a board given as one string per row: mines stay, every other
/// square shows its adjacent-mine count, or a space when the count is zero.
pub fn annotate(minefield: &[&str]) -> (r: Vec<String>)
    ensures
        r@.len() == minefield@.len(),
        forall|i: int| 0 <= i < r@.len() ==> (#[trigger] r@[i])@.len() == minefield@[i]@.len(),
        forall|i: int, j: int|
            0 <= i < r@.len() && 0 <= j < minefield@[i]@.len() ==> r@[i]@[j] == annotated_at(
                board_view(minefield@),
                i,
                j,
            ),
{
    let mut result: Vec<String> = Vec::new();
    let nrows = minefield.len();
    let mut i: usize = 0;
    while i < nrows
        invariant
            i <= nrows,
            nrows == minefield@.len(),
            result@.len() == i as int,
            forall|x: int| 0 <= x < i ==> (#[trigger] result@[x])@.len() == minefield@[x]@.len(),
            forall|x: int, y: int|
                0 <= x < i && 0 <= y < minefield@[x]@.len() ==> result@[x]@[y] == annotated_at(
                    board_view(minefield@),
                    x,
                    y,
                ),
        decreases nrows - i,
    {
        let row = minefield[i];
        let ncols = row.unicode_len();
        let mut current: Vec<char> = Vec::new();
        let mut j: usize = 0;
        while j < ncols
            invariant
                j <= ncols,
                i < nrows,
                nrows == minefield@.len(),
                ncols == minefield@[i as int]@.len(),
                row == minefield@[i as int],
                current@.len() == j as int,
                forall|y: int|
                    0 <= y < j ==> current@[y] == annotated_at(board_view(minefield@), i as int, y),
            decreases ncols - j,
        {
            let c = row.get_char(j);
            if c == '*' {
                current.push('*');
            } else {
                let count = count_adjacent(minefield, i, j);
                if count == 0 {
                    current.push(' ');
                } else {
                    current.push(digit_for(count));
                }
            }
            j = j + 1;
        }
        result.push(string_from_chars(&current));
        i = i + 1;
    }
    result
}

/// Whether the square at row `i`, column `j` of the flat board `s` (rows of
/// `cols` squares laid end to end, `rows` in all) holds a mine.
pub open spec fn flat_mine_at(s: Seq<char>, rows: int, cols: int, i: int, j: int) -> bool {
    0 <= i < rows && 0 <= j < cols && s[i * cols + j] == '*'
}

/// How many of the eight neighbours of row `i`, column `j` of the flat
/// board hold a mine.
pub open spec fn flat_adjacent_mines(s: Seq<char>, rows: int, cols: int, i: int, j: int) -> int {
    (if flat_mine_at(s, rows, cols, i - 1, j - 1) {
        1int
    } else {
        0int
    }) + (if flat_mine_at(s, rows, cols, i - 1, j) {
        1int
    } else {
        0int
    }) + (if flat_mine_at(s, rows, cols, i - 1, j + 1) {
        1int
    } else {
        0int
    }) + (if flat_mine_at(s, rows, cols, i, j - 1) {
        1int
    } else {
        0int
    }) + (if flat_mine_at(s, rows, cols, i, j + 1) {
        1int
    } else {
        0int
    }) + (if flat_mine_at(s, rows, cols, i + 1, j - 1) {
        1int
    } else {
        0int
    }) + (if flat_mine_at(s, rows, cols, i + 1, j) {
        1int
    } else {
        0int
    }) + (if flat_mine_at(s, rows, cols, i + 1, j + 1) {
        1int
    } else {
        0int
    })
}

/// What the annotated flat board shows at row `i`, column `j`: mines stay,
/// a square with adjacent mines shows their count, and any other square
/// keeps its original character.
pub open spec fn flat_annotated_at(s: Seq<char>, rows: int, cols: int, i: int, j: int) -> char {
    if s[i * cols + j] == '*' {
        '*'
    } else if flat_adjacent_mines(s, rows, cols, i, j) > 0 {
        count_char(flat_adjacent_mines(s, rows, cols, i, j))
    } else {
        s[i * cols + j]
    }
}

/// Whether the square at row `i`, column `j` of the flat board holds a mine;
/// the row and column offsets are encoded as 0 for one less, 1 for the same,
/// 2 for one more, so the lookup stays in unsigned arithmetic.
fn flat_has_mine_off(s: &str, rows: usize, cols: usize, i: usize, j: usize, di: usize, dj: usize) -> (r: bool)
    requires
        di <= 2,
        dj <= 2,
        di == 2 ==> i < usize::MAX,
        dj == 2 ==> j < usize::MAX,
        rows * cols <= s@.len(),
    ensures
        r == flat_mine_at(s@, rows as int, cols as int, i as int + di as int - 1, j as int + dj as int - 1),
{
    if di == 0 && i == 0 {
        return false;
    }
    if dj == 0 && j == 0 {
        return false;
    }
    let x = if di == 0 {
        i - 1
    } else if di == 1 {
        i
    } else {
        i + 1
    };
    let y = if dj == 0 {
        j - 1
    } else if dj == 1 {
        j
    } else {
        j + 1
    };
    if x >= rows || y >= cols {
        return false;
    }
    let n = s.unicode_len();
    proof {
        lemma_grid_index(rows as int, cols as int, x as int, y as int);
        assert(x * cols + y < n);
    }
    let c = s.get_char(x * cols + y);
    c == '*'
}

/// How many of the eight neighbours of row `i`, column `j` of the flat
/// board hold a mine.
fn flat_count_adjacent(s: &str, rows: usize, cols: usize, i: usize, j: usize) -> (r: u32)
    requires
        i < usize::MAX,
        j < usize::MAX,
        rows * cols <= s@.len(),
    ensures
        r == flat_adjacent_mines(s@, rows as int, cols as int, i as int, j as int),
        r <= 8,
{
    let mut count: u32 = 0;
    if flat_has_mine_off(s, rows, cols, i, j, 0, 0) {
        count = count + 1;
    }
    if flat_has_mine_off(s, rows, cols, i, j, 0, 1) {
        count = count + 1;
    }
    if flat_has_mine_off(s, rows, cols, i, j, 0, 2) {
        count = count + 1;
    }
    if flat_has_mine_off(s, rows, cols, i, j, 1, 0) {
        count = count + 1;
    }
    if flat_has_mine_off(s, rows, cols, i, j, 1, 2) {
        count = count + 1;
    }
    if flat_has_mine_off(s, rows, cols, i, j, 2, 0) {
        count = count + 1;
    }
    if flat_has_mine_off(s, rows, cols, i, j, 2, 1) {
        count = count + 1;
    }
    if flat_has_mine_off(s, rows, cols, i, j, 2, 2) {
        count = count + 1;
    }
    count
}

/// A grid position sits inside the flat board, and the first squares of
/// later rows come after it.
proof fn lemma_grid_index(rows: int, cols: int, i: int, j: int)
    requires
        0 <= i < rows,
        0 <= j < cols,
    ensures
        0 <= i * cols + j < rows * cols,
        (i + 1) * cols == i * cols + cols,
{
    assert(0 <= i * cols + j < rows * cols && (i + 1) * cols == i * cols + cols) by (nonlinear_arith)
        requires
            0 <= i < rows,
            0 <= j < cols,
    ;
}

/// Annotate a board given as one flat string of `rows` rows of `cols`
/// squares each: mines stay, every other square of the grid shows its
/// adjacent-mine count when it has one, and all remaining characters are
/// kept.
pub fn annotate2(minefield: String, rows: usize, cols: usize) -> (r: String)
    requires
        rows * cols <= minefield@.len(),
    ensures
        r@.len() == minefield@.len(),
        forall|i: int, j: int|
            0 <= i < rows && 0 <= j < cols ==> r@[i * cols + j] == flat_annotated_at(
                minefield@,
                rows as int,
                cols as int,
                i,
                j,
            ),
        forall|idx: int| rows * cols <= idx < minefield@.len() ==> r@[idx] == minefield@[idx],
{
    let s = minefield.as_str();
    let n = s.unicode_len();
    let mut out: Vec<char> = Vec::new();
    let mut i: usize = 0;
    while i < rows
        invariant
            i <= rows,
            rows * cols <= n == s@.len(),
            s@ == minefield@,
            out@.len() == i * cols,
            forall|x: int, y: int|
                0 <= x < i && 0 <= y < cols ==> out@[x * cols + y] == flat_annotated_at(
                    s@,
                    rows as int,
                    cols as int,
                    x,
                    y,
                ),
        decreases rows - i,
    {
        proof {
            if cols > 0 {
                lemma_grid_index(rows as int, cols as int, i as int, 0);
            }
            assert((i + 1) * cols == i * cols + cols) by (nonlinear_arith);
            assert(i * cols <= rows * cols) by (nonlinear_arith)
                requires
                    0 <= i < rows,
                    cols >= 0,
            ;
            assert((i + 1) * cols <= rows * cols) by (nonlinear_arith)
                requires
                    0 <= i < rows,
                    cols >= 0,
            ;
        }
        let mut j: usize = 0;
        while j < cols
            invariant
                j <= cols,
                i < rows,
                rows * cols <= n == s@.len(),
                s@ == minefield@,
                i * cols + cols <= rows * cols,
                out@.len() == i * cols + j,
                forall|x: int, y: int|
                    0 <= x < i && 0 <= y < cols ==> out@[x * cols + y] == flat_annotated_at(
                        s@,
                        rows as int,
                        cols as int,
                        x,
                        y,
                    ),
                forall|y: int|
                    0 <= y < j ==> out@[i as int * cols as int + y] == flat_annotated_at(
                        s@,
                        rows as int,
                        cols as int,
                        i as int,
                        y,
                    ),
            decreases cols - j,
        {
            proof {
                lemma_grid_index(rows as int, cols as int, i as int, j as int);
            }
            let c = s.get_char(i * cols + j);
            if c == '*' {
                out.push('*');
            } else {
                let count = flat_count_adjacent(s, rows, cols, i, j);
                if count == 0 {
                    out.push(c);
                } else {
                    out.push(digit_for(count));
                }
            }
            proof {
                assert forall|x: int, y: int|
                    0 <= x < i && 0 <= y < cols implies out@[x * cols + y] == flat_annotated_at(
                    s@,
                    rows as int,
                    cols as int,
                    x,
                    y,
                ) by {
                    assert(x * cols + y < i * cols + j) by (nonlinear_arith)
                        requires
                            0 <= x < i,
                            0 <= y < cols,
                            0 <= j,
                    ;
                }
            }
            j = j + 1;
        }
        i = i + 1;
    }
    proof {
        assert(i * cols == rows * cols) by (nonlinear_arith)
            requires
                i == rows,
        ;
    }
    let mut idx = rows * cols;
    while idx < n
        invariant
            rows * cols <= idx <= n,
            n == s@.len(),
            s@ == minefield@,
            out@.len() == idx,
            forall|x: int, y: int|
                0 <= x < rows && 0 <= y < cols ==> out@[x * cols + y] == flat_annotated_at(
                    s@,
                    rows as int,
                    cols as int,
                    x,
                    y,
                ),
            forall|x: int| rows * cols <= x < idx ==> out@[x] == s@[x],
        decreases n - idx,
    {
        proof {
            assert forall|x: int, y: int|
                0 <= x < rows && 0 <= y < cols implies #[trigger] (x * cols + y) < rows * cols by {
                lemma_grid_index(rows as int, cols as int, x, y);
            }
        }
        out.push(s.get_char(idx));
        idx = idx + 1;
    }
    proof {
        assert forall|x: int, y: int|
            0 <= x < rows && 0 <= y < cols implies #[trigger] (x * cols + y) < rows * cols by {
            lemma_grid_index(rows as int, cols as int, x, y);
        }
    }
    string_from_chars(&out)
}

} // verus!
