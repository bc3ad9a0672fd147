//! Mouse text selection in screen cell coordinates, and the text that a
//! selection copies.

use vstd::prelude::*;
use crate::layout::PaneId;

verus! {

/// A selection from the cell where the mouse went down (`anchor`) to the
/// cell under the mouse now (`cur`).
#[derive(Clone, Copy, PartialEq, Eq, Debug, Structural)]
pub struct SelectionState {
    pub pane_id: PaneId,
    pub anchor_col: usize,
    pub anchor_row: usize,
    pub cur_col: usize,
    pub cur_row: usize,
}

/// `(r1, c1)` comes no later than `(r2, c2)` in reading order.
pub open spec fn cell_le(r1: usize, c1: usize, r2: usize, c2: usize) -> bool {
    r1 < r2 || (r1 == r2 && c1 <= c2)
}

impl SelectionState {
    /// The selection as (col1, row1, col2, row2), start before end.
    pub open spec fn spec_normalized(self) -> (usize, usize, usize, usize) {
        if cell_le(self.anchor_row, self.anchor_col, self.cur_row, self.cur_col) {
            (self.anchor_col, self.anchor_row, self.cur_col, self.cur_row)
        } else {
            (self.cur_col, self.cur_row, self.anchor_col, self.anchor_row)
        }
    }

    /// Returns (col1, row1, col2, row2) with start always before end.
    pub fn normalized(&self) -> (r: (usize, usize, usize, usize))
        ensures
            r == self.spec_normalized(),
            cell_le(r.1, r.0, r.3, r.2),
    {
        if self.anchor_row < self.cur_row || (self.anchor_row == self.cur_row && self.anchor_col
            <= self.cur_col) {
            (self.anchor_col, self.anchor_row, self.cur_col, self.cur_row)
        } else {
            (self.cur_col, self.cur_row, self.anchor_col, self.anchor_row)
        }
    }

    /// The selection covers a single cell (nothing worth keeping).
    pub fn is_single_cell(&self) -> (r: bool)
        ensures
            r == (self.anchor_col == self.cur_col && self.anchor_row == self.cur_row),
    {
        let (c1, r1, c2, r2) = self.normalized();
        c1 == c2 && r1 == r2
    }
}

/// An empty cell reads as a space.
pub open spec fn cell_char(c: char) -> char {
    if c == '\0' {
        ' '
    } else {
        c
    }
}

/// `s` without its trailing spaces.
pub open spec fn trim_end_spaces(s: Seq<char>) -> Seq<char>
    decreases s.len(),
{
    if s.len() > 0 && s.last() == ' ' {
        trim_end_spaces(s.drop_last())
    } else {
        s
    }
}

/// The first selected column of the `k`-th selected row.
pub open spec fn first_col(k: int, c1: usize) -> int {
    if k == 0 {
        c1 as int
    } else {
        0
    }
}

/// The last selected column of the `k`-th of `n` selected rows, inside a
/// grid of `cols` columns.
pub open spec fn last_col(k: int, n: int, c2: usize, cols: int) -> int {
    let end = if k == n - 1 {
        c2 as int
    } else {
        cols - 1
    };
    if end < cols - 1 {
        end
    } else {
        cols - 1
    }
}

/// The text of the `k`-th selected row.
pub open spec fn selected_line(rows: Seq<Seq<char>>, k: int, c1: usize, c2: usize, cols: int) -> Seq<
    char,
> {
    let from = first_col(k, c1);
    let to = last_col(k, rows.len() as int, c2, cols);
    if from <= to {
        trim_end_spaces(rows[k].subrange(from, to + 1).map_values(|c: char| cell_char(c)))
    } else {
        Seq::empty()
    }
}

/// The text of the first `n` selected rows, joined by newlines.
pub open spec fn selected_text(rows: Seq<Seq<char>>, n: int, c1: usize, c2: usize, cols: int) -> Seq<
    char,
>
    decreases n,
{
    if n <= 0 {
        Seq::empty()
    } else if n == 1 {
        selected_line(rows, 0, c1, c2, cols)
    } else {
        selected_text(rows, n - 1, c1, c2, cols) + seq!['\n'] + selected_line(
            rows,
            n - 1,
            c1,
            c2,
            cols,
        )
    }
}

/// The text of a selection. `rows` are the screen rows from the start row
/// to the end row of the (normalized) selection, each `cols` cells wide;
/// the selection starts at column `c1` of the first row and ends at column
/// `c2` of the last. Empty cells read as spaces, trailing spaces of each
/// row are dropped, and rows are joined by newlines.
pub fn extract_selection_text(rows: &Vec<Vec<char>>, cols: usize, c1: usize, c2: usize) -> (out:
    Vec<char>)
    requires
        cols >= 1,
        forall|k: int| 0 <= k < rows@.len() ==> (#[trigger] rows@[k])@.len() == cols,
    ensures
        out@ == selected_text(rows@.map_values(|r: Vec<char>| r@), rows@.len() as int, c1, c2, cols as int),
{
    let ghost grid = rows@.map_values(|r: Vec<char>| r@);
    let n = rows.len();
    let mut out: Vec<char> = Vec::new();
    let mut k: usize = 0;
    while k < n
        invariant
            n == rows@.len(),
            grid == rows@.map_values(|r: Vec<char>| r@),
            k <= n,
            cols >= 1,
            forall|j: int| 0 <= j < rows@.len() ==> (#[trigger] rows@[j])@.len() == cols,
            out@ == selected_text(grid, k as int, c1, c2, cols as int),
        decreases n - k,
    {
        let from = if k == 0 {
            c1
        } else {
            0
        };
        let end = if k == n - 1 {
            c2
        } else {
            cols - 1
        };
        let to = if end < cols - 1 {
            end
        } else {
            cols - 1
        };
        let row = &rows[k];
        assert(grid[k as int] == row@);
        let line = line_text(row, from, to);
        assert(line@ == selected_line(grid, k as int, c1, c2, cols as int));
        if k > 0 {
            out.push('\n');
        }
        let ghost before = out@;
        append_chars(&mut out, &line);
        k = k + 1;
        assert(out@ == selected_text(grid, k as int, c1, c2, cols as int)) by {
            if k > 1 {
                assert(before == selected_text(grid, (k - 1) as int, c1, c2, cols as int) + seq![
                    '\n',
                ]);
            }
        }
    }
    out
}

/// Columns `from..=to` of `row` (`to` inside the row), empty cells as spaces,
/// trailing spaces dropped.
fn line_text(row: &Vec<char>, from: usize, to: usize) -> (out: Vec<char>)
    requires
        to < row@.len(),
    ensures
        out@ == if from <= to {
            trim_end_spaces(row@.subrange(from as int, to + 1).map_values(|c: char| cell_char(c)))
        } else {
            Seq::<char>::empty()
        },
{
    let mut out: Vec<char> = Vec::new();
    if from > to {
        return out;
    }
    let mut i = from;
    while i <= to
        invariant
            from <= i <= to + 1,
            to < row.len(),
            out@ == row@.subrange(from as int, i as int).map_values(|c: char| cell_char(c)),
        decreases to + 1 - i,
    {
        let c = row[i];
        out.push(if c == '\0' {
            ' '
        } else {
            c
        });
        assert(row@.subrange(from as int, i + 1) =~= row@.subrange(from as int, i as int).push(
            row@[i as int],
        ));
        assert(row@.subrange(from as int, i + 1).map_values(|c: char| cell_char(c)) =~= row@.subrange(
            from as int,
            i as int,
        ).map_values(|c: char| cell_char(c)).push(cell_char(row@[i as int])));
        i = i + 1;
    }
    trim_trailing_spaces(&mut out);
    out
}

fn trim_trailing_spaces(v: &mut Vec<char>)
    ensures
        final(v)@ == trim_end_spaces(old(v)@),
{
    let ghost orig = v@;
    while v.len() > 0 && v[v.len() - 1] == ' '
        invariant
            trim_end_spaces(orig) == trim_end_spaces(v@),
        decreases v@.len(),
    {
        let ghost before = v@;
        v.pop();
        assert(v@ =~= before.drop_last());
    }
}

fn append_chars(out: &mut Vec<char>, s: &Vec<char>)
    ensures
        final(out)@ == old(out)@ + s@,
{
    let mut i: usize = 0;
    while i < s.len()
        invariant
            i <= s@.len(),
            out@ == old(out)@ + s@.subrange(0, i as int),
        decreases s@.len() - i,
    {
        out.push(s[i]);
        assert(s@.subrange(0, i + 1) =~= s@.subrange(0, i as int).push(s@[i as int]));
        i = i + 1;
    }
    assert(s@.subrange(0, s@.len() as int) =~= s@);
}

/// Cutting trailing spaces keeps a prefix of the text, leaves no space at its
/// end, and cuts nothing but spaces.
pub proof fn law_trim_end_spaces(t: Seq<char>)
    ensures
        trim_end_spaces(t).len() <= t.len(),
        trim_end_spaces(t) == t.subrange(0, trim_end_spaces(t).len() as int),
        trim_end_spaces(t).len() == 0 || trim_end_spaces(t).last() != ' ',
        forall|i: int| trim_end_spaces(t).len() <= i < t.len() ==> t[i] == ' ',
    decreases t.len(),
{
    if t.len() > 0 && t.last() == ' ' {
        law_trim_end_spaces(t.drop_last());
        let r = trim_end_spaces(t);
        assert(r == trim_end_spaces(t.drop_last()));
        assert(t.drop_last().subrange(0, r.len() as int) =~= t.subrange(0, r.len() as int));
        assert forall|i: int| r.len() <= i < t.len() implies t[i] == ' ' by {
            if i < t.len() - 1 {
                assert(t.drop_last()[i] == t[i]);
            }
        }
    } else {
        assert(t.subrange(0, t.len() as int) =~= t);
    }
}

/// Whichever corner the mouse started from, the selection runs from the
/// earlier of the two cells to the later one: its two ends are the anchor
/// and the current cell, in reading order, and swapping anchor and current
/// cell selects the same cells.
pub proof fn law_normalized_is_ordered_endpoints(s: SelectionState)
    ensures
        ({
            let (c1, r1, c2, r2) = s.spec_normalized();
            &&& cell_le(r1, c1, r2, c2)
            &&& ((r1, c1) == (s.anchor_row, s.anchor_col) && (r2, c2) == (s.cur_row, s.cur_col))
                || ((r1, c1) == (s.cur_row, s.cur_col) && (r2, c2) == (s.anchor_row, s.anchor_col))
        }),
        (SelectionState {
            anchor_col: s.cur_col,
            anchor_row: s.cur_row,
            cur_col: s.anchor_col,
            cur_row: s.anchor_row,
            ..s
        }).spec_normalized() == s.spec_normalized(),
{
}

} // verus!
