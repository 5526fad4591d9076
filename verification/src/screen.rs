use vstd::prelude::*;

use crate::types::{nested_view, style_of, Layout, Style, TypedChar};

verus! {

broadcast use vstd::seq_lib::group_seq_properties;

/// What one position of the screen shows.
#[derive(Clone, Copy, PartialEq, Eq, Structural, Debug)]
pub struct Cell {
    pub ch: char,
    pub style: Style,
}

/// The cell that a new screen holds everywhere.
pub open spec fn blank_cell() -> Cell {
    Cell { ch: ' ', style: Style::Pending }
}

/// `g` with the cell at row `r`, column `c` replaced by `x`, where that position exists.
pub open spec fn put(g: Seq<Seq<Cell>>, r: int, c: int, x: Cell) -> Seq<Seq<Cell>> {
    if 0 <= r < g.len() && 0 <= c < g[r].len() {
        g.update(r, g[r].update(c, x))
    } else {
        g
    }
}

/// A grid of `rows` rows of `cols` cells each, all `x`.
pub open spec fn filled(rows: int, cols: int, x: Cell) -> Seq<Seq<Cell>> {
    Seq::new(rows as nat, |r: int| Seq::new(cols as nat, |c: int| x))
}

/// A grid of exactly `rows` rows of exactly `cols` cells.
pub open spec fn has_shape(g: Seq<Seq<Cell>>, rows: int, cols: int) -> bool {
    g.len() == rows && forall|r: int| 0 <= r < rows ==> #[trigger] g[r].len() == cols
}

/// A change to the screen: the cell at (row, column) becomes the given cell.
pub open spec fn change_at(g: Seq<Seq<Cell>>, r: int, c: int) -> (u16, u16, Cell) {
    (r as u16, c as u16, g[r][c])
}

/// The changes of row `r` of `new` over columns `c0..c1`: every cell where `all`, else the
/// cells that differ from `old`, left to right.
pub open spec fn row_changes(
    new: Seq<Seq<Cell>>,
    old: Seq<Seq<Cell>>,
    r: int,
    c0: int,
    c1: int,
    all: bool,
) -> Seq<(u16, u16, Cell)>
    decreases c1 - c0,
{
    if c1 <= c0 {
        Seq::empty()
    } else {
        let before = row_changes(new, old, r, c0, c1 - 1, all);
        if all || new[r][c1 - 1] != old[r][c1 - 1] {
            before.push(change_at(new, r, c1 - 1))
        } else {
            before
        }
    }
}

/// The changes of rows `r0..r1`, columns `c0..c1`, row after row.
pub open spec fn block_changes(
    new: Seq<Seq<Cell>>,
    old: Seq<Seq<Cell>>,
    r0: int,
    r1: int,
    c0: int,
    c1: int,
    all: bool,
) -> Seq<(u16, u16, Cell)>
    decreases r1 - r0,
{
    if r1 <= r0 {
        Seq::empty()
    } else {
        block_changes(new, old, r0, r1 - 1, c0, c1, all) + row_changes(new, old, r1 - 1, c0, c1, all)
    }
}

pub open spec fn min_int(a: int, b: int) -> int {
    if a < b {
        a
    } else {
        b
    }
}

/// The changes that turn a screen showing `old` into one showing `new`: over the part both
/// share, the cells that differ; then every cell of the rows only `new` has; then every cell
/// of the columns only `new` has, in the shared rows. Each change carries its row and column
/// as `u16`.
pub open spec fn diff_spec(
    new: Seq<Seq<Cell>>,
    new_rows: int,
    new_cols: int,
    old: Seq<Seq<Cell>>,
    old_rows: int,
    old_cols: int,
) -> Seq<(u16, u16, Cell)> {
    let min_rows = min_int(new_rows, old_rows);
    let min_cols = min_int(new_cols, old_cols);
    block_changes(new, old, 0, min_rows, 0, min_cols, false) + block_changes(
        new,
        old,
        min_rows,
        new_rows,
        0,
        new_cols,
        true,
    ) + block_changes(new, old, 0, min_rows, min_cols, new_cols, true)
}

/// A screen after one change is drawn on it.
pub open spec fn apply_change(g: Seq<Seq<Cell>>, change: (u16, u16, Cell)) -> Seq<Seq<Cell>> {
    put(g, change.0 as int, change.1 as int, change.2)
}

/// A screen after the changes are drawn on it in order.
pub open spec fn apply_changes(g: Seq<Seq<Cell>>, changes: Seq<(u16, u16, Cell)>) -> Seq<Seq<Cell>>
    decreases changes.len(),
{
    if changes.len() == 0 {
        g
    } else {
        apply_change(apply_changes(g, changes.drop_last()), changes.last())
    }
}

/// A screen after the characters are drawn on it in order, each in the style of its state.
pub open spec fn paint(g: Seq<Seq<Cell>>, cells: Seq<(u16, u16, TypedChar)>) -> Seq<Seq<Cell>>
    decreases cells.len(),
{
    if cells.len() == 0 {
        g
    } else {
        let x = cells.last();
        put(
            paint(g, cells.drop_last()),
            x.0 as int,
            x.1 as int,
            Cell { ch: x.2.ch, style: style_of(x.2.state) },
        )
    }
}

/// A screen of `rows` rows and `cols` columns of cells.
pub struct ScreenBuf {
    cells: Vec<Vec<Cell>>,
    pub rows: usize,
    pub cols: usize,
}

impl ScreenBuf {
    /// The cells, row by row.
    pub closed spec fn grid(&self) -> Seq<Seq<Cell>> {
        nested_view(self.cells@)
    }

    /// The number of rows, `rows`.
    pub closed spec fn height(&self) -> int {
        self.rows as int
    }

    /// The number of columns, `cols`.
    pub closed spec fn width(&self) -> int {
        self.cols as int
    }

    /// The cells form `rows` rows of `cols` cells.
    pub open spec fn wf(&self) -> bool {
        has_shape(self.grid(), self.height(), self.width())
    }

    /// A screen of the given size, blank everywhere.
    pub fn new(rows: usize, cols: usize) -> (buf: ScreenBuf)
        ensures
            buf.wf(),
            buf.height() == rows,
            buf.width() == cols,
            buf.grid() == filled(rows as int, cols as int, blank_cell()),
    {
        let empty = Cell { ch: ' ', style: Style::Pending };
        let mut cells: Vec<Vec<Cell>> = Vec::new();
        let mut r: usize = 0;
        while r < rows
            invariant
                r <= rows,
                empty == blank_cell(),
                cells@.len() == r,
                forall|i: int| 0 <= i < r ==> #[trigger] cells@[i]@.len() == cols,
                forall|i: int, k: int| 0 <= i < r && 0 <= k < cols ==> #[trigger] cells@[i]@[k] == blank_cell(),
            decreases rows - r,
        {
            let mut row: Vec<Cell> = Vec::new();
            let mut c: usize = 0;
            while c < cols
                invariant
                    c <= cols,
                    empty == blank_cell(),
                    row@.len() == c,
                    forall|k: int| 0 <= k < c ==> #[trigger] row@[k] == blank_cell(),
                decreases cols - c,
            {
                row.push(empty);
                c += 1;
            }
            cells.push(row);
            r += 1;
        }
        assert(nested_view(cells@) =~~= filled(rows as int, cols as int, blank_cell()));
        ScreenBuf { cells, rows, cols }
    }

    /// Writes one cell; a position outside the screen is ignored.
    pub fn set(&mut self, row: usize, col: usize, ch: char, style: Style)
        requires
            old(self).wf(),
        ensures
            final(self).wf(),
            final(self).height() == old(self).height(),
            final(self).width() == old(self).width(),
            final(self).grid() == put(old(self).grid(), row as int, col as int, Cell { ch, style }),
    {
        if row < self.rows && col < self.cols {
            let ghost g = self.grid();
            assert(self.cells@[row as int]@ == g[row as int]);
            self.cells[row][col] = Cell { ch, style };
            assert(self.grid() =~= g.update(row as int, g[row as int].update(col as int, Cell { ch, style })));
        }
    }

    /// The changes that turn a screen showing `prev` into one showing `self`.
    pub fn diff<'a>(&'a self, prev: &'a ScreenBuf) -> (changes: Vec<(u16, u16, Cell)>)
        requires
            self.wf(),
            prev.wf(),
        ensures
            changes@ == diff_spec(
                self.grid(),
                self.height(),
                self.width(),
                prev.grid(),
                prev.height(),
                prev.width(),
            ),
    {
        let ghost new = self.grid();
        let ghost old = prev.grid();
        let min_rows = if self.rows < prev.rows {
            self.rows
        } else {
            prev.rows
        };
        let min_cols = if self.cols < prev.cols {
            self.cols
        } else {
            prev.cols
        };
        let mut changes: Vec<(u16, u16, Cell)> = Vec::new();

        let mut r: usize = 0;
        while r < min_rows
            invariant
                self.wf(),
                prev.wf(),
                new == self.grid(),
                old == prev.grid(),
                min_rows <= self.rows,
                min_rows <= prev.rows,
                min_cols <= self.cols,
                min_cols <= prev.cols,
                r <= min_rows,
                changes@ == block_changes(new, old, 0, r as int, 0, min_cols as int, false),
            decreases min_rows - r,
        {
            let ghost before = changes@;
            let mut c: usize = 0;
            while c < min_cols
                invariant
                    self.wf(),
                    prev.wf(),
                    new == self.grid(),
                    old == prev.grid(),
                    r < min_rows,
                    min_rows <= self.rows,
                    min_rows <= prev.rows,
                    min_cols <= self.cols,
                    min_cols <= prev.cols,
                    c <= min_cols,
                    changes@ == before + row_changes(new, old, r as int, 0, c as int, false),
                decreases min_cols - c,
            {
                assert(self.cells@[r as int]@ == new[r as int]);
                assert(prev.cells@[r as int]@ == old[r as int]);
                if self.cells[r][c] != prev.cells[r][c] {
                    changes.push((r as u16, c as u16, self.cells[r][c]));
                }
                c += 1;
                assert(changes@ =~= before + row_changes(new, old, r as int, 0, c as int, false));
            }
            r += 1;
        }

        let ghost first = changes@;
        let mut r: usize = min_rows;
        while r < self.rows
            invariant
                self.wf(),
                new == self.grid(),
                min_rows <= r <= self.rows,
                changes@ == first + block_changes(new, old, min_rows as int, r as int, 0, self.cols as int, true),
            decreases self.rows - r,
        {
            let ghost before = changes@;
            let mut c: usize = 0;
            while c < self.cols
                invariant
                    self.wf(),
                    new == self.grid(),
                    r < self.rows,
                    c <= self.cols,
                    changes@ == before + row_changes(new, old, r as int, 0, c as int, true),
                decreases self.cols - c,
            {
                assert(self.cells@[r as int]@ == new[r as int]);
                changes.push((r as u16, c as u16, self.cells[r][c]));
                c += 1;
                assert(changes@ =~= before + row_changes(new, old, r as int, 0, c as int, true));
            }
            r += 1;
            assert(changes@ =~= first + block_changes(new, old, min_rows as int, r as int, 0, self.cols as int, true));
        }

        let ghost second = changes@;
        let mut r: usize = 0;
        while r < min_rows
            invariant
                self.wf(),
                new == self.grid(),
                min_rows <= self.rows,
                min_cols <= self.cols,
                r <= min_rows,
                changes@ == second + block_changes(new, old, 0, r as int, min_cols as int, self.cols as int, true),
            decreases min_rows - r,
        {
            let ghost before = changes@;
            let mut c: usize = min_cols;
            while c < self.cols
                invariant
                    self.wf(),
                    new == self.grid(),
                    r < min_rows,
                    min_rows <= self.rows,
                    min_cols <= c <= self.cols,
                    changes@ == before + row_changes(new, old, r as int, min_cols as int, c as int, true),
                decreases self.cols - c,
            {
                assert(self.cells@[r as int]@ == new[r as int]);
                changes.push((r as u16, c as u16, self.cells[r][c]));
                c += 1;
                assert(changes@ =~= before + row_changes(new, old, r as int, min_cols as int, c as int, true));
            }
            r += 1;
            assert(changes@ =~= second + block_changes(new, old, 0, r as int, min_cols as int, self.cols as int, true));
        }
        assert(changes@ =~= diff_spec(new, self.rows as int, self.cols as int, old, prev.rows as int, prev.cols as int));
        changes
    }

    /// Draws the text of `layout` on the screen, each character in the style of its state.
    pub fn apply_layout(&mut self, layout: &Layout)
        requires
            old(self).wf(),
        ensures
            final(self).wf(),
            final(self).height() == old(self).height(),
            final(self).width() == old(self).width(),
            final(self).grid() == paint(old(self).grid(), layout@.lines.flatten()),
    {
        let ghost g0 = self.grid();
        let ghost lines = layout@.lines;
        let mut li: usize = 0;
        assert(lines.take(0).flatten() =~= Seq::<(u16, u16, TypedChar)>::empty());
        while li < layout.lines.len()
            invariant
                self.wf(),
                self.height() == old(self).height(),
                self.width() == old(self).width(),
                g0 == old(self).grid(),
                lines == layout@.lines,
                li <= lines.len(),
                self.grid() == paint(g0, lines.take(li as int).flatten()),
            decreases lines.len() - li,
        {
            let line = &layout.lines[li];
            assert(line@ == lines[li as int]);
            let ghost prefix = lines.take(li as int).flatten();
            let mut j: usize = 0;
            assert(prefix + line@.take(0) =~= prefix);
            while j < line.len()
                invariant
                    self.wf(),
                    self.height() == old(self).height(),
                    self.width() == old(self).width(),
                    g0 == old(self).grid(),
                    lines == layout@.lines,
                    li < lines.len(),
                    line@ == lines[li as int],
                    prefix == lines.take(li as int).flatten(),
                    j <= line@.len(),
                    self.grid() == paint(g0, prefix + line@.take(j as int)),
                decreases line@.len() - j,
            {
                let (row, col, tc) = line[j];
                proof {
                    let t = prefix + line@.take(j + 1);
                    assert(t.drop_last() =~= prefix + line@.take(j as int));
                    assert(t.last() == line@[j as int]);
                }
                self.set(row as usize, col as usize, tc.ch, tc.state.into());
                j += 1;
            }
            proof {
                assert(line@.take(line@.len() as int) =~= line@);
                lemma_take_flatten_step(lines, li as int);
            }
            li += 1;
        }
        assert(lines.take(lines.len() as int) =~= lines);
    }
}

/// The first `i + 1` sequences flattened are the first `i` flattened followed by the `i`-th.
pub proof fn lemma_take_flatten_step<A>(s: Seq<Seq<A>>, i: int)
    requires
        0 <= i < s.len(),
    ensures
        s.take(i + 1).flatten() == s.take(i).flatten() + s[i],
{
    assert(s.take(i + 1) =~= s.take(i).push(s[i]));
    s.take(i).lemma_flatten_push(s[i]);
}

/// Drawing `x` and then `y` is drawing `x + y`.
pub proof fn lemma_apply_changes_concat(
    g: Seq<Seq<Cell>>,
    x: Seq<(u16, u16, Cell)>,
    y: Seq<(u16, u16, Cell)>,
)
    ensures
        apply_changes(g, x + y) == apply_changes(apply_changes(g, x), y),
    decreases y.len(),
{
    if y.len() == 0 {
        assert(x + y =~= x);
    } else {
        lemma_apply_changes_concat(g, x, y.drop_last());
        assert((x + y).drop_last() =~= x + y.drop_last());
        assert((x + y).last() == y.last());
    }
}

/// Row `r` of `g` with every cell of columns `0..c1` that differs between `new` and `old`
/// taken from `new`.
pub open spec fn row_merge(
    g: Seq<Seq<Cell>>,
    new: Seq<Seq<Cell>>,
    old: Seq<Seq<Cell>>,
    r: int,
    c1: int,
) -> Seq<Seq<Cell>> {
    g.update(
        r,
        Seq::new(
            g[r].len(),
            |c: int|
                if c < c1 && new[r][c] != old[r][c] {
                    new[r][c]
                } else {
                    g[r][c]
                },
        ),
    )
}

/// `g` with every cell of rows `0..r1` that differs between `new` and `old` taken from `new`.
pub open spec fn block_merge(
    g: Seq<Seq<Cell>>,
    new: Seq<Seq<Cell>>,
    old: Seq<Seq<Cell>>,
    r1: int,
) -> Seq<Seq<Cell>> {
    Seq::new(
        g.len(),
        |r: int|
            if r < r1 {
                Seq::new(
                    g[r].len(),
                    |c: int|
                        if new[r][c] != old[r][c] {
                            new[r][c]
                        } else {
                            g[r][c]
                        },
                )
            } else {
                g[r]
            },
    )
}

proof fn lemma_apply_row(
    g: Seq<Seq<Cell>>,
    new: Seq<Seq<Cell>>,
    old: Seq<Seq<Cell>>,
    r: int,
    c1: int,
    rows: int,
    cols: int,
)
    requires
        has_shape(g, rows, cols),
        has_shape(new, rows, cols),
        has_shape(old, rows, cols),
        0 <= r < rows <= 65536,
        0 <= c1 <= cols <= 65536,
    ensures
        apply_changes(g, row_changes(new, old, r, 0, c1, false)) == row_merge(g, new, old, r, c1),
    decreases c1,
{
    if c1 == 0 {
        assert(row_merge(g, new, old, r, c1) =~~= g);
    } else {
        lemma_apply_row(g, new, old, r, c1 - 1, rows, cols);
        let before = row_changes(new, old, r, 0, c1 - 1, false);
        let h = apply_changes(g, before);
        if new[r][c1 - 1] != old[r][c1 - 1] {
            let x = change_at(new, r, c1 - 1);
            assert(before.push(x).drop_last() =~= before);
            assert(x.0 as int == r);
            assert(x.1 as int == c1 - 1);
        }
        assert(apply_changes(g, row_changes(new, old, r, 0, c1, false)) =~~= row_merge(g, new, old, r, c1));
    }
}

proof fn lemma_apply_block(
    g: Seq<Seq<Cell>>,
    new: Seq<Seq<Cell>>,
    old: Seq<Seq<Cell>>,
    r1: int,
    rows: int,
    cols: int,
)
    requires
        has_shape(g, rows, cols),
        has_shape(new, rows, cols),
        has_shape(old, rows, cols),
        0 <= r1 <= rows <= 65536,
        0 <= cols <= 65536,
    ensures
        apply_changes(g, block_changes(new, old, 0, r1, 0, cols, false)) == block_merge(g, new, old, r1),
        has_shape(block_merge(g, new, old, r1), rows, cols),
    decreases r1,
{
    if r1 == 0 {
        assert(block_merge(g, new, old, r1) =~~= g);
    } else {
        lemma_apply_block(g, new, old, r1 - 1, rows, cols);
        let m = block_merge(g, new, old, r1 - 1);
        lemma_apply_changes_concat(
            g,
            block_changes(new, old, 0, r1 - 1, 0, cols, false),
            row_changes(new, old, r1 - 1, 0, cols, false),
        );
        lemma_apply_row(m, new, old, r1 - 1, cols, rows, cols);
        assert(row_merge(m, new, old, r1 - 1, cols) =~~= block_merge(g, new, old, r1));
    }
}

proof fn lemma_full_columns_no_changes(new: Seq<Seq<Cell>>, old: Seq<Seq<Cell>>, r1: int, cols: int)
    ensures
        block_changes(new, old, 0, r1, cols, cols, true) == Seq::<(u16, u16, Cell)>::empty(),
    decreases r1,
{
    if r1 > 0 {
        lemma_full_columns_no_changes(new, old, r1 - 1, cols);
        assert(block_changes(new, old, 0, r1, cols, cols, true) =~= Seq::<(u16, u16, Cell)>::empty());
    }
}

/// Drawing the changes that `diff` gives from one screen to another of the same size (at most
/// 65536 rows and columns, so that positions fit in `u16`) turns the first into the second.
pub proof fn lemma_apply_diff(new: Seq<Seq<Cell>>, old: Seq<Seq<Cell>>, rows: int, cols: int)
    requires
        has_shape(new, rows, cols),
        has_shape(old, rows, cols),
        0 <= rows <= 65536,
        0 <= cols <= 65536,
    ensures
        apply_changes(old, diff_spec(new, rows, cols, old, rows, cols)) == new,
{
    lemma_full_columns_no_changes(new, old, rows, cols);
    let d = diff_spec(new, rows, cols, old, rows, cols);
    assert(d =~= block_changes(new, old, 0, rows, 0, cols, false));
    lemma_apply_block(old, new, old, rows, rows, cols);
    assert(block_merge(old, new, old, rows) =~~= new);
}

/// A screen compared with itself has no changes.
pub proof fn lemma_diff_same_is_empty(g: Seq<Seq<Cell>>, rows: int, cols: int)
    requires
        has_shape(g, rows, cols),
        0 <= rows,
        0 <= cols,
    ensures
        diff_spec(g, rows, cols, g, rows, cols) == Seq::<(u16, u16, Cell)>::empty(),
{
    lemma_full_columns_no_changes(g, g, rows, cols);
    lemma_same_block_no_changes(g, rows, cols);
    assert(diff_spec(g, rows, cols, g, rows, cols) =~= Seq::<(u16, u16, Cell)>::empty());
}

proof fn lemma_same_row_no_changes(g: Seq<Seq<Cell>>, r: int, c1: int)
    ensures
        row_changes(g, g, r, 0, c1, false) == Seq::<(u16, u16, Cell)>::empty(),
    decreases c1,
{
    if c1 > 0 {
        lemma_same_row_no_changes(g, r, c1 - 1);
    }
}

proof fn lemma_same_block_no_changes(g: Seq<Seq<Cell>>, r1: int, cols: int)
    ensures
        block_changes(g, g, 0, r1, 0, cols, false) == Seq::<(u16, u16, Cell)>::empty(),
    decreases r1,
{
    if r1 > 0 {
        lemma_same_block_no_changes(g, r1 - 1, cols);
        lemma_same_row_no_changes(g, r1 - 1, cols);
        assert(block_changes(g, g, 0, r1, 0, cols, false) =~= Seq::<(u16, u16, Cell)>::empty());
    }
}

} // verus!
