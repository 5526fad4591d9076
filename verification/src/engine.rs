use vstd::prelude::*;

use crate::screen::lemma_take_flatten_step;
use crate::types::{nested_view, CharState, Layout, LayoutView, TextArea, TypedChar, MAX_LINE_WIDTH, PADDING};

verus! {

broadcast use vstd::seq_lib::group_seq_properties;

/// Blank rows between the banner and the controls line.
pub const BANNER_TO_CONTROLS_GAP: u16 = 2;

/// Blank rows between the controls line and the text.
pub const CONTROLS_TO_TEXT_GAP: u16 = 3;

/// Blank columns between the longest line of text and each side of its border.
pub const SHRINKWRAP_PADDING: u16 = 12;

/// The longest text that the layout places: every row and column it computes then fits in `u16`.
pub const MAX_TEXT_CHARS: usize = 30000;

/// `a - b`, or 0 where `b` exceeds `a`.
pub open spec fn sat_sub(a: int, b: int) -> int {
    if a >= b {
        a - b
    } else {
        0
    }
}

/// The columns between the left and the right padding.
pub open spec fn usable_width(cols: u16) -> int {
    sat_sub(cols as int, 2 * PADDING)
}

/// The first column of something `len` columns wide, centred in `avail` columns after the padding.
pub open spec fn centered_start(avail: int, len: int) -> int {
    PADDING + sat_sub(avail, len) / 2
}

/// The pieces of `s` between the occurrences of `sep`, in order; every `sep` ends a piece,
/// and the text after the last `sep` is the last piece, empty or not.
pub open spec fn split_on(s: Seq<char>, sep: char) -> Seq<Seq<char>>
    decreases s.len(),
{
    if s.len() == 0 {
        seq![Seq::<char>::empty()]
    } else {
        let pieces = split_on(s.drop_last(), sep);
        if s.last() == sep {
            pieces.push(Seq::<char>::empty())
        } else {
            pieces.update(pieces.len() - 1, pieces.last().push(s.last()))
        }
    }
}

/// There is at least one piece, at most one more than there are characters, and none is
/// longer than the text.
pub proof fn lemma_split_on_bounds(s: Seq<char>, sep: char)
    ensures
        1 <= split_on(s, sep).len() <= s.len() + 1,
        forall|i: int| 0 <= i < split_on(s, sep).len() ==> #[trigger] split_on(s, sep)[i].len() <= s.len(),
    decreases s.len(),
{
    if s.len() > 0 {
        lemma_split_on_bounds(s.drop_last(), sep);
    }
}

/// The cells of a banner row that are drawn: those that do not hold a space.
pub open spec fn visible_cell() -> spec_fn((u16, u16, char)) -> bool {
    |cell: (u16, u16, char)| cell.2 != ' '
}

/// The banner row `row`, centred on screen row `r`, without its spaces.
pub open spec fn banner_row_cells(row: Seq<char>, cols: u16, r: int) -> Seq<(u16, u16, char)> {
    let start = centered_start(usable_width(cols), row.len() as int);
    Seq::new(row.len(), |j: int| (r as u16, (start + j) as u16, row[j])).filter(visible_cell())
}

/// The banner rows laid out from screen row `start_row` down.
pub open spec fn banner_lines_spec(rows: Seq<Seq<char>>, cols: u16, start_row: u16) -> Seq<Seq<(u16, u16, char)>> {
    Seq::new(rows.len(), |i: int| banner_row_cells(rows[i], cols, start_row + i))
}

/// The labels of the controls line, in order.
pub open spec fn control_parts() -> Seq<Seq<char>> {
    seq!["Tab:"@, " restart "@, "Ctrl+C/Esc:"@, " quit "@]
}

/// The controls line on screen row `row`: the labels one after another, centred as a whole.
pub open spec fn controls_spec(cols: u16, row: u16) -> Seq<Seq<(u16, u16, char)>> {
    let parts = control_parts();
    let start = centered_start(usable_width(cols), parts.flatten().len() as int);
    Seq::new(
        parts.len(),
        |k: int|
            Seq::new(
                parts[k].len(),
                |j: int| (row, (start + parts.take(k).flatten().len() + j) as u16, parts[k][j]),
            ),
    )
}

/// Splits `text` at every `sep`, like `str::split`, into rows of characters.
fn split_rows(text: &str, sep: char) -> (rows: Vec<Vec<char>>)
    ensures
        nested_view(rows@) == split_on(text@, sep),
{
    let n = text.unicode_len();
    let mut rows: Vec<Vec<char>> = Vec::new();
    let mut cur: Vec<char> = Vec::new();
    let mut i: usize = 0;
    while i < n
        invariant
            n == text@.len(),
            i <= n,
            nested_view(rows@).push(cur@) == split_on(text@.take(i as int), sep),
        decreases n - i,
    {
        let c = text.get_char(i);
        let ghost before = nested_view(rows@).push(cur@);
        assert(text@.take(i + 1).drop_last() =~= text@.take(i as int));
        if c == sep {
            rows.push(cur);
            cur = Vec::new();
            assert(nested_view(rows@).push(cur@) =~= before.push(Seq::<char>::empty()));
        } else {
            cur.push(c);
            assert(nested_view(rows@).push(cur@) =~= before.update(
                before.len() - 1,
                before.last().push(c),
            ));
        }
        i += 1;
    }
    assert(text@.take(n as int) =~= text@);
    let ghost before = nested_view(rows@).push(cur@);
    rows.push(cur);
    assert(nested_view(rows@) =~= before);
    rows
}

/// The banner rows centred from screen row `start_row` down, without their spaces.
fn make_banner_lines(banner_rows: &Vec<Vec<char>>, cols: u16, start_row: u16) -> (lines: Vec<
    Vec<(u16, u16, char)>,
>)
    requires
        banner_rows@.len() <= 201,
        forall|i: int| 0 <= i < banner_rows@.len() ==> #[trigger] banner_rows@[i]@.len() <= 200,
        start_row <= 33000,
    ensures
        nested_view(lines@) == banner_lines_spec(nested_view(banner_rows@), cols, start_row),
{
    let mut lines: Vec<Vec<(u16, u16, char)>> = Vec::new();
    let available_width = cols.saturating_sub(2 * PADDING);
    let ghost rows = nested_view(banner_rows@);
    let mut idx: usize = 0;
    while idx < banner_rows.len()
        invariant
            rows == nested_view(banner_rows@),
            banner_rows@.len() <= 201,
            forall|i: int| 0 <= i < banner_rows@.len() ==> #[trigger] banner_rows@[i]@.len() <= 200,
            start_row <= 33000,
            available_width == usable_width(cols),
            idx <= banner_rows@.len(),
            lines@.len() == idx,
            forall|i: int|
                0 <= i < idx ==> #[trigger] lines@[i]@ == banner_row_cells(rows[i], cols, start_row + i),
        decreases banner_rows@.len() - idx,
    {
        let row = &banner_rows[idx];
        let line_len = row.len() as u16;
        let col_offset = PADDING + available_width.saturating_sub(line_len) / 2;
        let ghost full = Seq::new(
            row@.len(),
            |j: int| ((start_row + idx) as u16, (col_offset + j) as u16, row@[j]),
        );
        assert(full.filter(visible_cell()) == banner_row_cells(rows[idx as int], cols, start_row + idx));
        let mut line: Vec<(u16, u16, char)> = Vec::new();
        let mut col_idx: usize = 0;
        while col_idx < row.len()
            invariant
                row@.len() <= 200,
                start_row <= 33000,
                idx <= 200,
                col_offset <= 33000,
                col_idx <= row@.len(),
                full == Seq::new(
                    row@.len(),
                    |j: int| ((start_row + idx) as u16, (col_offset + j) as u16, row@[j]),
                ),
                line@ == full.take(col_idx as int).filter(visible_cell()),
            decreases row@.len() - col_idx,
        {
            let ch = row[col_idx];
            assert(full.take(col_idx + 1) =~= full.take(col_idx as int).push(full[col_idx as int]));
            proof {
                full.take(col_idx as int).lemma_filter_push(full[col_idx as int], visible_cell());
            }
            if ch != ' ' {
                line.push((start_row + idx as u16, col_offset + col_idx as u16, ch));
            }
            col_idx += 1;
        }
        assert(full.take(row@.len() as int) =~= full);
        lines.push(line);
        idx += 1;
    }
    assert(nested_view(lines@) =~= banner_lines_spec(rows, cols, start_row));
    lines
}

/// The controls line on screen row `start_row`, one vector per label.
fn make_controls_lines(cols: u16, start_row: u16) -> (lines: Vec<Vec<(u16, u16, char)>>)
    requires
        start_row <= 65000,
    ensures
        nested_view(lines@) == controls_spec(cols, start_row),
{
    let parts: Vec<&'static str> = vec!["Tab:", " restart ", "Ctrl+C/Esc:", " quit "];
    proof {
        reveal_strlit("Tab:");
        reveal_strlit(" restart ");
        reveal_strlit("Ctrl+C/Esc:");
        reveal_strlit(" quit ");
    }
    let ghost ps = control_parts();
    assert(ps.len() == 4);
    assert forall|k: int| 0 <= k < 4 implies #[trigger] parts@[k]@ == ps[k] by {}
    assert(ps.take(0).flatten() =~= Seq::<char>::empty());
    let mut text_len: u16 = 0;
    let mut k: usize = 0;
    while k < parts.len()
        invariant
            parts@.len() == 4,
            ps == control_parts(),
            forall|k: int| 0 <= k < 4 ==> #[trigger] parts@[k]@ == ps[k],
            ps[0].len() == 4,
            ps[1].len() == 9,
            ps[2].len() == 11,
            ps[3].len() == 6,
            k <= 4,
            text_len == ps.take(k as int).flatten().len(),
            text_len <= 11 * k,
            forall|k: int| 0 <= k < 4 ==> #[trigger] ps[k].len() <= 11,
        decreases 4 - k,
    {
        assert(ps.take(k + 1) =~= ps.take(k as int).push(ps[k as int]));
        proof {
            ps.take(k as int).lemma_flatten_push(ps[k as int]);
        }
        text_len = text_len + parts[k].unicode_len() as u16;
        k += 1;
    }
    assert(ps.take(4) =~= ps);
    let available_width = cols.saturating_sub(2 * PADDING);
    let start_col = PADDING + available_width.saturating_sub(text_len) / 2;
    let mut result: Vec<Vec<(u16, u16, char)>> = Vec::new();
    let mut col = start_col;
    let mut k: usize = 0;
    while k < parts.len()
        invariant
            parts@.len() == 4,
            ps == control_parts(),
            forall|k: int| 0 <= k < 4 ==> #[trigger] parts@[k]@ == ps[k],
            ps[0].len() == 4,
            ps[1].len() == 9,
            ps[2].len() == 11,
            ps[3].len() == 6,
            ps.flatten().len() == text_len,
            text_len <= 44,
            start_col == centered_start(usable_width(cols), text_len as int),
            start_col <= 33000,
            k <= 4,
            col == start_col + ps.take(k as int).flatten().len(),
            ps.take(k as int).flatten().len() <= 11 * k,
            forall|k: int| 0 <= k < 4 ==> #[trigger] ps[k].len() <= 11,
            result@.len() == k,
            forall|i: int| 0 <= i < k ==> #[trigger] result@[i]@ == controls_spec(cols, start_row)[i],
        decreases 4 - k,
    {
        let part = parts[k];
        let n = part.unicode_len();
        let mut chars: Vec<(u16, u16, char)> = Vec::new();
        let mut j: usize = 0;
        let ghost base = col;
        while j < n
            invariant
                n == part@.len(),
                n <= 11,
                j <= n,
                base <= 33000 + 40,
                col == base + j,
                chars@ == Seq::new(j as nat, |m: int| (start_row, (base + m) as u16, part@[m])),
            decreases n - j,
        {
            let ch = part.get_char(j);
            chars.push((start_row, col, ch));
            col += 1;
            j += 1;
            assert(chars@ =~= Seq::new(j as nat, |m: int| (start_row, (base + m) as u16, part@[m])));
        }
        assert(ps.take(k + 1) =~= ps.take(k as int).push(ps[k as int]));
        proof {
            ps.take(k as int).lemma_flatten_push(ps[k as int]);
        }
        assert(chars@ =~= controls_spec(cols, start_row)[k as int]);
        result.push(chars);
        k += 1;
    }
    assert(nested_view(result@) =~= controls_spec(cols, start_row));
    result
}

/// How far word wrapping has got: the finished lines with their counted lengths, the
/// characters of the line being filled, the length of the word being read, and the
/// counted length of the line being filled before that word.
pub struct WrapState {
    pub lines: Seq<Seq<TypedChar>>,
    pub lengths: Seq<int>,
    pub current: Seq<TypedChar>,
    pub word_len: int,
    pub count: int,
}

pub open spec fn wrap_start() -> WrapState {
    WrapState {
        lines: Seq::empty(),
        lengths: Seq::empty(),
        current: Seq::empty(),
        word_len: 0,
        count: 0,
    }
}

/// The line being filled holds something, and a space and the word being read would take it
/// past `max_width`.
pub open spec fn overflows(s: WrapState, max_width: int) -> bool {
    s.count > 0 && s.count + 1 + s.word_len > max_width
}

/// The line being filled is finished and a new, empty one begins.
pub open spec fn close_line(s: WrapState) -> WrapState {
    WrapState {
        lines: s.lines.push(s.current),
        lengths: s.lengths.push(s.count),
        current: Seq::empty(),
        word_len: s.word_len,
        count: 0,
    }
}

/// One character read: a space ends the word (first closing the line where the word overflows
/// it) and counts the word, and one separating column where the line already held something;
/// any other character extends the word. Every character goes to the line being filled.
pub open spec fn wrap_step(s: WrapState, tc: TypedChar, max_width: int) -> WrapState {
    if tc.ch == ' ' {
        let t = if overflows(s, max_width) {
            close_line(s)
        } else {
            s
        };
        WrapState {
            lines: t.lines,
            lengths: t.lengths,
            current: t.current.push(tc),
            word_len: 0,
            count: (if t.count > 0 {
                t.count + 1
            } else {
                0
            }) + t.word_len,
        }
    } else {
        WrapState {
            lines: s.lines,
            lengths: s.lengths,
            current: s.current.push(tc),
            word_len: s.word_len + 1,
            count: s.count,
        }
    }
}

/// The state after reading `chars` from the start.
pub open spec fn wrap_scan(chars: Seq<TypedChar>, max_width: int) -> WrapState
    decreases chars.len(),
{
    if chars.len() == 0 {
        wrap_start()
    } else {
        wrap_step(wrap_scan(chars.drop_last(), max_width), chars.last(), max_width)
    }
}

/// The end of the text: a last word is counted like one ended by a space, and the line being
/// filled is finished unless it is empty.
pub open spec fn wrap_finish(s: WrapState, max_width: int) -> WrapState {
    let t = if s.word_len > 0 {
        let u = if overflows(s, max_width) {
            close_line(s)
        } else {
            s
        };
        WrapState {
            lines: u.lines,
            lengths: u.lengths,
            current: u.current,
            word_len: u.word_len,
            count: u.count + u.word_len,
        }
    } else {
        s
    };
    if t.current.len() > 0 {
        close_line(t)
    } else {
        t
    }
}

/// The lines that `chars` is wrapped into at `max_width` columns, with their counted lengths.
pub open spec fn wrap_text(chars: Seq<TypedChar>, max_width: int) -> WrapState {
    wrap_finish(wrap_scan(chars, max_width), max_width)
}

/// The number of characters other than spaces at the end of `line`: the length of its last
/// word, 0 where it ends with a space.
pub open spec fn trailing_word_len(line: Seq<TypedChar>) -> nat
    decreases line.len(),
{
    if line.len() == 0 || line.last().ch == ' ' {
        0
    } else {
        trailing_word_len(line.drop_last()) + 1
    }
}

/// While reading, the word being read is the end of the line being filled, and every line
/// finished so far was finished because its counted length, one separating column and its
/// last word came to more than `max_width`.
proof fn lemma_wrap_scan_breaks(chars: Seq<TypedChar>, max_width: int)
    ensures
        wrap_scan(chars, max_width).lines.len() == wrap_scan(chars, max_width).lengths.len(),
        wrap_scan(chars, max_width).word_len == trailing_word_len(wrap_scan(chars, max_width).current),
        forall|l: int|
            0 <= l < wrap_scan(chars, max_width).lines.len() ==> wrap_scan(chars, max_width).lengths[l] > 0 && (
            #[trigger] wrap_scan(chars, max_width).lengths[l]) + 1 + trailing_word_len(
                wrap_scan(chars, max_width).lines[l],
            ) > max_width,
    decreases chars.len(),
{
    if chars.len() > 0 {
        lemma_wrap_scan_breaks(chars.drop_last(), max_width);
        let s = wrap_scan(chars.drop_last(), max_width);
        let t = wrap_scan(chars, max_width);
        let tc = chars.last();
        assert(t.current.drop_last() =~= (if tc.ch == ' ' && overflows(s, max_width) {
            Seq::<TypedChar>::empty()
        } else {
            s.current
        }));
        assert forall|l: int| 0 <= l < t.lines.len() implies t.lengths[l] > 0 && (#[trigger] t.lengths[l]) + 1
            + trailing_word_len(t.lines[l]) > max_width by {
            if l < s.lines.len() {
                assert(t.lines[l] == s.lines[l] && t.lengths[l] == s.lengths[l]);
            }
        }
    }
}

/// Wrapping is greedy: every line but the last is broken only because its counted length, one
/// separating column and the word that ends it come to more than `max_width`; that word stays
/// at the end of the line it overflowed.
pub proof fn lemma_wrap_breaks_only_when_full(chars: Seq<TypedChar>, max_width: int)
    ensures
        wrap_text(chars, max_width).lines.len() == wrap_text(chars, max_width).lengths.len(),
        forall|l: int|
            0 <= l < wrap_text(chars, max_width).lines.len() - 1 ==> wrap_text(chars, max_width).lengths[l] > 0 && (
            #[trigger] wrap_text(chars, max_width).lengths[l]) + 1 + trailing_word_len(
                wrap_text(chars, max_width).lines[l],
            ) > max_width,
{
    let s = wrap_scan(chars, max_width);
    lemma_wrap_scan_breaks(chars, max_width);
    let w = wrap_text(chars, max_width);
    assert forall|l: int| 0 <= l < w.lines.len() - 1 implies w.lengths[l] > 0 && (#[trigger] w.lengths[l]) + 1
        + trailing_word_len(w.lines[l]) > max_width by {
        if l < s.lines.len() {
            assert(w.lines[l] == s.lines[l] && w.lengths[l] == s.lengths[l]);
        }
    }
}

/// The columns that wrapping aims to stay within: the usable width, at most `MAX_LINE_WIDTH`.
pub open spec fn wrap_width(cols: u16) -> int {
    if usable_width(cols) < MAX_LINE_WIDTH {
        usable_width(cols)
    } else {
        MAX_LINE_WIDTH as int
    }
}

/// Text is wrapped to the columns left between the two paddings, and never wider than
/// `MAX_LINE_WIDTH`: the wrap width is `cols - 2 * PADDING` (none where the terminal is
/// narrower than both paddings), capped at `MAX_LINE_WIDTH`, so a line wrapped to it fits
/// between column `PADDING` and column `cols - PADDING`.
pub proof fn lemma_wrap_width_between_paddings(cols: u16)
    ensures
        wrap_width(cols) == (if cols >= 2 * PADDING + MAX_LINE_WIDTH {
            MAX_LINE_WIDTH as int
        } else if cols >= 2 * PADDING {
            cols - 2 * PADDING
        } else {
            0
        }),
        0 <= wrap_width(cols) <= MAX_LINE_WIDTH,
        wrap_width(cols) == 0 || PADDING + wrap_width(cols) + PADDING <= cols,
{
}

/// The number of UTF-16 code units of `c`.
pub open spec fn char_width(c: char) -> int {
    if (c as int) < 0x10000 {
        1
    } else {
        2
    }
}

/// The number of UTF-16 code units of the characters of `line`.
pub open spec fn text_width(line: Seq<TypedChar>) -> int
    decreases line.len(),
{
    if line.len() == 0 {
        0
    } else {
        text_width(line.drop_last()) + char_width(line.last().ch)
    }
}

pub proof fn lemma_text_width_bounds(line: Seq<TypedChar>)
    ensures
        0 <= text_width(line) <= 2 * line.len(),
    decreases line.len(),
{
    if line.len() > 0 {
        lemma_text_width_bounds(line.drop_last());
    }
}

/// A line of text on screen row `row`, centred by its width, one column per character.
pub open spec fn place_line(line: Seq<TypedChar>, cols: u16, row: int) -> Seq<(u16, u16, TypedChar)> {
    let start = centered_start(usable_width(cols), text_width(line));
    Seq::new(line.len(), |j: int| (row as u16, (start + j) as u16, line[j]))
}

/// The lines of text on consecutive rows from `text_start` down.
pub open spec fn place_lines(lines: Seq<Seq<TypedChar>>, cols: u16, text_start: int) -> Seq<
    Seq<(u16, u16, TypedChar)>,
> {
    Seq::new(lines.len(), |l: int| place_line(lines[l], cols, text_start + l))
}

/// The largest element, or 0 for none.
pub open spec fn seq_max(s: Seq<int>) -> int
    decreases s.len(),
{
    if s.len() == 0 {
        0
    } else {
        let m = seq_max(s.drop_last());
        if s.last() > m {
            s.last()
        } else {
            m
        }
    }
}

/// The frame around the text: three rows above and below it (at least one row of text counted),
/// and `SHRINKWRAP_PADDING` columns plus one beside the longest line, centred.
pub open spec fn text_area_spec(cols: u16, text_start: int, nlines: int, max_len: int) -> TextArea {
    let width = max_len + 2 * SHRINKWRAP_PADDING;
    let left = centered_start(usable_width(cols), width);
    TextArea {
        row_start: sat_sub(text_start, 3) as u16,
        row_end: (text_start + 3 + (if nlines > 1 {
            nlines
        } else {
            1
        })) as u16,
        col_start: sat_sub(left, 1) as u16,
        col_end: (left + width + 1) as u16,
    }
}

/// The `k`-th cell of the border of `area`: first the top and bottom edges column by column
/// (top before bottom, '+' at the corners and '─' between), then the left and right edges
/// row by row between them ('│').
pub open spec fn border_cell(area: TextArea, k: int) -> (u16, u16, TypedChar) {
    let top = area.row_start as int;
    let bottom = sat_sub(area.row_end as int, 1);
    let left = area.col_start as int;
    let right = sat_sub(area.col_end as int, 1);
    let w = sat_sub(right + 1, left);
    if k < 2 * w {
        let c = left + k / 2;
        let ch = if c == left || c == right {
            '+'
        } else {
            '─'
        };
        (
            (if k % 2 == 0 {
                top
            } else {
                bottom
            }) as u16,
            c as u16,
            TypedChar { ch, state: CharState::Border },
        )
    } else {
        let m = k - 2 * w;
        (
            (top + 1 + m / 2) as u16,
            (if m % 2 == 0 {
                left
            } else {
                right
            }) as u16,
            TypedChar { ch: '│', state: CharState::Border },
        )
    }
}

/// All the cells of the border of `area`, in drawing order.
pub open spec fn border_spec(area: TextArea) -> Seq<(u16, u16, TypedChar)> {
    let top = area.row_start as int;
    let bottom = sat_sub(area.row_end as int, 1);
    let left = area.col_start as int;
    let right = sat_sub(area.col_end as int, 1);
    let w = sat_sub(right + 1, left);
    let h = sat_sub(bottom, top + 1);
    Seq::new((2 * w + 2 * h) as nat, |k: int| border_cell(area, k))
}

pub open spec fn is_pending(cell: (u16, u16, TypedChar)) -> bool {
    cell.2.state == CharState::Pending
}

/// Line `l1`, column `j1` comes before line `l2`, column `j2` in reading order.
pub open spec fn reads_before(l1: int, j1: int, l2: int, j2: int) -> bool {
    l1 < l2 || (l1 == l2 && j1 < j2)
}

/// The cell at line `l`, column `j` is pending and no pending cell comes before it.
pub open spec fn first_pending_at(placed: Seq<Seq<(u16, u16, TypedChar)>>, l: int, j: int) -> bool {
    &&& 0 <= l < placed.len()
    &&& 0 <= j < placed[l].len()
    &&& is_pending(placed[l][j])
    &&& forall|l2: int, j2: int|
        0 <= l2 < placed.len() && 0 <= j2 < placed[l2].len() && reads_before(l2, j2, l, j)
            ==> !is_pending(#[trigger] placed[l2][j2])
}

/// Where the cursor goes: on the first pending character; where there is none, on the first
/// character; where there is no text, on the first text row at the left padding.
pub open spec fn cursor_spec(placed: Seq<Seq<(u16, u16, TypedChar)>>, text_start: int) -> (u16, u16) {
    if exists|l: int, j: int| first_pending_at(placed, l, j) {
        let (l, j) = choose|l: int, j: int| first_pending_at(placed, l, j);
        (placed[l][j].0, placed[l][j].1)
    } else if placed.len() > 0 && placed[0].len() > 0 {
        (placed[0][0].0, placed[0][0].1)
    } else {
        (text_start as u16, PADDING)
    }
}

/// The rows of the banner.
pub open spec fn banner_rows() -> Seq<Seq<char>> {
    split_on(crate::banner::BANNER@, '\n')
}

/// The whole screen for a terminal of `cols` columns and `rows` rows showing `chars`: the
/// banner, the controls line and the wrapped text stacked with their gaps and centred
/// vertically, the border around the text, and the cursor.
pub open spec fn layout_spec(cols: u16, rows: u16, chars: Seq<TypedChar>) -> LayoutView {
    let wrapped = wrap_text(chars, wrap_width(cols));
    let nlines = wrapped.lines.len() as int;
    let brows = banner_rows();
    let banner_height = brows.len() as int;
    let total_height = banner_height + BANNER_TO_CONTROLS_GAP + 1 + CONTROLS_TO_TEXT_GAP + nlines;
    let combined_start = PADDING + sat_sub(sat_sub(rows as int, 2 * PADDING), total_height) / 2;
    let controls_start = combined_start + banner_height + BANNER_TO_CONTROLS_GAP;
    let text_start = controls_start + 1 + CONTROLS_TO_TEXT_GAP;
    let placed = place_lines(wrapped.lines, cols, text_start);
    let area = text_area_spec(cols, text_start, nlines, seq_max(wrapped.lengths));
    let cursor = cursor_spec(placed, text_start);
    LayoutView {
        banner_lines: banner_lines_spec(brows, cols, combined_start as u16),
        controls_lines: controls_spec(cols, controls_start as u16),
        border_lines: border_spec(area),
        lines: placed,
        text_area: area,
        cursor_row: cursor.0,
        cursor_col: cursor.1,
    }
}

/// Wraps `chars` at `max_width` columns: the lines and their counted lengths.
fn wrap_lines(chars: &[TypedChar], max_width: u16) -> (res: (Vec<Vec<TypedChar>>, Vec<u16>))
    requires
        chars@.len() <= MAX_TEXT_CHARS,
    ensures
        nested_view(res.0@) == wrap_text(chars@, max_width as int).lines,
        res.1@.len() == wrap_text(chars@, max_width as int).lengths.len(),
        forall|k: int| 0 <= k < res.1@.len() ==> #[trigger] res.1@[k] as int == wrap_text(chars@, max_width as int).lengths[k],
        res.0@.len() <= chars@.len(),
        forall|k: int| 0 <= k < res.1@.len() ==> #[trigger] res.1@[k] <= chars@.len(),
        forall|k: int| 0 <= k < res.0@.len() ==> #[trigger] res.0@[k]@.len() <= chars@.len(),
{
    let ghost mw = max_width as int;
    let mut lines: Vec<Vec<TypedChar>> = Vec::new();
    let mut line_lengths: Vec<u16> = Vec::new();
    let mut current_line: Vec<TypedChar> = Vec::new();
    let mut word_len: u16 = 0;
    let mut line_char_count: u16 = 0;
    let ghost mut st = wrap_start();
    let mut i: usize = 0;
    assert(chars@.take(0) =~= Seq::<TypedChar>::empty());
    while i < chars.len()
        invariant
            chars@.len() <= MAX_TEXT_CHARS,
            mw == max_width as int,
            i <= chars@.len(),
            st == wrap_scan(chars@.take(i as int), mw),
            lines@.len() == st.lines.len(),
            forall|k: int| 0 <= k < lines@.len() ==> #[trigger] lines@[k]@ == st.lines[k],
            line_lengths@.len() == st.lengths.len(),
            forall|k: int| 0 <= k < line_lengths@.len() ==> #[trigger] line_lengths@[k] as int == st.lengths[k],
            current_line@ == st.current,
            word_len as int == st.word_len,
            line_char_count as int == st.count,
            st.count + st.word_len <= i,
            st.lines.len() + st.current.len() <= i,
            st.count > 0 ==> st.current.len() > 0,
            forall|k: int| 0 <= k < st.lengths.len() ==> #[trigger] st.lengths[k] <= i,
            forall|k: int| 0 <= k < st.lines.len() ==> #[trigger] st.lines[k].len() <= i,
            st.current.len() <= i,
        decreases chars@.len() - i,
    {
        let tc = chars[i];
        assert(chars@.take(i + 1).drop_last() =~= chars@.take(i as int));
        let ghost prev = st;
        proof {
            st = wrap_step(st, tc, mw);
        }
        if tc.ch == ' ' {
            if line_char_count > 0 && line_char_count + 1 + word_len > max_width {
                assert(overflows(prev, mw));
                lines.push(current_line);
                line_lengths.push(line_char_count);
                current_line = Vec::new();
                line_char_count = 0;
            } else {
                assert(!overflows(prev, mw));
            }
            if line_char_count > 0 {
                line_char_count += 1;
            }
            current_line.push(tc);
            line_char_count += word_len;
            word_len = 0;
        } else {
            word_len += 1;
            current_line.push(tc);
        }
        i += 1;
    }
    assert(chars@.take(chars@.len() as int) =~= chars@);
    let ghost scanned = st;
    if word_len > 0 {
        if line_char_count > 0 && line_char_count + 1 + word_len > max_width {
            lines.push(current_line);
            line_lengths.push(line_char_count);
            current_line = Vec::new();
            line_char_count = 0;
        }
        line_char_count += word_len;
    }
    if current_line.len() > 0 {
        lines.push(current_line);
        line_lengths.push(line_char_count);
    }
    proof {
        st = wrap_finish(scanned, mw);
    }
    assert(nested_view(lines@) =~= st.lines);
    (lines, line_lengths)
}

/// The number of UTF-16 code units of `c`.
fn utf16_len(c: char) -> (n: u16)
    ensures
        n as int == char_width(c),
{
    if (c as u32) < 0x10000 {
        1
    } else {
        2
    }
}

/// Places the lines on consecutive rows from `text_start`, each centred by its width.
fn place_text(lines: &Vec<Vec<TypedChar>>, cols: u16, text_start: u16) -> (placed: Vec<
    Vec<(u16, u16, TypedChar)>,
>)
    requires
        lines@.len() <= MAX_TEXT_CHARS,
        forall|k: int| 0 <= k < lines@.len() ==> #[trigger] lines@[k]@.len() <= MAX_TEXT_CHARS,
        text_start + lines@.len() <= 65535,
    ensures
        nested_view(placed@) == place_lines(nested_view(lines@), cols, text_start as int),
{
    let ghost ls = nested_view(lines@);
    let available_width = cols.saturating_sub(2 * PADDING);
    let mut placed: Vec<Vec<(u16, u16, TypedChar)>> = Vec::new();
    let mut line_idx: usize = 0;
    while line_idx < lines.len()
        invariant
            ls == nested_view(lines@),
            lines@.len() <= MAX_TEXT_CHARS,
            forall|k: int| 0 <= k < lines@.len() ==> #[trigger] lines@[k]@.len() <= MAX_TEXT_CHARS,
            text_start + lines@.len() <= 65535,
            available_width as int == usable_width(cols),
            line_idx <= lines@.len(),
            placed@.len() == line_idx,
            forall|k: int|
                0 <= k < line_idx ==> #[trigger] placed@[k]@ == place_line(ls[k], cols, text_start + k),
        decreases lines@.len() - line_idx,
    {
        let line = &lines[line_idx];
        let row = text_start + line_idx as u16;
        let mut line_len: u16 = 0;
        let mut j: usize = 0;
        assert(line@.take(0) =~= Seq::<TypedChar>::empty());
        while j < line.len()
            invariant
                line@.len() <= MAX_TEXT_CHARS,
                j <= line@.len(),
                line_len as int == text_width(line@.take(j as int)),
                line_len <= 2 * j,
            decreases line@.len() - j,
        {
            assert(line@.take(j + 1).drop_last() =~= line@.take(j as int));
            line_len = line_len + utf16_len(line[j].ch);
            j += 1;
        }
        assert(line@.take(line@.len() as int) =~= line@);
        let start_col = PADDING + available_width.saturating_sub(line_len) / 2;
        let mut positioned: Vec<(u16, u16, TypedChar)> = Vec::new();
        let mut col_idx: usize = 0;
        while col_idx < line.len()
            invariant
                line@.len() <= MAX_TEXT_CHARS,
                start_col <= 33000,
                col_idx <= line@.len(),
                positioned@ == Seq::new(col_idx as nat, |m: int| (row, (start_col + m) as u16, line@[m])),
            decreases line@.len() - col_idx,
        {
            positioned.push((row, start_col + col_idx as u16, line[col_idx]));
            col_idx += 1;
            assert(positioned@ =~= Seq::new(col_idx as nat, |m: int| (row, (start_col + m) as u16, line@[m])));
        }
        assert(positioned@ =~= place_line(ls[line_idx as int], cols, text_start + line_idx));
        placed.push(positioned);
        line_idx += 1;
    }
    assert(nested_view(placed@) =~= place_lines(ls, cols, text_start as int));
    placed
}

/// The largest length, or 0 for none.
fn max_length(lengths: &Vec<u16>) -> (m: u16)
    requires
        forall|k: int| 0 <= k < lengths@.len() ==> #[trigger] lengths@[k] <= MAX_TEXT_CHARS,
    ensures
        m as int == seq_max(lengths@.map_values(|x: u16| x as int)),
        m <= MAX_TEXT_CHARS,
{
    let ghost s = lengths@.map_values(|x: u16| x as int);
    let mut m: u16 = 0;
    let mut k: usize = 0;
    assert(s.take(0) =~= Seq::<int>::empty());
    while k < lengths.len()
        invariant
            s == lengths@.map_values(|x: u16| x as int),
            forall|k: int| 0 <= k < lengths@.len() ==> #[trigger] lengths@[k] <= MAX_TEXT_CHARS,
            k <= lengths@.len(),
            m as int == seq_max(s.take(k as int)),
            m <= MAX_TEXT_CHARS,
        decreases lengths@.len() - k,
    {
        assert(s.take(k + 1).drop_last() =~= s.take(k as int));
        if lengths[k] > m {
            m = lengths[k];
        }
        k += 1;
    }
    assert(s.take(lengths@.len() as int) =~= s);
    m
}

/// The cells of the border of `area`, in drawing order.
fn make_border(area: TextArea) -> (border: Vec<(u16, u16, TypedChar)>)
    ensures
        border@ == border_spec(area),
{
    let top = area.row_start;
    let bottom = area.row_end.saturating_sub(1);
    let left = area.col_start;
    let right = area.col_end.saturating_sub(1);
    let ghost w = sat_sub(right + 1, left as int);
    let mut border: Vec<(u16, u16, TypedChar)> = Vec::new();
    let mut c: u32 = left as u32;
    while c <= right as u32
        invariant
            top == area.row_start,
            bottom as int == sat_sub(area.row_end as int, 1),
            left == area.col_start,
            right as int == sat_sub(area.col_end as int, 1),
            w == sat_sub(right + 1, left as int),
            left <= c,
            c <= left + w,
            border@ == Seq::new((2 * (c - left)) as nat, |k: int| border_cell(area, k)),
        decreases right + 1 - c,
    {
        let ch = if c == left as u32 || c == right as u32 {
            '+'
        } else {
            '─'
        };
        let cc = c as u16;
        border.push((top, cc, TypedChar { ch, state: CharState::Border }));
        border.push((bottom, cc, TypedChar { ch, state: CharState::Border }));
        c = c + 1;
        assert(border@ =~= Seq::new((2 * (c - left)) as nat, |k: int| border_cell(area, k)));
    }
    assert(c == left + w);
    if top < 65535 {
        let mut r: u16 = top + 1;
        while r < bottom
            invariant
                top == area.row_start,
                top < 65535,
                bottom as int == sat_sub(area.row_end as int, 1),
                left == area.col_start,
                right as int == sat_sub(area.col_end as int, 1),
                w == sat_sub(right + 1, left as int),
                top + 1 <= r,
                r <= top + 1 + sat_sub(bottom as int, top + 1),
                border@ == Seq::new((2 * w + 2 * (r - top - 1)) as nat, |k: int| border_cell(area, k)),
            decreases bottom - r,
        {
            border.push((r, left, TypedChar { ch: '│', state: CharState::Border }));
            border.push((r, right, TypedChar { ch: '│', state: CharState::Border }));
            r = r + 1;
            assert(border@ =~= Seq::new((2 * w + 2 * (r - top - 1)) as nat, |k: int| border_cell(area, k)));
        }
    }
    assert(border@ =~= border_spec(area));
    border
}

/// Two first pending cells are the same cell.
pub proof fn lemma_first_pending_unique(
    placed: Seq<Seq<(u16, u16, TypedChar)>>,
    l1: int,
    j1: int,
    l2: int,
    j2: int,
)
    requires
        first_pending_at(placed, l1, j1),
        first_pending_at(placed, l2, j2),
    ensures
        l1 == l2 && j1 == j2,
{
    if reads_before(l1, j1, l2, j2) {
        assert(!is_pending(placed[l1][j1]));
    } else if reads_before(l2, j2, l1, j1) {
        assert(!is_pending(placed[l2][j2]));
    }
}

/// The line and column of the first pending cell, if there is one.
fn find_first_pending(placed: &Vec<Vec<(u16, u16, TypedChar)>>) -> (r: Option<(usize, usize)>)
    ensures
        match r {
            Some(p) => first_pending_at(nested_view(placed@), p.0 as int, p.1 as int),
            None => forall|l: int, j: int|
                0 <= l < placed@.len() && 0 <= j < placed@[l]@.len() ==> !is_pending(
                    #[trigger] nested_view(placed@)[l][j],
                ),
        },
{
    let ghost pl = nested_view(placed@);
    let mut l: usize = 0;
    while l < placed.len()
        invariant
            pl == nested_view(placed@),
            l <= placed@.len(),
            forall|l2: int, j2: int|
                0 <= l2 < l && 0 <= j2 < pl[l2].len() ==> !is_pending(#[trigger] pl[l2][j2]),
        decreases placed@.len() - l,
    {
        let line = &placed[l];
        let mut j: usize = 0;
        while j < line.len()
            invariant
                pl == nested_view(placed@),
                l < placed@.len(),
                line@ == pl[l as int],
                j <= line@.len(),
                forall|l2: int, j2: int|
                    0 <= l2 < l && 0 <= j2 < pl[l2].len() ==> !is_pending(#[trigger] pl[l2][j2]),
                forall|j2: int| 0 <= j2 < j ==> !is_pending(#[trigger] pl[l as int][j2]),
            decreases line@.len() - j,
        {
            if line[j].2.state == CharState::Pending {
                assert(first_pending_at(pl, l as int, j as int));
                return Some((l, j));
            }
            j += 1;
        }
        l += 1;
    }
    None
}

/// Lays out the banner, the controls line and `chars` wrapped into lines on a terminal of
/// `cols` columns and `rows` rows, with the border around the text and the cursor on the
/// first pending character.
pub fn layout(cols: u16, rows: u16, chars: &[TypedChar]) -> (res: Layout)
    requires
        chars@.len() <= MAX_TEXT_CHARS,
    ensures
        res@ == layout_spec(cols, rows, chars@),
{
    let available_width = cols.saturating_sub(2 * PADDING);
    let max_width = if available_width < MAX_LINE_WIDTH {
        available_width
    } else {
        MAX_LINE_WIDTH
    };
    let max_height = rows.saturating_sub(2 * PADDING);
    let (lines, line_lengths) = wrap_lines(chars, max_width);
    let ghost wrapped = wrap_text(chars@, wrap_width(cols));
    let banner_text = crate::banner::banner_text();
    let banner_rows = split_rows(banner_text, '\n');
    proof {
        lemma_split_on_bounds(banner_text@, '\n');
        assert forall|i: int| 0 <= i < banner_rows@.len() implies #[trigger] banner_rows@[i]@.len() <= 200 by {
            assert(banner_rows@[i]@ == nested_view(banner_rows@)[i]);
        }
    }
    let banner_height: u16 = banner_rows.len() as u16;
    let controls_height: u16 = 1;
    let total_height = banner_height + BANNER_TO_CONTROLS_GAP + controls_height + CONTROLS_TO_TEXT_GAP
        + lines.len() as u16;
    let combined_start = PADDING + max_height.saturating_sub(total_height) / 2;
    let controls_start = combined_start + banner_height + BANNER_TO_CONTROLS_GAP;
    let text_start = controls_start + controls_height + CONTROLS_TO_TEXT_GAP;

    let banner_lines = make_banner_lines(&banner_rows, cols, combined_start);
    let controls_lines = make_controls_lines(cols, controls_start);
    let positioned_lines = place_text(&lines, cols, text_start);

    let text_row_start = text_start.saturating_sub(3);
    let line_count = lines.len() as u16;
    let text_row_end = text_start + 3 + if line_count > 1 {
        line_count
    } else {
        1
    };
    let max_line_len = max_length(&line_lengths);
    assert(line_lengths@.map_values(|x: u16| x as int) =~= wrapped.lengths);
    let text_area_width = max_line_len + 2 * SHRINKWRAP_PADDING;
    let text_area_left = PADDING + available_width.saturating_sub(text_area_width) / 2;
    let text_col_start = text_area_left.saturating_sub(1);
    let text_col_end = text_area_left + text_area_width + 1;
    let text_area = TextArea {
        row_start: text_row_start,
        row_end: text_row_end,
        col_start: text_col_start,
        col_end: text_col_end,
    };
    let border_lines = make_border(text_area);

    let ghost placed = nested_view(positioned_lines@);
    let mut cursor_row = text_start;
    let mut cursor_col = PADDING;
    match find_first_pending(&positioned_lines) {
        Some((l, j)) => {
            cursor_row = positioned_lines[l][j].0;
            cursor_col = positioned_lines[l][j].1;
            proof {
                let (l2, j2) = choose|l2: int, j2: int| first_pending_at(placed, l2, j2);
                lemma_first_pending_unique(placed, l as int, j as int, l2, j2);
            }
        },
        None => {
            if positioned_lines.len() > 0 && positioned_lines[0].len() > 0 {
                cursor_row = positioned_lines[0][0].0;
                cursor_col = positioned_lines[0][0].1;
            }
        },
    }
    let res = Layout {
        banner_lines,
        controls_lines,
        border_lines,
        lines: positioned_lines,
        text_area,
        cursor_row,
        cursor_col,
    };
    assert(res@ =~= layout_spec(cols, rows, chars@));
    res
}

/// The characters of a line of placed cells, in order.
pub open spec fn line_chars(line: Seq<(u16, u16, TypedChar)>) -> Seq<TypedChar> {
    line.map_values(|cell: (u16, u16, TypedChar)| cell.2)
}

/// The characters that a layout shows as text, line after line.
pub open spec fn shown_text(l: LayoutView) -> Seq<TypedChar> {
    Seq::new(l.lines.len(), |i: int| line_chars(l.lines[i])).flatten()
}

/// While wrapping, the finished lines and the line being filled hold the characters read so
/// far, in order.
pub proof fn lemma_wrap_scan_keeps_text(chars: Seq<TypedChar>, max_width: int)
    ensures
        wrap_scan(chars, max_width).lines.flatten() + wrap_scan(chars, max_width).current == chars,
    decreases chars.len(),
{
    if chars.len() == 0 {
        assert(wrap_scan(chars, max_width).lines.flatten() + wrap_scan(chars, max_width).current =~= chars);
    } else {
        let s = wrap_scan(chars.drop_last(), max_width);
        lemma_wrap_scan_keeps_text(chars.drop_last(), max_width);
        s.lines.lemma_flatten_push(s.current);
        let t = wrap_scan(chars, max_width);
        assert(t.lines.flatten() + t.current =~= s.lines.flatten() + s.current + seq![chars.last()]);
        assert(chars =~= chars.drop_last().push(chars.last()));
    }
}

/// Wrapping keeps the text: the lines, read one after another, are the characters wrapped.
pub proof fn lemma_wrap_keeps_text(chars: Seq<TypedChar>, max_width: int)
    ensures
        wrap_text(chars, max_width).lines.flatten() == chars,
{
    let s = wrap_scan(chars, max_width);
    lemma_wrap_scan_keeps_text(chars, max_width);
    let t = if s.word_len > 0 {
        let u = if overflows(s, max_width) {
            close_line(s)
        } else {
            s
        };
        WrapState {
            lines: u.lines,
            lengths: u.lengths,
            current: u.current,
            word_len: u.word_len,
            count: u.count + u.word_len,
        }
    } else {
        s
    };
    s.lines.lemma_flatten_push(s.current);
    assert(t.lines.flatten() + t.current == chars);
    t.lines.lemma_flatten_push(t.current);
    if t.current.len() == 0 {
        assert(t.lines.flatten() =~= t.lines.flatten() + t.current);
    }
}

/// A layout shows exactly the text it was given: the characters of its lines, read line
/// after line, are the input characters in order, with their states.
pub proof fn lemma_layout_keeps_text(cols: u16, rows: u16, chars: Seq<TypedChar>)
    ensures
        shown_text(layout_spec(cols, rows, chars)) == chars,
{
    let l = layout_spec(cols, rows, chars);
    let wrapped = wrap_text(chars, wrap_width(cols));
    lemma_wrap_keeps_text(chars, wrap_width(cols));
    assert forall|i: int| 0 <= i < l.lines.len() implies #[trigger] line_chars(l.lines[i]) == wrapped.lines[i] by {
        assert(line_chars(l.lines[i]) =~= wrapped.lines[i]);
    }
    assert(Seq::new(l.lines.len(), |i: int| line_chars(l.lines[i])) =~= wrapped.lines);
}

/// The layout wraps the text to the columns between the two paddings: its lines hold, in
/// order, the lines of the text wrapped at `cols - 2 * PADDING` columns (none where the
/// terminal is narrower than both paddings), at most `MAX_LINE_WIDTH`.
pub proof fn lemma_layout_wraps_between_paddings(cols: u16, rows: u16, chars: Seq<TypedChar>)
    ensures
        ({
            let width = if cols >= 2 * PADDING + MAX_LINE_WIDTH {
                MAX_LINE_WIDTH as int
            } else if cols >= 2 * PADDING {
                cols - 2 * PADDING
            } else {
                0
            };
            let v = layout_spec(cols, rows, chars);
            &&& v.lines.len() == wrap_text(chars, width).lines.len()
            &&& forall|l: int|
                0 <= l < v.lines.len() ==> line_chars(#[trigger] v.lines[l]) == wrap_text(chars, width).lines[l]
        }),
{
    lemma_wrap_width_between_paddings(cols);
    let v = layout_spec(cols, rows, chars);
    let lines = wrap_text(chars, wrap_width(cols)).lines;
    assert forall|l: int| 0 <= l < v.lines.len() implies line_chars(#[trigger] v.lines[l]) == lines[l] by {
        assert(line_chars(v.lines[l]) =~= lines[l]);
    }
}

/// While wrapping, the finished lines and the line being filled hold no more than the
/// characters read, and a line with a counted length holds some character.
proof fn lemma_wrap_scan_sizes(chars: Seq<TypedChar>, max_width: int)
    ensures
        wrap_scan(chars, max_width).lines.len() + wrap_scan(chars, max_width).current.len() <= chars.len(),
        wrap_scan(chars, max_width).count > 0 ==> wrap_scan(chars, max_width).current.len() > 0,
    decreases chars.len(),
{
    if chars.len() > 0 {
        lemma_wrap_scan_sizes(chars.drop_last(), max_width);
    }
}

/// Wrapping makes no more lines than there are characters.
proof fn lemma_wrap_line_count(chars: Seq<TypedChar>, max_width: int)
    ensures
        wrap_text(chars, max_width).lines.len() <= chars.len(),
{
    lemma_wrap_scan_sizes(chars, max_width);
}

/// The lines of text lie on consecutive screen rows, in order, beginning `CONTROLS_TO_TEXT_GAP`
/// blank rows below the controls line: every cell of line `l` is on the row
/// `CONTROLS_TO_TEXT_GAP + 1 + l` below the controls line, so two cells are `l2 - l` rows
/// apart when they belong to lines `l` and `l2`, and no two lines share a row.
pub proof fn lemma_text_rows(cols: u16, rows: u16, chars: Seq<TypedChar>)
    requires
        chars.len() <= MAX_TEXT_CHARS,
    ensures
        forall|l: int, j: int, l2: int, j2: int|
            0 <= l < layout_spec(cols, rows, chars).lines.len() && 0 <= j < layout_spec(
                cols,
                rows,
                chars,
            ).lines[l].len() && 0 <= l2 < layout_spec(cols, rows, chars).lines.len() && 0 <= j2
                < layout_spec(cols, rows, chars).lines[l2].len() ==> (#[trigger] layout_spec(
                cols,
                rows,
                chars,
            ).lines[l][j]).0 + l2 == (#[trigger] layout_spec(cols, rows, chars).lines[l2][j2]).0 + l,
        forall|l: int, j: int, k: int, i: int|
            0 <= l < layout_spec(cols, rows, chars).lines.len() && 0 <= j < layout_spec(
                cols,
                rows,
                chars,
            ).lines[l].len() && 0 <= k < layout_spec(cols, rows, chars).controls_lines.len() && 0 <= i
                < layout_spec(cols, rows, chars).controls_lines[k].len() ==> (#[trigger] layout_spec(
                cols,
                rows,
                chars,
            ).lines[l][j]).0 == (#[trigger] layout_spec(cols, rows, chars).controls_lines[k][i]).0 + 1
                + CONTROLS_TO_TEXT_GAP + l,
{
    let v = layout_spec(cols, rows, chars);
    let wrapped = wrap_text(chars, wrap_width(cols));
    let nlines = wrapped.lines.len() as int;
    let brows = banner_rows();
    let banner_height = brows.len() as int;
    let total_height = banner_height + BANNER_TO_CONTROLS_GAP + 1 + CONTROLS_TO_TEXT_GAP + nlines;
    let combined_start = PADDING + sat_sub(sat_sub(rows as int, 2 * PADDING), total_height) / 2;
    let controls_start = combined_start + banner_height + BANNER_TO_CONTROLS_GAP;
    let text_start = controls_start + 1 + CONTROLS_TO_TEXT_GAP;
    lemma_wrap_line_count(chars, wrap_width(cols));
    crate::banner::lemma_banner_len();
    lemma_split_on_bounds(crate::banner::BANNER@, '\n');
    assert(0 <= sat_sub(sat_sub(rows as int, 2 * PADDING), total_height) <= 65535);
    assert(text_start + nlines <= 65535);
    assert forall|l: int, j: int| 0 <= l < v.lines.len() && 0 <= j < v.lines[l].len() implies (
    #[trigger] v.lines[l][j]).0 == text_start + l by {
        assert(v.lines[l] == place_line(wrapped.lines[l], cols, text_start + l));
    }
    assert forall|k: int, i: int| 0 <= k < v.controls_lines.len() && 0 <= i < v.controls_lines[k].len() implies (
    #[trigger] v.controls_lines[k][i]).0 == controls_start by {}
}

/// Each line of text is drawn left to right on consecutive columns, centred between the
/// paddings by its width `w` in UTF-16 code units: of the `cols - 2 * PADDING` usable columns
/// (none on a narrower terminal), the blank ones left of the line, `g`, and those right of
/// it differ by at most one, the extra one on the right; a line wider than the usable
/// columns starts right after the left padding.
pub proof fn lemma_text_centred(cols: u16, rows: u16, chars: Seq<TypedChar>)
    requires
        chars.len() <= MAX_TEXT_CHARS,
    ensures
        forall|l: int, j: int|
            0 <= l < layout_spec(cols, rows, chars).lines.len() && 0 <= j < layout_spec(
                cols,
                rows,
                chars,
            ).lines[l].len() ==> (#[trigger] layout_spec(cols, rows, chars).lines[l][j]).1 == layout_spec(
                cols,
                rows,
                chars,
            ).lines[l][0].1 + j,
        forall|l: int|
            0 <= l < layout_spec(cols, rows, chars).lines.len() && layout_spec(cols, rows, chars).lines[l].len()
                > 0 ==> ({
                let line = #[trigger] layout_spec(cols, rows, chars).lines[l];
                let g = line[0].1 - PADDING;
                let w = text_width(line_chars(line));
                let avail = if cols >= 2 * PADDING {
                    cols - 2 * PADDING
                } else {
                    0
                };
                &&& g >= 0
                &&& w <= avail ==> g <= avail - w - g <= g + 1
                &&& w > avail ==> g == 0
            }),
{
    let v = layout_spec(cols, rows, chars);
    let wrapped = wrap_text(chars, wrap_width(cols));
    lemma_wrap_keeps_text(chars, wrap_width(cols));
    assert forall|l: int| 0 <= l < v.lines.len() implies #[trigger] line_chars(v.lines[l]) == wrapped.lines[l]
        && wrapped.lines[l].len() <= chars.len() by {
        assert(line_chars(v.lines[l]) =~= wrapped.lines[l]);
        if wrapped.lines[l].len() > 0 {
            lemma_flatten_index(wrapped.lines, l, wrapped.lines[l].len() - 1);
        }
    }
    assert forall|l: int, j: int| 0 <= l < v.lines.len() && 0 <= j < v.lines[l].len() implies (
    #[trigger] v.lines[l][j]).1 == v.lines[l][0].1 + j by {
        assert(line_chars(v.lines[l]) == wrapped.lines[l]);
        lemma_text_width_bounds(wrapped.lines[l]);
    }
    assert forall|l: int| 0 <= l < v.lines.len() && v.lines[l].len() > 0 implies ({
        let line = #[trigger] v.lines[l];
        let g = line[0].1 - PADDING;
        let w = text_width(line_chars(line));
        let avail = if cols >= 2 * PADDING {
            cols - 2 * PADDING
        } else {
            0
        };
        &&& g >= 0
        &&& w <= avail ==> g <= avail - w - g <= g + 1
        &&& w > avail ==> g == 0
    }) by {
        assert(line_chars(v.lines[l]) == wrapped.lines[l]);
        lemma_text_width_bounds(wrapped.lines[l]);
    }
}

/// The cell at row `r` and column `c` is on the outline of `area`: on its top or bottom row
/// (`row_end - 1`) between its left and right columns (`col_end - 1`), or on its left or right
/// column between its top and bottom rows.
pub open spec fn on_outline(area: TextArea, r: int, c: int) -> bool {
    ||| (r == area.row_start || r == area.row_end - 1) && area.col_start <= c <= area.col_end - 1
    ||| area.row_start <= r <= area.row_end - 1 && (c == area.col_start || c == area.col_end - 1)
}

/// The border outlines the area that it is made for: every cell of it lies on the top or the
/// bottom row of the area (`row_end - 1`) between its left and right columns (`col_end - 1`),
/// '+' at the corners and '─' between, or on the left or the right column between the top
/// and bottom rows, '│'; all are border cells; and every cell of that outline is drawn.
pub proof fn lemma_border_outlines_area(area: TextArea)
    requires
        area.row_start + 2 <= area.row_end,
        area.col_start + 2 <= area.col_end,
    ensures
        forall|k: int|
            0 <= k < border_spec(area).len() ==> ({
                let cell = #[trigger] border_spec(area)[k];
                let top = area.row_start as int;
                let bottom = area.row_end - 1;
                let left = area.col_start as int;
                let right = area.col_end - 1;
                &&& cell.2.state == CharState::Border
                &&& ((cell.0 == top || cell.0 == bottom) && left <= cell.1 <= right && cell.2.ch == (if cell.1
                    == left || cell.1 == right {
                    '+'
                } else {
                    '─'
                })) || (top < cell.0 < bottom && (cell.1 == left || cell.1 == right) && cell.2.ch == '│')
            }),
        forall|r: int, c: int|
            #[trigger] on_outline(area, r, c) ==> exists|
                k: int,
            |
                0 <= k < border_spec(area).len() && (#[trigger] border_spec(area)[k]).0 == r && border_spec(area)[k].1
                    == c,
{
    let top = area.row_start as int;
    let bottom = area.row_end - 1;
    let left = area.col_start as int;
    let right = area.col_end - 1;
    let w = right + 1 - left;
    let b = border_spec(area);
    assert forall|r: int, c: int| #[trigger] on_outline(area, r, c) implies exists|
            k: int,
        |
            0 <= k < b.len() && (#[trigger] b[k]).0 == r && b[k].1 == c by {
        if r == top {
            let k = 2 * (c - left);
            assert(b[k].0 == r && b[k].1 == c);
        } else if r == bottom {
            let k = 2 * (c - left) + 1;
            assert(b[k].0 == r && b[k].1 == c);
        } else if c == left {
            let k = 2 * w + 2 * (r - top - 1);
            assert(b[k].0 == r && b[k].1 == c);
        } else {
            let k = 2 * w + 2 * (r - top - 1) + 1;
            assert(b[k].0 == r && b[k].1 == c);
        }
    }
}

/// The border's top edge is three rows above the first line of text and its bottom edge three
/// rows below the last, so two blank rows separate them.
pub proof fn lemma_border_around_text(cols: u16, rows: u16, chars: Seq<TypedChar>)
    requires
        chars.len() <= MAX_TEXT_CHARS,
    ensures
        forall|j: int|
            0 < layout_spec(cols, rows, chars).lines.len() && 0 <= j < layout_spec(cols, rows, chars).lines[0].len()
                ==> (#[trigger] layout_spec(cols, rows, chars).lines[0][j]).0 == layout_spec(
                cols,
                rows,
                chars,
            ).text_area.row_start + 3,
        forall|l: int, j: int|
            l == layout_spec(cols, rows, chars).lines.len() - 1 && 0 <= l && 0 <= j < layout_spec(
                cols,
                rows,
                chars,
            ).lines[l].len() ==> (#[trigger] layout_spec(cols, rows, chars).lines[l][j]).0 + 3 == layout_spec(
                cols,
                rows,
                chars,
            ).text_area.row_end - 1,
{
    let v = layout_spec(cols, rows, chars);
    let wrapped = wrap_text(chars, wrap_width(cols));
    let nlines = wrapped.lines.len() as int;
    let brows = banner_rows();
    let banner_height = brows.len() as int;
    let total_height = banner_height + BANNER_TO_CONTROLS_GAP + 1 + CONTROLS_TO_TEXT_GAP + nlines;
    let combined_start = PADDING + sat_sub(sat_sub(rows as int, 2 * PADDING), total_height) / 2;
    let controls_start = combined_start + banner_height + BANNER_TO_CONTROLS_GAP;
    let text_start = controls_start + 1 + CONTROLS_TO_TEXT_GAP;
    lemma_wrap_line_count(chars, wrap_width(cols));
    crate::banner::lemma_banner_len();
    lemma_split_on_bounds(crate::banner::BANNER@, '\n');
    assert(0 <= sat_sub(sat_sub(rows as int, 2 * PADDING), total_height) <= 65535);
    assert(text_start + nlines <= 65535);
    assert forall|l: int, j: int| 0 <= l < v.lines.len() && 0 <= j < v.lines[l].len() implies (
    #[trigger] v.lines[l][j]).0 == text_start + l by {
        assert(v.lines[l] == place_line(wrapped.lines[l], cols, text_start + l));
    }
}

/// How many characters have each state that the statistics are made of.
#[derive(Clone, Copy, PartialEq, Eq, Structural, Debug)]
pub struct CharCounts {
    pub correct: usize,
    pub errors: usize,
    pub total: usize,
}

/// The number of characters in `state`.
pub open spec fn count_state(chars: Seq<TypedChar>, state: CharState) -> nat
    decreases chars.len(),
{
    if chars.len() == 0 {
        0
    } else {
        count_state(chars.drop_last(), state) + (if chars.last().state == state {
            1nat
        } else {
            0nat
        })
    }
}

pub proof fn lemma_count_state_bound(chars: Seq<TypedChar>, state: CharState)
    ensures
        count_state(chars, state) <= chars.len(),
    decreases chars.len(),
{
    if chars.len() > 0 {
        lemma_count_state_bound(chars.drop_last(), state);
    }
}

/// Whether a character is in `state`, whatever character it is.
pub open spec fn in_state(state: CharState) -> spec_fn(TypedChar) -> bool {
    |c: TypedChar| c.state == state
}

/// The count of a state is the number of positions of the text whose character is in that
/// state.
pub proof fn lemma_count_state_is_filter(chars: Seq<TypedChar>, state: CharState)
    ensures
        count_state(chars, state) == chars.filter(in_state(state)).len(),
    decreases chars.len(),
{
    reveal(Seq::filter);
    if chars.len() > 0 {
        lemma_count_state_is_filter(chars.drop_last(), state);
    }
}

/// The counts depend on the states alone: two texts of one length whose characters have the
/// same states, position by position, have the same count of every state, whichever
/// characters they hold.
pub proof fn lemma_count_ignores_characters(a: Seq<TypedChar>, b: Seq<TypedChar>, state: CharState)
    requires
        a.len() == b.len(),
        forall|i: int| 0 <= i < a.len() ==> (#[trigger] a[i]).state == b[i].state,
    ensures
        count_state(a, state) == count_state(b, state),
    decreases a.len(),
{
    if a.len() > 0 {
        lemma_count_ignores_characters(a.drop_last(), b.drop_last(), state);
    }
}

/// Counts the correct and the incorrect characters of `chars`, and all of them.
pub fn count_chars(chars: &[TypedChar]) -> (counts: CharCounts)
    ensures
        counts.total == chars@.len(),
        counts.correct == count_state(chars@, CharState::Correct),
        counts.errors == count_state(chars@, CharState::Incorrect),
        counts.correct == chars@.filter(|c: TypedChar| c.state == CharState::Correct).len(),
        counts.errors == chars@.filter(|c: TypedChar| c.state == CharState::Incorrect).len(),
{
    proof {
        lemma_count_state_is_filter(chars@, CharState::Correct);
        lemma_count_state_is_filter(chars@, CharState::Incorrect);
        assert(in_state(CharState::Correct) =~= (|c: TypedChar| c.state == CharState::Correct));
        assert(in_state(CharState::Incorrect) =~= (|c: TypedChar| c.state == CharState::Incorrect));
    }
    let mut correct: usize = 0;
    let mut errors: usize = 0;
    let mut i: usize = 0;
    assert(chars@.take(0) =~= Seq::<TypedChar>::empty());
    while i < chars.len()
        invariant
            i <= chars@.len(),
            correct == count_state(chars@.take(i as int), CharState::Correct),
            errors == count_state(chars@.take(i as int), CharState::Incorrect),
        decreases chars@.len() - i,
    {
        assert(chars@.take(i + 1).drop_last() =~= chars@.take(i as int));
        proof {
            lemma_count_state_bound(chars@.take(i as int), CharState::Correct);
            lemma_count_state_bound(chars@.take(i as int), CharState::Incorrect);
        }
        if chars[i].state == CharState::Correct {
            correct += 1;
        } else if chars[i].state == CharState::Incorrect {
            errors += 1;
        }
        i += 1;
    }
    assert(chars@.take(chars@.len() as int) =~= chars@);
    CharCounts { correct, errors, total: chars.len() }
}


/// The position in the flattening of `s` of element `j` of sequence `l`.
pub open spec fn flat_pos<A>(s: Seq<Seq<A>>, l: int, j: int) -> int {
    s.take(l).flatten().len() + j
}

/// The first `l` sequences flattened are a prefix of the first `m` flattened.
pub proof fn lemma_flatten_prefix<A>(s: Seq<Seq<A>>, l: int, m: int)
    requires
        0 <= l <= m <= s.len(),
    ensures
        s.take(l).flatten().len() <= s.take(m).flatten().len(),
        forall|k: int|
            0 <= k < s.take(l).flatten().len() ==> #[trigger] s.take(m).flatten()[k] == s.take(l).flatten()[k],
    decreases m - l,
{
    if l < m {
        lemma_flatten_prefix(s, l, m - 1);
        lemma_take_flatten_step(s, m - 1);
    }
}

/// Element `j` of sequence `l` sits in the flattening right after the first `l` sequences.
pub proof fn lemma_flatten_index<A>(s: Seq<Seq<A>>, l: int, j: int)
    requires
        0 <= l < s.len(),
        0 <= j < s[l].len(),
    ensures
        s.take(l).flatten().len() + j < s.flatten().len(),
        s.flatten()[s.take(l).flatten().len() + j] == s[l][j],
{
    lemma_take_flatten_step(s, l);
    lemma_flatten_prefix(s, l + 1, s.len() as int);
    assert(s.take(s.len() as int) =~= s);
}

/// Every position of the flattening is some element `j` of some sequence `l`.
pub proof fn lemma_flatten_locate<A>(s: Seq<Seq<A>>, m: int, k: int)
    requires
        0 <= m <= s.len(),
        0 <= k < s.take(m).flatten().len(),
    ensures
        exists|l: int, j: int|
            0 <= l < m && 0 <= j < s[l].len() && #[trigger] flat_pos(s, l, j) == k,
    decreases m,
{
    if m == 0 {
        assert(s.take(0) =~= Seq::<Seq<A>>::empty());
    } else {
        lemma_take_flatten_step(s, m - 1);
        if k < s.take(m - 1).flatten().len() {
            lemma_flatten_locate(s, m - 1, k);
            let (l, j) = choose|l: int, j: int|
                0 <= l < m - 1 && 0 <= j < s[l].len() && #[trigger] flat_pos(s, l, j) == k;
            assert(0 <= l < m && 0 <= j < s[l].len() && flat_pos(s, l, j) == k);
        } else {
            let j = k - s.take(m - 1).flatten().len();
            assert(0 <= m - 1 < m && 0 <= j < s[m - 1].len() && flat_pos(s, m - 1, j) == k);
        }
    }
}

/// Earlier sequences come earlier in the flattening.
pub proof fn lemma_flatten_offsets_grow<A>(s: Seq<Seq<A>>, l1: int, l2: int)
    requires
        0 <= l1 < l2 <= s.len(),
    ensures
        s.take(l1).flatten().len() + s[l1].len() <= s.take(l2).flatten().len(),
{
    lemma_take_flatten_step(s, l1);
    lemma_flatten_prefix(s, l1 + 1, l2);
}

/// Sequences of sequences of the same lengths have flattenings of the same length, prefix
/// by prefix.
pub proof fn lemma_flatten_same_lengths<A, B>(a: Seq<Seq<A>>, b: Seq<Seq<B>>, l: int)
    requires
        a.len() == b.len(),
        0 <= l <= a.len(),
        forall|i: int| 0 <= i < a.len() ==> #[trigger] a[i].len() == b[i].len(),
    ensures
        a.take(l).flatten().len() == b.take(l).flatten().len(),
    decreases l,
{
    if l == 0 {
        assert(a.take(0) =~= Seq::<Seq<A>>::empty());
        assert(b.take(0) =~= Seq::<Seq<B>>::empty());
    } else {
        lemma_flatten_same_lengths(a, b, l - 1);
        lemma_take_flatten_step(a, l - 1);
        lemma_take_flatten_step(b, l - 1);
    }
}

/// The cursor of a layout sits on the first pending character of the text: where character
/// `k` is pending and none before it is, the cursor is at the cell that shows character `k`.
pub proof fn lemma_cursor_on_first_pending(cols: u16, rows: u16, chars: Seq<TypedChar>, k: int)
    requires
        0 <= k < chars.len(),
        chars[k].state == CharState::Pending,
        forall|i: int| 0 <= i < k ==> (#[trigger] chars[i]).state != CharState::Pending,
    ensures
        layout_spec(cols, rows, chars).lines.flatten().len() == chars.len(),
        layout_spec(cols, rows, chars).lines.flatten()[k].2 == chars[k],
        layout_spec(cols, rows, chars).cursor_row == layout_spec(cols, rows, chars).lines.flatten()[k].0,
        layout_spec(cols, rows, chars).cursor_col == layout_spec(cols, rows, chars).lines.flatten()[k].1,
{
    let lv = layout_spec(cols, rows, chars);
    let placed = lv.lines;
    let lines = wrap_text(chars, wrap_width(cols)).lines;
    lemma_wrap_keeps_text(chars, wrap_width(cols));
    assert(placed.len() == lines.len());
    assert forall|i: int| 0 <= i < placed.len() implies #[trigger] placed[i].len() == lines[i].len() by {}
    lemma_flatten_same_lengths(placed, lines, placed.len() as int);
    assert(placed.take(placed.len() as int) =~= placed);
    assert(lines.take(lines.len() as int) =~= lines);
    // Each cell shows the character at the same position of the text.
    assert forall|i: int| 0 <= i < placed.flatten().len() implies #[trigger] placed.flatten()[i].2 == chars[i] by {
        lemma_flatten_locate(placed, placed.len() as int, i);
        let (l, j) = choose|l: int, j: int|
            0 <= l < placed.len() && 0 <= j < placed[l].len() && #[trigger] flat_pos(placed, l, j) == i;
        lemma_flatten_index(placed, l, j);
        lemma_flatten_index(lines, l, j);
        lemma_flatten_same_lengths(placed, lines, l);
    }
    lemma_flatten_locate(placed, placed.len() as int, k);
    let (l, j) = choose|l: int, j: int|
        0 <= l < placed.len() && 0 <= j < placed[l].len() && #[trigger] flat_pos(placed, l, j) == k;
    lemma_flatten_index(placed, l, j);
    assert(first_pending_at(placed, l, j)) by {
        assert forall|l2: int, j2: int|
            0 <= l2 < placed.len() && 0 <= j2 < placed[l2].len() && reads_before(l2, j2, l, j) implies !is_pending(
            #[trigger] placed[l2][j2],
        ) by {
            lemma_flatten_index(placed, l2, j2);
            let k2 = placed.take(l2).flatten().len() + j2;
            if l2 < l {
                lemma_flatten_offsets_grow(placed, l2, l);
            }
            assert(k2 < k);
            assert(placed.flatten()[k2].2 == chars[k2]);
        }
    }
    let (l3, j3) = choose|l3: int, j3: int| first_pending_at(placed, l3, j3);
    lemma_first_pending_unique(placed, l, j, l3, j3);
}

} // verus!
