use wpm::engine::{count_chars, layout, CharCounts};
use wpm::types::{CharState, Layout, TextArea, TypedChar};

fn typed(text: &str, state: CharState) -> Vec<TypedChar> {
    text.chars().map(|ch| TypedChar { ch, state }).collect()
}

fn line_text(layout: &Layout, i: usize) -> String {
    layout.lines[i].iter().map(|&(_, _, tc)| tc.ch).collect()
}

const SAMPLE: &str = "the quick brown fox jumps over the lazy dog and then some more words follow here";

#[test]
fn layout_wraps_one_word_late() {
    let chars = typed(SAMPLE, CharState::Pending);
    let l = layout(80, 24, &chars);
    assert_eq!(l.lines.len(), 2);
    assert_eq!(line_text(&l, 0), "the quick brown fox jumps over the lazy dog and then");
    assert_eq!(line_text(&l, 1), " some more words follow here");
    assert_eq!((l.lines[0][0].0, l.lines[0][0].1), (18, 14));
    assert_eq!((l.lines[1][0].0, l.lines[1][0].1), (19, 26));
    assert_eq!(
        l.text_area,
        TextArea { row_start: 15, row_end: 23, col_start: 7, col_end: 80 }
    );
    assert_eq!((l.cursor_row, l.cursor_col), (18, 14));
    assert_eq!(l.border_lines.len(), 158);
}

#[test]
fn layout_places_consecutive_columns() {
    let chars = typed(SAMPLE, CharState::Pending);
    let l = layout(80, 24, &chars);
    for line in &l.lines {
        for (j, cell) in line.iter().enumerate() {
            assert_eq!(cell.0, line[0].0);
            assert_eq!(cell.1, line[0].1 + j as u16);
        }
    }
}

#[test]
fn layout_keeps_the_text() {
    let mut chars = typed(SAMPLE, CharState::Pending);
    chars[3].state = CharState::Correct;
    chars[4].state = CharState::Incorrect;
    let l = layout(80, 24, &chars);
    let shown: Vec<TypedChar> = l.lines.iter().flat_map(|line| line.iter().map(|c| c.2)).collect();
    assert_eq!(shown, chars);
}

#[test]
fn layout_cursor_on_first_pending() {
    let mut chars = typed(SAMPLE, CharState::Pending);
    for c in chars.iter_mut().take(5) {
        c.state = CharState::Correct;
    }
    let l = layout(80, 24, &chars);
    assert_eq!((l.cursor_row, l.cursor_col), (18, 19));
    assert_eq!(l.lines[0][5].2.ch, 'u');
}

#[test]
fn layout_cursor_on_first_char_when_all_typed() {
    let chars = typed(SAMPLE, CharState::Incorrect);
    let l = layout(80, 24, &chars);
    assert_eq!((l.cursor_row, l.cursor_col), (18, 14));
}

#[test]
fn layout_of_empty_text() {
    let l = layout(80, 24, &[]);
    assert!(l.lines.is_empty());
    assert_eq!(
        l.text_area,
        TextArea { row_start: 15, row_end: 22, col_start: 27, col_end: 53 }
    );
    assert_eq!((l.cursor_row, l.cursor_col), (18, 8));
    assert_eq!(l.border_lines.len(), 62);
}

#[test]
fn layout_on_a_tiny_terminal() {
    let chars = typed("ab cd ef", CharState::Pending);
    let l = layout(10, 5, &chars);
    assert_eq!(l.lines.len(), 2);
    assert_eq!(line_text(&l, 0), "ab cd");
    assert_eq!(line_text(&l, 1), " ef");
    assert_eq!(
        l.text_area,
        TextArea { row_start: 15, row_end: 23, col_start: 7, col_end: 35 }
    );
    assert_eq!((l.cursor_row, l.cursor_col), (18, 8));
}

#[test]
fn layout_border_order() {
    let chars = typed("hi", CharState::Pending);
    let l = layout(80, 24, &chars);
    assert_eq!(
        l.text_area,
        TextArea { row_start: 15, row_end: 22, col_start: 26, col_end: 54 }
    );
    let b = &l.border_lines;
    assert_eq!(b.len(), 66);
    assert_eq!((b[0].0, b[0].1, b[0].2.ch), (15, 26, '+'));
    assert_eq!((b[1].0, b[1].1, b[1].2.ch), (21, 26, '+'));
    assert_eq!((b[2].0, b[2].1, b[2].2.ch), (15, 27, '─'));
    assert_eq!((b[3].0, b[3].1, b[3].2.ch), (21, 27, '─'));
    assert_eq!((b[64].0, b[64].1, b[64].2.ch), (20, 26, '│'));
    assert_eq!((b[65].0, b[65].1, b[65].2.ch), (20, 53, '│'));
    assert!(b.iter().all(|c| c.2.state == CharState::Border));
}

#[test]
fn layout_banner_and_controls_centred() {
    let chars = typed("a b", CharState::Pending);
    let l = layout(200, 60, &chars);
    assert_eq!(l.banner_lines.len(), 4);
    assert_eq!(l.banner_lines[0][0], (24, 89, '_'));
    assert!(l.banner_lines.iter().all(|row| row.iter().all(|c| c.2 != ' ')));
    assert_eq!(l.controls_lines.len(), 4);
    let controls: String = l.controls_lines.iter().flat_map(|p| p.iter().map(|c| c.2)).collect();
    assert_eq!(controls, "Tab: restart Ctrl+C/Esc: quit ");
    assert_eq!(l.controls_lines[1][0], (30, 89, ' '));
    assert_eq!((l.lines[0][0].0, l.lines[0][0].1), (34, 98));
    assert_eq!(
        l.text_area,
        TextArea { row_start: 31, row_end: 38, col_start: 86, col_end: 114 }
    );
}

#[test]
fn layout_counts_wide_characters_twice_for_centring() {
    let narrow = layout(80, 24, &typed("ab", CharState::Pending));
    let wide = layout(80, 24, &typed("a\u{1F600}", CharState::Pending));
    assert_eq!(narrow.lines[0][0].1, 39);
    assert_eq!(wide.lines[0][0].1, 38);
}

#[test]
fn count_chars_counts_states() {
    let mut chars = typed("abcdef", CharState::Pending);
    chars[0].state = CharState::Correct;
    chars[1].state = CharState::Incorrect;
    chars[2].state = CharState::Correct;
    assert_eq!(count_chars(&chars), CharCounts { correct: 2, errors: 1, total: 6 });
    assert_eq!(count_chars(&[]), CharCounts { correct: 0, errors: 0, total: 0 });
}
