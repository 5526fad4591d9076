use wpm::engine::layout;
use wpm::screen::{Cell, ScreenBuf};
use wpm::types::{CharState, Style, TypedChar};

fn cell(ch: char, style: Style) -> Cell {
    Cell { ch, style }
}

fn blank() -> Cell {
    cell(' ', Style::Pending)
}

#[test]
fn new_screen_is_blank() {
    let a = ScreenBuf::new(3, 4);
    assert_eq!((a.rows, a.cols), (3, 4));
    let b = ScreenBuf::new(3, 4);
    assert!(a.diff(&b).is_empty());
    let empty = ScreenBuf::new(0, 0);
    let all = a.diff(&empty);
    assert_eq!(all.len(), 12);
    assert!(all.iter().all(|c| c.2 == blank()));
}

#[test]
fn set_writes_one_cell() {
    let mut a = ScreenBuf::new(3, 4);
    a.set(1, 2, 'x', Style::Correct);
    let b = ScreenBuf::new(3, 4);
    assert_eq!(a.diff(&b), vec![(1, 2, cell('x', Style::Correct))]);
}

#[test]
fn set_outside_is_ignored() {
    let mut a = ScreenBuf::new(3, 4);
    a.set(3, 0, 'x', Style::Correct);
    a.set(0, 4, 'y', Style::Correct);
    let b = ScreenBuf::new(3, 4);
    assert!(a.diff(&b).is_empty());
}

#[test]
fn diff_lists_changed_cells_row_by_row() {
    let mut a = ScreenBuf::new(3, 4);
    let mut b = ScreenBuf::new(3, 4);
    a.set(2, 0, 'c', Style::Incorrect);
    a.set(0, 3, 'a', Style::Correct);
    a.set(1, 1, 'b', Style::Pending);
    b.set(1, 1, 'b', Style::Pending);
    b.set(2, 3, 'z', Style::Pending);
    assert_eq!(
        a.diff(&b),
        vec![
            (0, 3, cell('a', Style::Correct)),
            (2, 0, cell('c', Style::Incorrect)),
            (2, 3, blank()),
        ]
    );
}

#[test]
fn drawing_the_diff_gives_the_new_screen() {
    let mut new = ScreenBuf::new(4, 5);
    let mut old = ScreenBuf::new(4, 5);
    new.set(0, 0, 'n', Style::Correct);
    new.set(3, 4, 'm', Style::Incorrect);
    old.set(0, 0, 'o', Style::Correct);
    old.set(2, 2, 'p', Style::Pending);
    let changes = new.diff(&old);
    for &(r, c, x) in &changes {
        old.set(r as usize, c as usize, x.ch, x.style);
    }
    assert!(new.diff(&old).is_empty());
}

#[test]
fn diff_to_a_larger_screen() {
    let mut new = ScreenBuf::new(3, 3);
    let old = ScreenBuf::new(2, 2);
    new.set(0, 0, 'a', Style::Correct);
    let changes = new.diff(&old);
    assert_eq!(
        changes,
        vec![
            (0, 0, cell('a', Style::Correct)),
            (2, 0, blank()),
            (2, 1, blank()),
            (2, 2, blank()),
            (0, 2, blank()),
            (1, 2, blank()),
        ]
    );
    let smaller = old.diff(&new);
    assert_eq!(smaller, vec![(0, 0, blank())]);
}

#[test]
fn apply_layout_draws_the_text() {
    let chars: Vec<TypedChar> = vec![
        TypedChar { ch: 'h', state: CharState::Correct },
        TypedChar { ch: 'i', state: CharState::Pending },
    ];
    let l = layout(80, 24, &chars);
    let mut a = ScreenBuf::new(24, 80);
    a.apply_layout(&l);
    let b = ScreenBuf::new(24, 80);
    assert_eq!(
        a.diff(&b),
        vec![(18, 39, cell('h', Style::Correct)), (18, 40, cell('i', Style::Pending))]
    );
}

#[test]
fn apply_layout_skips_cells_off_screen() {
    let chars: Vec<TypedChar> = vec![TypedChar { ch: 'h', state: CharState::Correct }];
    let l = layout(80, 24, &chars);
    let mut a = ScreenBuf::new(10, 10);
    a.apply_layout(&l);
    assert!(a.diff(&ScreenBuf::new(10, 10)).is_empty());
}

#[test]
fn style_follows_state() {
    assert_eq!(Style::from(CharState::Pending), Style::Pending);
    assert_eq!(Style::from(CharState::Correct), Style::Correct);
    assert_eq!(Style::from(CharState::Incorrect), Style::Incorrect);
    assert_eq!(Style::from(CharState::Background), Style::Background);
    assert_eq!(Style::from(CharState::Border), Style::Border);
}
