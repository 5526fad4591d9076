use wpm::app::{word_count, App, Event, Outcome, Timer};
use wpm::engine::CharCounts;
use wpm::screen::ScreenBuf;
use wpm::types::{CharState, Layout, TypedChar};

fn text_of(layout: &Layout) -> Vec<TypedChar> {
    layout.lines.iter().flat_map(|line| line.iter().map(|c| c.2)).collect()
}

fn key(ch: char) -> Event {
    Event::Char { ch, ctrl: false }
}

fn screen_of(layout: &Layout) -> ScreenBuf {
    let mut s = ScreenBuf::new(24, 80);
    s.apply_layout(layout);
    s
}

/// Draws the frame of `out` on `shown` and checks that it then shows `layout`.
fn check_redraw(shown: &mut ScreenBuf, out: &Outcome, layout: &Layout) {
    let frame = out.frame.as_ref().expect("a frame");
    for &(r, c, x) in &frame.changes {
        shown.set(r as usize, c as usize, x.ch, x.style);
    }
    assert!(screen_of(layout).diff(shown).is_empty());
    assert_eq!((frame.cursor_row, frame.cursor_col), (layout.cursor_row, layout.cursor_col));
}

#[test]
fn new_session_is_all_pending() {
    let app = App::new(5, 80, 24);
    let text = text_of(app.layout());
    let words: String = text.iter().map(|c| c.ch).collect();
    assert_eq!(words.split(' ').count(), 5);
    assert!(text.iter().all(|c| c.state == CharState::Pending));
    assert!(app.stats().is_none());
}

#[test]
fn typing_marks_correct_and_incorrect() {
    let mut app = App::new(3, 80, 24);
    let text = text_of(app.layout());
    let mut shown = screen_of(app.layout());
    let out = app.handle_event(key(text[0].ch));
    assert!(!out.quit);
    assert_eq!(out.timer, Timer::Start);
    check_redraw(&mut shown, &out, app.layout());
    let wrong = if text[1].ch == 'x' { 'y' } else { 'x' };
    let out = app.handle_event(key(wrong));
    assert_eq!(out.timer, Timer::Keep);
    check_redraw(&mut shown, &out, app.layout());
    let now = text_of(app.layout());
    assert_eq!(now[0].state, CharState::Correct);
    assert_eq!(now[1].state, CharState::Incorrect);
    assert!(now[2..].iter().all(|c| c.state == CharState::Pending));
    assert_eq!(app.stats(), Some(CharCounts { correct: 1, errors: 1, total: text.len() }));
}

#[test]
fn backspace_undoes_typing() {
    let mut app = App::new(3, 80, 24);
    let before = text_of(app.layout());
    let cursor = (app.layout().cursor_row, app.layout().cursor_col);
    let mut shown = screen_of(app.layout());
    let out = app.handle_event(key('#'));
    check_redraw(&mut shown, &out, app.layout());
    let out = app.handle_event(Event::Backspace);
    assert!(!out.quit);
    assert_eq!(out.timer, Timer::Keep);
    check_redraw(&mut shown, &out, app.layout());
    assert_eq!(text_of(app.layout()), before);
    assert_eq!((app.layout().cursor_row, app.layout().cursor_col), cursor);
    assert_eq!(app.stats(), Some(CharCounts { correct: 0, errors: 0, total: before.len() }));
}

#[test]
fn backspace_at_start_does_nothing() {
    let mut app = App::new(3, 80, 24);
    let out = app.handle_event(Event::Backspace);
    assert!(!out.quit);
    assert!(out.frame.is_none());
    assert_eq!(out.timer, Timer::Keep);
}

#[test]
fn escape_and_control_c_quit() {
    let mut app = App::new(3, 80, 24);
    let out = app.handle_event(Event::Esc);
    assert!(out.quit && out.frame.is_none());
    let out = app.handle_event(Event::Char { ch: 'c', ctrl: true });
    assert!(out.quit && out.frame.is_none());
    let out = app.handle_event(Event::Char { ch: 'x', ctrl: true });
    assert!(!out.quit && out.frame.is_none());
    let out = app.handle_event(Event::Other);
    assert!(!out.quit && out.frame.is_none());
    assert!(text_of(app.layout()).iter().all(|c| c.state == CharState::Pending));
}

#[test]
fn plain_c_is_typed() {
    let mut app = App::new(3, 80, 24);
    let out = app.handle_event(key('c'));
    assert!(!out.quit && out.frame.is_some());
    assert_ne!(text_of(app.layout())[0].state, CharState::Pending);
}

#[test]
fn typing_the_last_character_ends_the_test() {
    let mut app = App::new(2, 80, 24);
    let text = text_of(app.layout());
    let mut shown = screen_of(app.layout());
    for (i, c) in text.iter().enumerate() {
        let out = app.handle_event(key(c.ch));
        check_redraw(&mut shown, &out, app.layout());
        assert_eq!(out.quit, i + 1 == text.len());
    }
    assert_eq!(app.stats(), Some(CharCounts { correct: text.len(), errors: 0, total: text.len() }));
    let out = app.handle_event(key('a'));
    assert!(out.quit && out.frame.is_none());
}

#[test]
fn tab_restarts() {
    let mut app = App::new(4, 80, 24);
    let mut shown = screen_of(app.layout());
    let out = app.handle_event(key('q'));
    check_redraw(&mut shown, &out, app.layout());
    let out = app.handle_event(Event::Tab);
    assert!(!out.quit);
    assert_eq!(out.timer, Timer::Clear);
    check_redraw(&mut shown, &out, app.layout());
    let text = text_of(app.layout());
    let words: String = text.iter().map(|c| c.ch).collect();
    assert_eq!(words.split(' ').count(), 4);
    assert!(text.iter().all(|c| c.state == CharState::Pending));
    assert!(app.stats().is_none());
}

#[test]
fn word_count_defaults_and_caps() {
    assert_eq!(word_count(None), 25);
    assert_eq!(word_count(Some(7)), 7);
    assert_eq!(word_count(Some(0)), 0);
    assert_eq!(word_count(Some(100)), 100);
    assert_eq!(word_count(Some(250)), 100);
}
