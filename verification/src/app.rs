use vstd::prelude::*;

use crate::engine::{
    count_chars, count_state, layout_spec, lemma_cursor_on_first_pending, CharCounts, MAX_TEXT_CHARS,
};
use crate::generator::{generate, is_generated_text, lemma_generated_len};
use crate::screen::{apply_changes, blank_cell, diff_spec, filled, lemma_apply_diff, paint, Cell, ScreenBuf};
use crate::types::{CharState, Layout, LayoutView, TypedChar};

verus! {

broadcast use vstd::seq_lib::group_seq_properties;

/// The most words a test can have.
pub const MAX_WORDS: usize = 100;

/// The number of words of a test when none is asked for.
pub const DEFAULT_WORDS: usize = 25;

/// The number of words of a test: the number asked for, or `DEFAULT_WORDS` when none is,
/// at most `MAX_WORDS`.
pub fn word_count(requested: Option<usize>) -> (n: usize)
    ensures
        n == (match requested {
            Some(r) => if r < MAX_WORDS {
                r
            } else {
                MAX_WORDS
            },
            None => DEFAULT_WORDS,
        }),
        n <= MAX_WORDS,
{
    let wanted = match requested {
        Some(r) => r,
        None => DEFAULT_WORDS,
    };
    if wanted < MAX_WORDS {
        wanted
    } else {
        MAX_WORDS
    }
}

/// A key press as the session sees it.
#[derive(Clone, Copy, PartialEq, Eq, Structural, Debug)]
pub enum Event {
    /// A character key, and whether Control was held.
    Char { ch: char, ctrl: bool },
    Esc,
    Tab,
    Backspace,
    /// Any other input.
    Other,
}

/// What to do with the clock that times the test.
#[derive(Clone, Copy, PartialEq, Eq, Structural, Debug)]
pub enum Timer {
    Keep,
    /// Start it now: the first character was typed.
    Start,
    /// Stop and forget it: a new test began.
    Clear,
}

/// What to draw: the cells that changed, and where the cursor goes.
pub struct Frame {
    pub changes: Vec<(u16, u16, Cell)>,
    pub cursor_row: u16,
    pub cursor_col: u16,
}

/// The answer to an event: whether the session ends, what to do with the clock, and what to
/// draw, if anything.
pub struct Outcome {
    pub quit: bool,
    pub timer: Timer,
    pub frame: Option<Frame>,
}

/// The mathematical value of a session.
#[verifier::ext_equal]
pub struct AppView {
    /// The text, each character with its state.
    pub chars: Seq<TypedChar>,
    pub num_words: nat,
    /// The position of the next character to type.
    pub cursor: nat,
    pub term_rows: u16,
    pub term_cols: u16,
    /// A character was typed since the text was generated.
    pub started: bool,
    pub layout: LayoutView,
    /// What the screen shows.
    pub screen: Seq<Seq<Cell>>,
}

/// The character `c`, pending.
pub open spec fn pending(c: char) -> TypedChar {
    TypedChar { ch: c, state: CharState::Pending }
}

/// The text with every character pending.
pub open spec fn pending_chars(text: Seq<char>) -> Seq<TypedChar> {
    Seq::new(text.len(), |i: int| pending(text[i]))
}

/// The characters before `cursor` are typed, correctly or not, and the others are pending.
pub open spec fn typing_progress(chars: Seq<TypedChar>, cursor: int) -> bool {
    &&& forall|i: int|
        0 <= i < cursor ==> (#[trigger] chars[i]).state == CharState::Correct || chars[i].state
            == CharState::Incorrect
    &&& forall|i: int| cursor <= i < chars.len() ==> (#[trigger] chars[i]).state == CharState::Pending
}

/// `chars` after `input` was typed at `cursor`: that character is correct when `input` is
/// that character, incorrect otherwise.
pub open spec fn after_input(chars: Seq<TypedChar>, cursor: int, input: char) -> Seq<TypedChar> {
    chars.update(
        cursor,
        TypedChar {
            ch: chars[cursor].ch,
            state: if input == chars[cursor].ch {
                CharState::Correct
            } else {
                CharState::Incorrect
            },
        },
    )
}

/// `chars` after the character before `cursor` was erased: it is pending again.
pub open spec fn after_backspace(chars: Seq<TypedChar>, cursor: int) -> Seq<TypedChar> {
    chars.update(cursor - 1, TypedChar { ch: chars[cursor - 1].ch, state: CharState::Pending })
}

/// A blank screen of the terminal's size with the text of `l` drawn on it.
pub open spec fn drawn_screen(rows: u16, cols: u16, l: LayoutView) -> Seq<Seq<Cell>> {
    paint(filled(rows as int, cols as int, blank_cell()), l.lines.flatten())
}

/// What a session holds is in order: the text fits the layout, typing has got to `cursor`,
/// the layout is that of the text and the screen shows it.
pub open spec fn consistent(v: AppView) -> bool {
    &&& v.chars.len() <= MAX_TEXT_CHARS
    &&& v.num_words <= MAX_WORDS
    &&& v.cursor <= v.chars.len()
    &&& typing_progress(v.chars, v.cursor as int)
    &&& (!v.started ==> v.cursor == 0)
    &&& v.layout == layout_spec(v.term_cols, v.term_rows, v.chars)
    &&& v.screen == drawn_screen(v.term_rows, v.term_cols, v.layout)
}

/// `frame` turns the screen of `before` into that of `after`: its changes are those that
/// `diff` finds between the two, drawing them on the old screen gives the new one, and the
/// cursor goes where the new layout puts it.
pub open spec fn redraws(frame: Frame, before: AppView, after: AppView) -> bool {
    &&& frame.changes@ == diff_spec(
        after.screen,
        after.term_rows as int,
        after.term_cols as int,
        before.screen,
        before.term_rows as int,
        before.term_cols as int,
    )
    &&& apply_changes(before.screen, frame.changes@) == after.screen
    &&& frame.cursor_row == after.layout.cursor_row
    &&& frame.cursor_col == after.layout.cursor_col
}

/// What an event does to a session.
pub enum Effect {
    /// The session ends, unchanged.
    Quit,
    /// The event is ignored.
    Nothing,
    /// A new text is generated.
    Restart,
    /// The last typed character is erased.
    Erase,
    /// The character is typed at the cursor.
    Type(char),
}

/// Control-C and Esc end the session, and so does a character typed after the end of the
/// text; Tab restarts; Backspace erases, unless nothing is typed; a character without Control
/// is typed; everything else is ignored.
pub open spec fn effect(v: AppView, event: Event) -> Effect {
    match event {
        Event::Char { ch, ctrl } => {
            if ctrl {
                if ch == 'c' {
                    Effect::Quit
                } else {
                    Effect::Nothing
                }
            } else if v.cursor >= v.chars.len() {
                Effect::Quit
            } else {
                Effect::Type(ch)
            }
        },
        Event::Esc => Effect::Quit,
        Event::Tab => Effect::Restart,
        Event::Backspace => {
            if v.cursor == 0 {
                Effect::Nothing
            } else {
                Effect::Erase
            }
        },
        Event::Other => Effect::Nothing,
    }
}

/// A typing test in progress.
pub struct App {
    chars: Vec<TypedChar>,
    num_words: usize,
    layout: Layout,
    prev_buf: ScreenBuf,
    cursor_index: usize,
    term_rows: u16,
    term_cols: u16,
    started: bool,
}

impl View for App {
    type V = AppView;

    closed spec fn view(&self) -> AppView {
        AppView {
            chars: self.chars@,
            num_words: self.num_words as nat,
            cursor: self.cursor_index as nat,
            term_rows: self.term_rows,
            term_cols: self.term_cols,
            started: self.started,
            layout: self.layout@,
            screen: self.prev_buf.grid(),
        }
    }
}

/// The characters of `text`, all pending.
fn pending_text(text: &String) -> (chars: Vec<TypedChar>)
    ensures
        chars@ == pending_chars(text@),
{
    let s = text.as_str();
    let n = s.unicode_len();
    let mut chars: Vec<TypedChar> = Vec::new();
    let mut i: usize = 0;
    assert(chars@ =~= pending_chars(text@.take(0)));
    while i < n
        invariant
            n == text@.len(),
            s@ == text@,
            i <= n,
            chars@ == pending_chars(text@.take(i as int)),
        decreases n - i,
    {
        let ch = s.get_char(i);
        assert(ch == text@[i as int]);
        let ghost before = chars@;
        chars.push(TypedChar { ch, state: CharState::Pending });
        i += 1;
        assert forall|k: int| 0 <= k < i implies #[trigger] chars@[k] == pending_chars(text@.take(i as int))[k] by {
            if k < i - 1 {
                assert(chars@[k] == before[k]);
            }
        }
        assert(chars@ =~= pending_chars(text@.take(i as int)));
    }
    assert(text@.take(n as int) =~= text@);
    chars
}

impl App {
    /// The session's fields agree with its view, and its screen has the terminal's size.
    pub closed spec fn inv(&self) -> bool {
        &&& consistent(self@)
        &&& self.prev_buf.wf()
        &&& self.prev_buf.height() == self.term_rows
        &&& self.prev_buf.width() == self.term_cols
    }

    /// Lays out the text, draws it on a blank screen and finds the changes from the screen
    /// shown before.
    fn refresh(&mut self) -> (frame: Frame)
        requires
            old(self).chars@.len() <= MAX_TEXT_CHARS,
            old(self).prev_buf.wf(),
            old(self).prev_buf.height() == old(self).term_rows,
            old(self).prev_buf.width() == old(self).term_cols,
        ensures
            final(self).chars == old(self).chars,
            final(self).num_words == old(self).num_words,
            final(self).cursor_index == old(self).cursor_index,
            final(self).term_rows == old(self).term_rows,
            final(self).term_cols == old(self).term_cols,
            final(self).started == old(self).started,
            final(self).layout@ == layout_spec(final(self).term_cols, final(self).term_rows, final(self).chars@),
            final(self).prev_buf.wf(),
            final(self).prev_buf.height() == final(self).term_rows,
            final(self).prev_buf.width() == final(self).term_cols,
            final(self).prev_buf.grid() == drawn_screen(final(self).term_rows, final(self).term_cols, final(self).layout@),
            frame.changes@ == diff_spec(
                final(self).prev_buf.grid(),
                final(self).term_rows as int,
                final(self).term_cols as int,
                old(self).prev_buf.grid(),
                old(self).term_rows as int,
                old(self).term_cols as int,
            ),
            apply_changes(old(self).prev_buf.grid(), frame.changes@) == final(self).prev_buf.grid(),
            frame.cursor_row == final(self).layout.cursor_row,
            frame.cursor_col == final(self).layout.cursor_col,
    {
        self.layout = crate::engine::layout(self.term_cols, self.term_rows, self.chars.as_slice());
        let mut desired = ScreenBuf::new(self.term_rows as usize, self.term_cols as usize);
        desired.apply_layout(&self.layout);
        let changes = desired.diff(&self.prev_buf);
        proof {
            lemma_apply_diff(desired.grid(), self.prev_buf.grid(), self.term_rows as int, self.term_cols as int);
        }
        let frame = Frame { changes, cursor_row: self.layout.cursor_row, cursor_col: self.layout.cursor_col };
        self.prev_buf = desired;
        frame
    }

    /// A session with a new text of `num_words` words on a terminal of `term_cols` columns
    /// and `term_rows` rows, nothing typed yet.
    pub fn new(num_words: usize, term_cols: u16, term_rows: u16) -> (app: App)
        requires
            num_words <= MAX_WORDS,
        ensures
            app.inv(),
            consistent(app@),
            app@.num_words == num_words,
            app@.term_cols == term_cols,
            app@.term_rows == term_rows,
            app@.cursor == 0,
            !app@.started,
            exists|text: Seq<char>| is_generated_text(text, num_words as nat) && app@.chars == pending_chars(text),
    {
        let words = generate(num_words);
        proof {
            lemma_generated_len(words@, num_words as nat);
        }
        let chars = pending_text(&words);
        let layout = crate::engine::layout(term_cols, term_rows, chars.as_slice());
        let mut prev_buf = ScreenBuf::new(term_rows as usize, term_cols as usize);
        prev_buf.apply_layout(&layout);
        let app = App {
            chars,
            num_words,
            layout,
            prev_buf,
            cursor_index: 0,
            term_rows,
            term_cols,
            started: false,
        };
        assert(app@.chars == pending_chars(words@));
        app
    }

    /// The current layout, for drawing the whole screen.
    pub fn layout(&self) -> (l: &Layout)
        ensures
            l@ == self@.layout,
    {
        &self.layout
    }

    /// Starts over with a new text of as many words, nothing typed.
    fn reset(&mut self) -> (frame: Frame)
        requires
            old(self).inv(),
        ensures
            final(self).inv(),
            final(self)@.num_words == old(self)@.num_words,
            final(self)@.term_rows == old(self)@.term_rows,
            final(self)@.term_cols == old(self)@.term_cols,
            final(self)@.cursor == 0,
            !final(self)@.started,
            exists|text: Seq<char>|
                is_generated_text(text, old(self)@.num_words) && final(self)@.chars == pending_chars(text),
            redraws(frame, old(self)@, final(self)@),
    {
        let words = generate(self.num_words);
        proof {
            lemma_generated_len(words@, self.num_words as nat);
        }
        self.chars = pending_text(&words);
        self.cursor_index = 0;
        self.started = false;
        let frame = self.refresh();
        assert(self@.chars == pending_chars(words@));
        frame
    }

    /// Types `ch` at the cursor, if the text is not all typed; the session ends when it is.
    fn handle_char_input(&mut self, ch: char) -> (out: Outcome)
        requires
            old(self).inv(),
        ensures
            final(self).inv(),
            final(self)@.num_words == old(self)@.num_words,
            final(self)@.term_rows == old(self)@.term_rows,
            final(self)@.term_cols == old(self)@.term_cols,
            old(self)@.cursor >= old(self)@.chars.len() ==> out.quit && out.timer == Timer::Keep
                && out.frame is None && final(self)@ == old(self)@,
            old(self)@.cursor < old(self)@.chars.len() ==> {
                &&& out.quit == (old(self)@.cursor + 1 >= old(self)@.chars.len())
                &&& out.timer == (if old(self)@.started {
                    Timer::Keep
                } else {
                    Timer::Start
                })
                &&& final(self)@.started
                &&& final(self)@.chars == after_input(old(self)@.chars, old(self)@.cursor as int, ch)
                &&& final(self)@.chars.len() == old(self)@.chars.len()
                &&& final(self)@.chars[old(self)@.cursor as int].ch == old(self)@.chars[old(self)@.cursor as int].ch
                &&& final(self)@.chars[old(self)@.cursor as int].state == (if ch == old(self)@.chars[old(self)@.cursor as int].ch {
                    CharState::Correct
                } else {
                    CharState::Incorrect
                })
                &&& forall|i: int|
                    0 <= i < old(self)@.chars.len() && i != old(self)@.cursor ==> #[trigger] final(self)@.chars[i]
                        == old(self)@.chars[i]
                &&& final(self)@.cursor == old(self)@.cursor + 1
                &&& out.frame matches Some(f) && redraws(f, old(self)@, final(self)@)
            },
    {
        if self.cursor_index >= self.chars.len() {
            return Outcome { quit: true, timer: Timer::Keep, frame: None };
        }
        let timer = if !self.started {
            self.started = true;
            Timer::Start
        } else {
            Timer::Keep
        };
        let expected = self.chars[self.cursor_index].ch;
        let state = if ch == expected {
            CharState::Correct
        } else {
            CharState::Incorrect
        };
        self.chars.set(self.cursor_index, TypedChar { ch: expected, state });
        self.cursor_index += 1;
        let frame = self.refresh();
        Outcome { quit: self.cursor_index >= self.chars.len(), timer, frame: Some(frame) }
    }

    /// Erases the last typed character, if there is one.
    fn handle_backspace(&mut self) -> (out: Outcome)
        requires
            old(self).inv(),
        ensures
            final(self).inv(),
            final(self)@.num_words == old(self)@.num_words,
            final(self)@.term_rows == old(self)@.term_rows,
            final(self)@.term_cols == old(self)@.term_cols,
            !out.quit,
            out.timer == Timer::Keep,
            old(self)@.cursor == 0 ==> out.frame is None && final(self)@ == old(self)@,
            old(self)@.cursor > 0 ==> {
                &&& final(self)@.chars == after_backspace(old(self)@.chars, old(self)@.cursor as int)
                &&& final(self)@.chars.len() == old(self)@.chars.len()
                &&& final(self)@.chars[old(self)@.cursor - 1] == (TypedChar {
                    ch: old(self)@.chars[old(self)@.cursor - 1].ch,
                    state: CharState::Pending,
                })
                &&& forall|i: int|
                    0 <= i < old(self)@.chars.len() && i != old(self)@.cursor - 1 ==> #[trigger] final(self)@.chars[i]
                        == old(self)@.chars[i]
                &&& final(self)@.cursor == old(self)@.cursor - 1
                &&& final(self)@.started == old(self)@.started
                &&& out.frame matches Some(f) && redraws(f, old(self)@, final(self)@)
            },
    {
        if self.cursor_index == 0 {
            return Outcome { quit: false, timer: Timer::Keep, frame: None };
        }
        self.cursor_index -= 1;
        let ch = self.chars[self.cursor_index].ch;
        self.chars.set(self.cursor_index, TypedChar { ch, state: CharState::Pending });
        let frame = self.refresh();
        Outcome { quit: false, timer: Timer::Keep, frame: Some(frame) }
    }

    /// Answers a key press: see [`effect`] for what each one does.
    pub fn handle_event(&mut self, event: Event) -> (out: Outcome)
        requires
            old(self).inv(),
        ensures
            final(self).inv(),
            consistent(final(self)@),
            final(self)@.num_words == old(self)@.num_words,
            final(self)@.term_rows == old(self)@.term_rows,
            final(self)@.term_cols == old(self)@.term_cols,
            match effect(old(self)@, event) {
                Effect::Quit => out.quit && out.timer == Timer::Keep && out.frame is None
                    && final(self)@ == old(self)@,
                Effect::Nothing => !out.quit && out.timer == Timer::Keep && out.frame is None
                    && final(self)@ == old(self)@,
                Effect::Restart => {
                    &&& !out.quit
                    &&& out.timer == Timer::Clear
                    &&& final(self)@.cursor == 0
                    &&& !final(self)@.started
                    &&& exists|text: Seq<char>|
                        is_generated_text(text, old(self)@.num_words) && final(self)@.chars
                            == pending_chars(text)
                    &&& out.frame matches Some(f) && redraws(f, old(self)@, final(self)@)
                },
                Effect::Erase => {
                    &&& !out.quit
                    &&& out.timer == Timer::Keep
                    &&& final(self)@.chars == after_backspace(old(self)@.chars, old(self)@.cursor as int)
                    &&& final(self)@.chars.len() == old(self)@.chars.len()
                    &&& final(self)@.chars[old(self)@.cursor - 1] == (TypedChar {
                        ch: old(self)@.chars[old(self)@.cursor - 1].ch,
                        state: CharState::Pending,
                    })
                    &&& forall|i: int|
                        0 <= i < old(self)@.chars.len() && i != old(self)@.cursor - 1 ==> #[trigger] final(self)@.chars[i]
                            == old(self)@.chars[i]
                    &&& final(self)@.cursor == old(self)@.cursor - 1
                    &&& final(self)@.started == old(self)@.started
                    &&& out.frame matches Some(f) && redraws(f, old(self)@, final(self)@)
                },
                Effect::Type(ch) => {
                    &&& out.quit == (old(self)@.cursor + 1 >= old(self)@.chars.len())
                    &&& out.timer == (if old(self)@.started {
                        Timer::Keep
                    } else {
                        Timer::Start
                    })
                    &&& final(self)@.started
                    &&& final(self)@.chars == after_input(old(self)@.chars, old(self)@.cursor as int, ch)
                    &&& final(self)@.chars.len() == old(self)@.chars.len()
                    &&& final(self)@.chars[old(self)@.cursor as int].ch == old(self)@.chars[old(self)@.cursor as int].ch
                    &&& final(self)@.chars[old(self)@.cursor as int].state == (if ch == old(self)@.chars[old(self)@.cursor as int].ch {
                        CharState::Correct
                    } else {
                        CharState::Incorrect
                    })
                    &&& forall|i: int|
                        0 <= i < old(self)@.chars.len() && i != old(self)@.cursor ==> #[trigger] final(self)@.chars[i] == old(self)@.chars[i]
                    &&& final(self)@.cursor == old(self)@.cursor + 1
                    &&& out.frame matches Some(f) && redraws(f, old(self)@, final(self)@)
                },
            },
    {
        match event {
            Event::Char { ch, ctrl } => {
                if ctrl {
                    Outcome { quit: ch == 'c', timer: Timer::Keep, frame: None }
                } else {
                    self.handle_char_input(ch)
                }
            },
            Event::Esc => Outcome { quit: true, timer: Timer::Keep, frame: None },
            Event::Tab => {
                let frame = self.reset();
                Outcome { quit: false, timer: Timer::Clear, frame: Some(frame) }
            },
            Event::Backspace => self.handle_backspace(),
            Event::Other => Outcome { quit: false, timer: Timer::Keep, frame: None },
        }
    }

    /// The counts of correct and incorrect characters, once typing has started.
    pub fn stats(&self) -> (counts: Option<CharCounts>)
        ensures
            counts is Some <==> self@.started,
            counts matches Some(c) ==> {
                &&& c.total == self@.chars.len()
                &&& c.correct == count_state(self@.chars, CharState::Correct)
                &&& c.errors == count_state(self@.chars, CharState::Incorrect)
                &&& c.correct == self@.chars.filter(|t: TypedChar| t.state == CharState::Correct).len()
                &&& c.errors == self@.chars.filter(|t: TypedChar| t.state == CharState::Incorrect).len()
            },
    {
        if self.started {
            Some(count_chars(self.chars.as_slice()))
        } else {
            None
        }
    }
}


/// The keys, in every session: Esc and Control-C end it; Tab starts a new text; Backspace
/// erases exactly when something is typed; another key with Control, or any other input, is
/// ignored; a character without Control is typed while some of the text is left, and ends
/// the session once all of it is typed.
pub proof fn lemma_key_rules(v: AppView, ch: char)
    ensures
        effect(v, Event::Esc) == Effect::Quit,
        effect(v, (Event::Char { ch: 'c', ctrl: true })) == Effect::Quit,
        ch != 'c' ==> effect(v, (Event::Char { ch: ch, ctrl: true })) == Effect::Nothing,
        effect(v, Event::Tab) == Effect::Restart,
        effect(v, Event::Other) == Effect::Nothing,
        v.cursor > 0 ==> effect(v, Event::Backspace) == Effect::Erase,
        v.cursor == 0 ==> effect(v, Event::Backspace) == Effect::Nothing,
        v.cursor < v.chars.len() ==> effect(v, (Event::Char { ch: ch, ctrl: false })) == Effect::Type(ch),
        v.cursor >= v.chars.len() ==> effect(v, (Event::Char { ch: ch, ctrl: false })) == Effect::Quit,
{
}

/// Typing marks the character at the cursor and nothing else: it becomes correct exactly
/// when the key typed is that character (upper and lower case differ), incorrect otherwise;
/// it stays the same character, and every other position of the text is unchanged.
pub proof fn lemma_typed_char_marked(chars: Seq<TypedChar>, cursor: int, input: char)
    requires
        0 <= cursor < chars.len(),
    ensures
        after_input(chars, cursor, input).len() == chars.len(),
        after_input(chars, cursor, input)[cursor].ch == chars[cursor].ch,
        (after_input(chars, cursor, input)[cursor].state == CharState::Correct) <==> (input == chars[cursor].ch),
        (after_input(chars, cursor, input)[cursor].state == CharState::Incorrect) <==> (input != chars[cursor].ch),
        forall|i: int| 0 <= i < chars.len() && i != cursor ==> #[trigger] after_input(chars, cursor, input)[i] == chars[i],
{
}

/// Erasing right after typing undoes the typing: the character typed at `cursor` is pending
/// again and everything else is as it was.
pub proof fn lemma_backspace_undoes_input(chars: Seq<TypedChar>, cursor: int, input: char)
    requires
        0 <= cursor < chars.len(),
        typing_progress(chars, cursor),
    ensures
        after_backspace(after_input(chars, cursor, input), cursor + 1) == chars,
{
    assert(after_backspace(after_input(chars, cursor, input), cursor + 1) =~= chars);
}

/// Typing keeps the progress in order: after a character is typed at the cursor, the
/// characters before the next position are typed and the rest pending; after an erase, the
/// same holds one position back.
pub proof fn lemma_progress_steps(chars: Seq<TypedChar>, cursor: int, input: char)
    requires
        0 <= cursor <= chars.len(),
        typing_progress(chars, cursor),
    ensures
        cursor < chars.len() ==> typing_progress(after_input(chars, cursor, input), cursor + 1),
        cursor > 0 ==> typing_progress(after_backspace(chars, cursor), cursor - 1),
{
}

/// In a session in order, the correct and the incorrect characters together are the ones
/// typed so far.
pub proof fn lemma_counts_match_cursor(chars: Seq<TypedChar>, cursor: int)
    requires
        0 <= cursor <= chars.len(),
        typing_progress(chars, cursor),
    ensures
        count_state(chars, CharState::Correct) + count_state(chars, CharState::Incorrect) == cursor,
    decreases chars.len(),
{
    if chars.len() > 0 {
        let rest = chars.drop_last();
        let c = if cursor == chars.len() {
            cursor - 1
        } else {
            cursor
        };
        assert(typing_progress(rest, c)) by {
            assert forall|i: int| 0 <= i < rest.len() implies #[trigger] rest[i] == chars[i] by {}
        }
        lemma_counts_match_cursor(rest, c);
    }
}

/// Two sessions in order on the same terminal with the same text, typed with the same
/// states, show the same layout and the same screen.
pub proof fn lemma_same_text_same_screen(a: AppView, b: AppView)
    requires
        consistent(a),
        consistent(b),
        a.chars == b.chars,
        a.term_rows == b.term_rows,
        a.term_cols == b.term_cols,
    ensures
        a.layout == b.layout,
        a.screen == b.screen,
{
}

/// In a session in order, the cursor on screen is on the next character to type: the cell of
/// the layout that shows character `cursor` of the text.
pub proof fn lemma_cursor_at_next_char(v: AppView)
    requires
        consistent(v),
        v.cursor < v.chars.len(),
    ensures
        v.layout.lines.flatten().len() == v.chars.len(),
        v.layout.lines.flatten()[v.cursor as int].2 == v.chars[v.cursor as int],
        v.layout.cursor_row == v.layout.lines.flatten()[v.cursor as int].0,
        v.layout.cursor_col == v.layout.lines.flatten()[v.cursor as int].1,
{
    lemma_cursor_on_first_pending(v.term_cols, v.term_rows, v.chars, v.cursor as int);
}

} // verus!
