use vstd::prelude::*;

verus! {

/// The state of one character of the text, or the role of a decorative cell.
#[derive(Clone, Copy, PartialEq, Eq, Structural, Debug)]
pub enum CharState {
    Pending,
    Correct,
    Incorrect,
    Background,
    Border,
}

/// A character together with its state.
#[derive(Clone, Copy, PartialEq, Eq, Structural, Debug)]
pub struct TypedChar {
    pub ch: char,
    pub state: CharState,
}

/// The style in which a screen cell is drawn.
#[derive(Clone, Copy, PartialEq, Eq, Structural, Debug)]
pub enum Style {
    Pending,
    Correct,
    Incorrect,
    Background,
    Border,
}

impl From<CharState> for Style {
    fn from(state: CharState) -> (style: Style) {
        match state {
            CharState::Pending => Style::Pending,
            CharState::Correct => Style::Correct,
            CharState::Incorrect => Style::Incorrect,
            CharState::Background => Style::Background,
            CharState::Border => Style::Border,
        }
    }
}

impl vstd::std_specs::convert::FromSpecImpl<CharState> for Style {
    open spec fn obeys_from_spec() -> bool {
        true
    }

    open spec fn from_spec(state: CharState) -> Style {
        style_of(state)
    }
}

/// The style that a character in the given state is drawn in: the variant of the same name.
pub open spec fn style_of(state: CharState) -> Style {
    match state {
        CharState::Pending => Style::Pending,
        CharState::Correct => Style::Correct,
        CharState::Incorrect => Style::Incorrect,
        CharState::Background => Style::Background,
        CharState::Border => Style::Border,
    }
}

/// The rectangle around the text, as half-open row and column ranges.
#[derive(Clone, Copy, PartialEq, Eq, Structural, Debug)]
pub struct TextArea {
    pub row_start: u16,
    pub row_end: u16,
    pub col_start: u16,
    pub col_end: u16,
}

/// Everything that is drawn on screen, each character at its (row, column).
pub struct Layout {
    pub banner_lines: Vec<Vec<(u16, u16, char)>>,
    pub controls_lines: Vec<Vec<(u16, u16, char)>>,
    pub border_lines: Vec<(u16, u16, TypedChar)>,
    pub lines: Vec<Vec<(u16, u16, TypedChar)>>,
    pub text_area: TextArea,
    pub cursor_row: u16,
    pub cursor_col: u16,
}

/// The mathematical value of a [`Layout`]: its vectors as sequences.
#[verifier::ext_equal]
pub struct LayoutView {
    pub banner_lines: Seq<Seq<(u16, u16, char)>>,
    pub controls_lines: Seq<Seq<(u16, u16, char)>>,
    pub border_lines: Seq<(u16, u16, TypedChar)>,
    pub lines: Seq<Seq<(u16, u16, TypedChar)>>,
    pub text_area: TextArea,
    pub cursor_row: u16,
    pub cursor_col: u16,
}

/// The sequence of sequences that a vector of vectors holds.
pub open spec fn nested_view<T>(v: Seq<Vec<T>>) -> Seq<Seq<T>> {
    Seq::new(v.len(), |i: int| v[i]@)
}

impl View for Layout {
    type V = LayoutView;

    open spec fn view(&self) -> LayoutView {
        LayoutView {
            banner_lines: nested_view(self.banner_lines@),
            controls_lines: nested_view(self.controls_lines@),
            border_lines: self.border_lines@,
            lines: nested_view(self.lines@),
            text_area: self.text_area,
            cursor_row: self.cursor_row,
            cursor_col: self.cursor_col,
        }
    }
}

/// Blank columns and rows kept free at each edge of the terminal.
pub const PADDING: u16 = 8;

/// The widest a line of text is wrapped to.
pub const MAX_LINE_WIDTH: u16 = 50;

} // verus!
