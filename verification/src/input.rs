use crate::view::FilterType;
use vstd::prelude::*;

verus! {

/// A key press, reduced to what the key logic reads. The host translates
/// real terminal events into this before asking for a command.
#[derive(Clone, Copy, Debug, PartialEq, Eq, Structural)]
pub enum Key {
    Char(char),
    Up,
    Down,
    Left,
    Right,
    Enter,
    Esc,
}

/// The commands the key logic can emit; each maps to exactly one mutating
/// entry point of the core.
#[derive(Clone, Copy, Debug, PartialEq, Eq, Structural)]
pub enum Action {
    Quit,
    ToggleFolder,
    CloseNearest,
    NavigateUp,
    NavigateDown,
    NavigateTop,
    NavigateBottom,
    ToggleFilter(FilterType),
}

/// What the key logic is waiting for: an ordinary command, or — after the
/// filter prefix key — the name of a filter switch.
#[derive(Clone, Copy, Debug, PartialEq, Eq, Structural)]
pub enum InputMode {
    Normal,
    FilterKey,
}

impl Default for InputMode {
    /// The key logic starts in the ordinary mode.
    fn default() -> (r: InputMode)
        ensures
            r == InputMode::Normal,
    {
        InputMode::Normal
    }
}

/// The whole key map as one function: the next mode, and the command the
/// press emits, if any. In the ordinary mode the filter prefix only switches
/// mode; in the filter mode any press falls back to the ordinary mode,
/// emitting a filter toggle when it named a switch.
pub open spec fn handle_key_spec(mode: InputMode, key: Key) -> (InputMode, Option<Action>) {
    match mode {
        InputMode::Normal => match key {
            Key::Char('q') | Key::Esc => (InputMode::Normal, Some(Action::Quit)),
            Key::Char('h') | Key::Left => (InputMode::Normal, Some(Action::CloseNearest)),
            Key::Char('j') | Key::Down => (InputMode::Normal, Some(Action::NavigateDown)),
            Key::Char('k') | Key::Up => (InputMode::Normal, Some(Action::NavigateUp)),
            Key::Char('g') => (InputMode::Normal, Some(Action::NavigateTop)),
            Key::Char('G') => (InputMode::Normal, Some(Action::NavigateBottom)),
            Key::Char('l') | Key::Right | Key::Enter => (
                InputMode::Normal,
                Some(Action::ToggleFolder),
            ),
            Key::Char('f') => (InputMode::FilterKey, None),
            _ => (InputMode::Normal, None),
        },
        InputMode::FilterKey => match key {
            Key::Char('d') => (InputMode::Normal, Some(Action::ToggleFilter(FilterType::Directory))),
            Key::Char('f') => (InputMode::Normal, Some(Action::ToggleFilter(FilterType::File))),
            Key::Char('.') => (InputMode::Normal, Some(Action::ToggleFilter(FilterType::Dotfile))),
            _ => (InputMode::Normal, None),
        },
    }
}

/// Maps one key press to the next input mode and the command it emits.
pub fn handle_key(mode: InputMode, key: Key) -> (r: (InputMode, Option<Action>))
    ensures
        r == handle_key_spec(mode, key),
{
    match mode {
        InputMode::Normal => match key {
            Key::Char('q') | Key::Esc => (InputMode::Normal, Some(Action::Quit)),
            Key::Char('h') | Key::Left => (InputMode::Normal, Some(Action::CloseNearest)),
            Key::Char('j') | Key::Down => (InputMode::Normal, Some(Action::NavigateDown)),
            Key::Char('k') | Key::Up => (InputMode::Normal, Some(Action::NavigateUp)),
            Key::Char('g') => (InputMode::Normal, Some(Action::NavigateTop)),
            Key::Char('G') => (InputMode::Normal, Some(Action::NavigateBottom)),
            Key::Char('l') | Key::Right | Key::Enter => (
                InputMode::Normal,
                Some(Action::ToggleFolder),
            ),
            Key::Char('f') => (InputMode::FilterKey, None),
            _ => (InputMode::Normal, None),
        },
        InputMode::FilterKey => match key {
            Key::Char('d') => (InputMode::Normal, Some(Action::ToggleFilter(FilterType::Directory))),
            Key::Char('f') => (InputMode::Normal, Some(Action::ToggleFilter(FilterType::File))),
            Key::Char('.') => (InputMode::Normal, Some(Action::ToggleFilter(FilterType::Dotfile))),
            _ => (InputMode::Normal, None),
        },
    }
}

} // verus!
