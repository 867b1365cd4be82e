use lsn::input::{handle_key, Action, InputMode, Key};
use lsn::view::FilterType;

#[test]
fn normal_mode_maps_the_browser_keys() {
    let n = InputMode::Normal;
    assert_eq!(handle_key(n, Key::Char('q')), (n, Some(Action::Quit)));
    assert_eq!(handle_key(n, Key::Esc), (n, Some(Action::Quit)));
    assert_eq!(handle_key(n, Key::Char('j')), (n, Some(Action::NavigateDown)));
    assert_eq!(handle_key(n, Key::Down), (n, Some(Action::NavigateDown)));
    assert_eq!(handle_key(n, Key::Char('k')), (n, Some(Action::NavigateUp)));
    assert_eq!(handle_key(n, Key::Char('g')), (n, Some(Action::NavigateTop)));
    assert_eq!(handle_key(n, Key::Char('G')), (n, Some(Action::NavigateBottom)));
    assert_eq!(handle_key(n, Key::Char('l')), (n, Some(Action::ToggleFolder)));
    assert_eq!(handle_key(n, Key::Enter), (n, Some(Action::ToggleFolder)));
    assert_eq!(handle_key(n, Key::Char('h')), (n, Some(Action::CloseNearest)));
    assert_eq!(handle_key(n, Key::Left), (n, Some(Action::CloseNearest)));
    assert_eq!(handle_key(n, Key::Char('z')), (n, None));
}

#[test]
fn filter_prefix_arms_and_disarms() {
    let (mode, action) = handle_key(InputMode::Normal, Key::Char('f'));
    assert_eq!(mode, InputMode::FilterKey);
    assert_eq!(action, None);

    assert_eq!(
        handle_key(InputMode::FilterKey, Key::Char('d')),
        (
            InputMode::Normal,
            Some(Action::ToggleFilter(FilterType::Directory))
        )
    );
    assert_eq!(
        handle_key(InputMode::FilterKey, Key::Char('f')),
        (
            InputMode::Normal,
            Some(Action::ToggleFilter(FilterType::File))
        )
    );
    assert_eq!(
        handle_key(InputMode::FilterKey, Key::Char('.')),
        (
            InputMode::Normal,
            Some(Action::ToggleFilter(FilterType::Dotfile))
        )
    );
    // Any other key falls back to the ordinary mode without a command.
    assert_eq!(
        handle_key(InputMode::FilterKey, Key::Char('q')),
        (InputMode::Normal, None)
    );
}
