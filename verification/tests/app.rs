use termepub::ui::app::{App, AppAction, Key, KeyCode, Mode, PickerEntry};
use termepub::ui::theme::Theme;

fn app() -> App {
    App::new(true, (80, 24), ".".to_string())
}

fn key(code: KeyCode) -> Key {
    Key { code, ctrl: false }
}

fn ctrl(c: char) -> Key {
    Key { code: KeyCode::Char(c), ctrl: true }
}

fn with_picker(mut app: App) -> App {
    app.mode = Mode::Picker;
    app.picker_entries = vec![
        PickerEntry {
            name: "steel-beach.epub".into(),
            is_dir: false,
            is_epub: true,
        },
        PickerEntry {
            name: "neuromancer.epub".into(),
            is_dir: false,
            is_epub: true,
        },
        PickerEntry {
            name: "notes".into(),
            is_dir: true,
            is_epub: false,
        },
    ];
    app
}

#[test]
fn picker_slash_enters_filter_mode_and_typing_filters() {
    let mut app = with_picker(app());
    app.handle_key(key(KeyCode::Char('/')));
    assert!(app.picker_filtering, "'/' should enter filter mode");

    for c in ['s', 't', 'e'] {
        app.handle_key(key(KeyCode::Char(c)));
    }
    assert_eq!(app.picker_filter, "ste");
    let indices = app.filtered_picker_entries();
    assert_eq!(indices, vec![0], "only steel-beach.epub matches 'ste'");

    // Backspace edits the filter.
    app.handle_key(key(KeyCode::Backspace));
    assert_eq!(app.picker_filter, "st");

    // Enter keeps the filter applied but leaves filter mode.
    app.handle_key(key(KeyCode::Enter));
    assert!(!app.picker_filtering);
    assert_eq!(app.picker_filter, "st");
}

#[test]
fn picker_filter_esc_clears_and_q_types_instead_of_quitting() {
    let mut app = with_picker(app());
    app.handle_key(key(KeyCode::Char('/')));
    app.handle_key(key(KeyCode::Char('q')));
    assert_eq!(
        app.mode,
        Mode::Picker,
        "'q' while filtering should type, not quit"
    );
    assert_eq!(app.picker_filter, "q");

    app.handle_key(key(KeyCode::Esc));
    assert!(!app.picker_filtering);
    assert!(app.picker_filter.is_empty(), "Esc should clear the filter");
}

#[test]
fn repeat_safe_allows_navigation_and_typing_but_not_toggles() {
    let mut app = app();
    app.mode = Mode::Reader;
    assert!(app.is_repeat_safe(key(KeyCode::Right)));
    assert!(app.is_repeat_safe(key(KeyCode::PageDown)));
    assert!(
        !app.is_repeat_safe(key(KeyCode::Char('t'))),
        "theme toggle must not repeat"
    );
    assert!(
        !app.is_repeat_safe(key(KeyCode::Char('q'))),
        "quit must not repeat"
    );

    app.mode = Mode::Search;
    assert!(
        app.is_repeat_safe(key(KeyCode::Char('a'))),
        "typing repeats"
    );

    app.mode = Mode::Picker;
    app.picker_filtering = false;
    assert!(
        app.is_repeat_safe(key(KeyCode::Down)),
        "picker navigation repeats"
    );
    assert!(
        !app.is_repeat_safe(key(KeyCode::Char('/'))),
        "filter trigger must not repeat outside filter mode"
    );
    app.picker_filtering = true;
    assert!(
        app.is_repeat_safe(key(KeyCode::Char('a'))),
        "filter typing repeats"
    );

    app.mode = Mode::Popup;
    assert!(
        !app.is_repeat_safe(key(KeyCode::Char('y'))),
        "destructive keys must not repeat"
    );
}

#[test]
fn popup_q_no_book_reopens_quit_confirmation() {
    // With no book open, cancelling the quit popup must re-raise the quit
    // confirmation rather than trap the user in the picker.
    let mut app = app();
    app.mode = Mode::Popup;
    app.popup_message = Some("Quit? (y/n)".into());

    app.handle_key(key(KeyCode::Char('q')));

    assert!(!app.should_quit, "'q' must not confirm quit");
    assert_eq!(
        app.popup_message.as_deref(),
        Some("Quit? (y/n)"),
        "no book -> re-raise quit confirmation, don't trap in picker"
    );
}

#[test]
fn picker_esc_with_no_book_offers_quit() {
    let mut app = app();
    app.mode = Mode::Picker;
    app.picker_entries = vec![PickerEntry {
        name: "book.epub".into(),
        is_dir: false,
        is_epub: true,
    }];

    app.handle_key(key(KeyCode::Esc));

    assert_eq!(
        app.mode,
        Mode::Popup,
        "no book -> ESC should raise quit confirmation"
    );
    assert_eq!(app.popup_message.as_deref(), Some("Quit? (y/n)"));
}

#[test]
fn popup_y_confirms_quit() {
    let mut app = app();
    app.mode = Mode::Popup;
    app.popup_message = Some("Quit? (y/n)".into());

    app.handle_key(key(KeyCode::Char('y')));

    assert!(app.should_quit, "'y' should confirm quit");
}

#[test]
fn y_on_other_popups_is_not_handled() {
    let mut app = app();
    app.show_popup("No results found.".into(), false);
    assert!(!app.handle_key(key(KeyCode::Char('y'))));
    assert!(!app.should_quit);
    assert_eq!(app.mode, Mode::Popup);
}

#[test]
fn q_asks_to_quit_outside_text_modes() {
    for mode in [Mode::Reader, Mode::Toc, Mode::Picker] {
        let mut app = app();
        app.mode = mode;
        assert!(app.handle_key(key(KeyCode::Char('q'))));
        assert_eq!(app.mode, Mode::Popup, "mode {mode:?}");
        assert_eq!(app.popup_message.as_deref(), Some("Quit? (y/n)"));
        assert!(!app.popup_is_error);
    }
    for mode in [Mode::Search, Mode::Dictionary] {
        let mut app = app();
        app.mode = mode;
        app.handle_key(key(KeyCode::Char('q')));
        assert_eq!(app.mode, mode, "q is text in {mode:?}");
    }
}

#[test]
fn q_closes_the_help_screen() {
    let mut app = app();
    app.mode = Mode::Help;
    assert!(app.handle_key(key(KeyCode::Char('q'))));
    assert_eq!(app.mode, Mode::Reader);
    assert!(app.popup_message.is_none());
    assert!(!app.should_quit);
}

#[test]
fn ctrl_c_in_reader_asks_to_quit_and_plain_c_is_ignored() {
    let mut app = app();
    assert!(!app.handle_key(key(KeyCode::Char('c'))));
    assert_eq!(app.mode, Mode::Reader);
    assert!(app.handle_key(ctrl('c')));
    assert_eq!(app.mode, Mode::Popup);
}

#[test]
fn reader_keys_switch_modes_and_settings() {
    let mut app = app();
    app.handle_key(key(KeyCode::Char('t')));
    assert_eq!(app.theme, Theme::Light);
    app.handle_key(key(KeyCode::Char('h')));
    assert!(!app.show_header);
    app.handle_key(key(KeyCode::Char('j')));
    assert!(app.justify);
    app.handle_key(key(KeyCode::Char('i')));
    assert_eq!(app.mode, Mode::Toc);
    app.handle_key(key(KeyCode::Esc));
    assert_eq!(app.mode, Mode::Reader);
    app.handle_key(key(KeyCode::Char('?')));
    assert_eq!(app.mode, Mode::Help);
    app.handle_key(ctrl('c'));
    assert_eq!(app.mode, Mode::Reader);
    app.handle_key(key(KeyCode::Char('o')));
    assert_eq!(app.mode, Mode::Picker);
    assert!(matches!(app.take_pending(), Some(AppAction::RefreshPicker)));
    assert!(app.take_pending().is_none());
}

#[test]
fn dictionary_prompt_collects_a_word_and_asks_for_a_lookup() {
    let mut app = app();
    app.handle_key(key(KeyCode::Char('d')));
    assert_eq!(app.mode, Mode::Dictionary);
    app.handle_key(key(KeyCode::Enter));
    assert!(app.take_pending().is_none(), "no lookup without a word");
    for c in "wrod".chars() {
        app.handle_key(key(KeyCode::Char(c)));
    }
    app.handle_key(key(KeyCode::Backspace));
    assert_eq!(app.dictionary_word, "wro");
    app.handle_key(key(KeyCode::Enter));
    match app.take_pending() {
        Some(AppAction::Lookup(w)) => assert_eq!(w, "wro"),
        other => panic!("expected a lookup, got {other:?}"),
    }
    app.set_dictionary_result("answer".into());
    assert_eq!(app.dictionary_result.as_deref(), Some("answer"));
    app.handle_key(key(KeyCode::Esc));
    assert_eq!(app.mode, Mode::Reader);
    assert!(app.dictionary_word.is_empty());
    assert!(app.dictionary_result.is_none());
}

#[test]
fn picker_listing_sorts_ignoring_ascii_case() {
    let mut app = app();
    app.set_picker_entries(
        true,
        vec!["zeta".into(), "Alpha".into(), "beta".into()],
        vec!["b.epub".into(), "A.epub".into(), "a.epub".into()],
    );
    let names: Vec<(&str, bool, bool)> = app
        .picker_entries
        .iter()
        .map(|e| (e.name.as_str(), e.is_dir, e.is_epub))
        .collect();
    assert_eq!(
        names,
        vec![
            ("..", true, false),
            ("Alpha", true, false),
            ("beta", true, false),
            ("zeta", true, false),
            ("A.epub", false, true),
            ("a.epub", false, true),
            ("b.epub", false, true),
        ]
    );
    assert_eq!(app.picker_selected, 0);
}

#[test]
fn picker_enter_asks_for_outside_work() {
    let mut app = app();
    app.mode = Mode::Picker;
    app.set_picker_entries(true, vec!["notes".into()], vec!["book.epub".into()]);
    app.handle_key(key(KeyCode::Enter));
    assert!(matches!(app.take_pending(), Some(AppAction::PickerParent)));
    app.handle_key(key(KeyCode::Char('j')));
    assert_eq!(app.picker_selected, 1);
    app.handle_key(key(KeyCode::Enter));
    match app.take_pending() {
        Some(AppAction::PickerEnter(n)) => assert_eq!(n, "notes"),
        other => panic!("expected entering a directory, got {other:?}"),
    }
    app.handle_key(key(KeyCode::Down));
    app.handle_key(key(KeyCode::Down));
    assert_eq!(app.picker_selected, 2, "selection stops at the last entry");
    app.handle_key(key(KeyCode::Enter));
    match app.take_pending() {
        Some(AppAction::PickerOpen(n)) => assert_eq!(n, "book.epub"),
        other => panic!("expected opening a book, got {other:?}"),
    }
    app.handle_key(key(KeyCode::Up));
    assert_eq!(app.picker_selected, 1);
}

#[test]
fn picker_filter_is_case_insensitive() {
    let mut app = with_picker(app());
    app.picker_filter = "NEURO".into();
    assert_eq!(app.filtered_picker_entries(), vec![1]);
    app.picker_filter = "".into();
    assert_eq!(app.filtered_picker_entries(), vec![0, 1, 2]);
    app.picker_filter = "E".into();
    assert_eq!(app.filtered_picker_entries(), vec![0, 1, 2]);
    app.picker_filter = "zzz".into();
    assert!(app.filtered_picker_entries().is_empty());
}

#[test]
fn search_without_a_book_returns_to_the_reader() {
    let mut app = app();
    app.mode = Mode::Search;
    for c in "abc".chars() {
        app.handle_key(key(KeyCode::Char(c)));
    }
    assert_eq!(app.search_query, "abc");
    app.handle_key(key(KeyCode::Enter));
    assert_eq!(app.mode, Mode::Reader);
    assert!(app.search_query.is_empty());
}

#[test]
fn navigation_without_a_book_stays_put() {
    let mut app = app();
    for k in [KeyCode::Left, KeyCode::Right, KeyCode::Up, KeyCode::Down, KeyCode::PageDown, KeyCode::PageUp] {
        assert!(app.handle_key(key(k)));
        assert_eq!((app.chapter_index, app.page_index), (0, 0));
    }
}
