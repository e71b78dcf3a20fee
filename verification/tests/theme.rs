use termepub::ui::theme::{info_bg, error_bg, Theme};
use termepub::Rgb;

#[test]
fn theme_names_round_trip() {
    for t in [Theme::Dark, Theme::Light, Theme::SolarizedDark, Theme::SolarizedLight] {
        assert_eq!(Theme::from_name(t.name()), Some(t));
    }
    assert_eq!(Theme::Dark.name(), "dark");
    assert_eq!(Theme::SolarizedLight.name(), "solarized-light");
    assert_eq!(Theme::from_name("Dark"), None);
    assert_eq!(Theme::from_name(""), None);
}

#[test]
fn theme_cycle_visits_all_four_and_returns() {
    let mut t = Theme::Dark;
    let mut seen = Vec::new();
    for _ in 0..4 {
        seen.push(t);
        t = t.next_theme();
    }
    assert_eq!(t, Theme::Dark);
    assert_eq!(seen, vec![Theme::Dark, Theme::Light, Theme::SolarizedDark, Theme::SolarizedLight]);
}

#[test]
fn theme_and_dialog_colours() {
    assert_eq!(Theme::Dark.background(), Rgb { r: 0, g: 0, b: 0 });
    assert_eq!(Theme::Dark.foreground(), Rgb { r: 204, g: 204, b: 204 });
    assert_eq!(Theme::Light.foreground(), Rgb { r: 0, g: 0, b: 0 });
    assert_eq!(Theme::SolarizedLight.background(), Rgb { r: 238, g: 232, b: 213 });
    assert_eq!(info_bg(), Rgb { r: 30, g: 64, b: 140 });
    assert_eq!(error_bg(), Rgb { r: 150, g: 30, b: 30 });
    assert!(Theme::SolarizedDark.is_dark());
    assert!(!Theme::Light.is_dark());
}
