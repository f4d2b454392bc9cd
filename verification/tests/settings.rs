use shufflepic::settings::{apply_panel, clamp_count, clamp_interval, PanelInput, SettingsState};

fn input(interval_secs: Option<u64>, display_count: Option<usize>, open: bool) -> PanelInput {
    PanelInput { folder: None, interval_secs, display_count, open }
}

#[test]
fn interval_is_brought_into_range() {
    assert_eq!(clamp_interval(0), 5);
    assert_eq!(clamp_interval(4), 5);
    assert_eq!(clamp_interval(5), 5);
    assert_eq!(clamp_interval(23), 23);
    assert_eq!(clamp_interval(60), 60);
    assert_eq!(clamp_interval(61), 60);
    assert_eq!(clamp_interval(u64::MAX), 60);
}

#[test]
fn count_is_one_or_two() {
    assert_eq!(clamp_count(1), 1);
    assert_eq!(clamp_count(0), 1);
    assert_eq!(clamp_count(2), 2);
    assert_eq!(clamp_count(9), 2);
}

#[test]
fn defaults_are_fifteen_seconds_and_two_pictures() {
    let s = SettingsState::defaults(None);
    assert_eq!(s.interval_secs, 15);
    assert_eq!(s.display_count, 2);
    assert!(s.folder.is_none());
    assert!(!s.show_panel);
}

#[test]
fn new_settings_are_in_range() {
    let s = SettingsState::new(Some("/p".to_string()), 1, 7);
    assert_eq!(s.folder, Some("/p".to_string()));
    assert_eq!(s.interval_secs, 5);
    assert_eq!(s.display_count, 2);
}

#[test]
fn panel_changes_are_taken_over() {
    let mut s = SettingsState::defaults(Some("/p".to_string()));
    s.show_panel = true;
    let r = apply_panel(&mut s, input(Some(30), None, true));
    assert!(r.changed);
    assert!(r.folder_chosen.is_none());
    assert_eq!(s.interval_secs, 30);
    assert_eq!(s.display_count, 2);
    assert!(s.show_panel);
    let r = apply_panel(&mut s, input(None, Some(1), false));
    assert!(r.changed);
    assert_eq!(s.display_count, 1);
    assert!(!s.show_panel);
}

#[test]
fn panel_without_changes_changes_nothing() {
    let mut s = SettingsState::defaults(None);
    let r = apply_panel(&mut s, input(None, None, true));
    assert!(!r.changed);
    assert_eq!(s.interval_secs, 15);
}

#[test]
fn panel_hands_the_folder_on() {
    let mut s = SettingsState::defaults(None);
    let r = apply_panel(
        &mut s,
        PanelInput {
            folder: Some("/new".to_string()),
            interval_secs: None,
            display_count: None,
            open: true,
        },
    );
    assert_eq!(r.folder_chosen, Some("/new".to_string()));
    assert!(s.folder.is_none(), "the folder changes only with the reset");
}
