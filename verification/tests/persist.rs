use shufflepic::persist::{
    build_initial, candidate_files, load, reconcile, save, start_save, PersistState, SaveAction, StoredState,
};
use shufflepic::{PERSIST_SCHEMA_VERSION, STATE_FILE_NAME};

fn state(order: Vec<String>, cursor: usize, last_shown: Vec<String>) -> PersistState {
    PersistState {
        schema_version: PERSIST_SCHEMA_VERSION,
        folder: "/some/folder".to_string(),
        interval_secs: 15,
        display_count: 2,
        play_order: order,
        cursor,
        cycle_count: 2,
        last_shown,
    }
}

fn file(name: &str) -> String {
    format!("/some/folder/{name}")
}

#[test]
fn reconcile_filters_dedups_and_recomputes_cursor() {
    let a = file("a.png");
    let b = file("b.png");
    let c = file("c.png");
    let d = file("d.png");
    let outside = "/other/x.png".to_string();

    let state = state(
        vec![a.clone(), outside.clone(), b.clone(), a.clone(), c.clone()],
        3,
        vec![a.clone(), outside.clone()],
    );
    let scanned = vec![a.clone(), b.clone(), c.clone(), d.clone()];

    let (order, cursor, last_shown) = reconcile(&state, &scanned);

    assert_eq!(cursor, 2);
    assert_eq!(&order[..3], &[a.clone(), b.clone(), c.clone()][..]);
    assert!(order.contains(&d));
    assert!(!order.contains(&outside));
    assert_eq!(order.iter().filter(|p| **p == a).count(), 1, "dedup");
    assert_eq!(last_shown, vec![a]);
}

#[test]
fn reconcile_keeps_an_unchanged_folder() {
    let order: Vec<String> = (0..6).map(|i| file(&format!("{i}.png"))).collect();
    let mut scanned = order.clone();
    scanned.reverse();
    let last = vec![order[2].clone(), order[3].clone()];
    let (again, cursor, last_shown) = reconcile(&state(order.clone(), 4, last.clone()), &scanned);
    assert_eq!(again, order);
    assert_eq!(cursor, 4);
    assert_eq!(last_shown, last);
}

#[test]
fn reconcile_with_a_cursor_behind_the_end() {
    let order = vec![file("a.png"), file("b.png")];
    let (again, cursor, _) = reconcile(&state(order.clone(), 99, Vec::new()), &order);
    assert_eq!(again, order);
    assert_eq!(cursor, 2);
}

#[test]
fn reconcile_shuffles_new_pictures() {
    let scanned: Vec<String> = (0..200).map(|i| file(&format!("{i}.png"))).collect();
    let (order, cursor, last_shown) = reconcile(&state(Vec::new(), 0, Vec::new()), &scanned);
    assert_ne!(order, scanned);
    let mut a = order.clone();
    let mut b = scanned.clone();
    a.sort();
    b.sort();
    assert_eq!(a, b);
    assert_eq!(cursor, 0);
    assert!(last_shown.is_empty());
}

#[test]
fn reconcile_remembers_two_at_most() {
    let order: Vec<String> = (0..4).map(|i| file(&format!("{i}.png"))).collect();
    let last = vec![
        "/gone.png".to_string(),
        order[3].clone(),
        order[1].clone(),
        order[0].clone(),
    ];
    let (_, _, last_shown) = reconcile(&state(order.clone(), 0, last), &order);
    assert_eq!(last_shown, vec![order[3].clone(), order[1].clone()]);
}

fn stored(path: &str, modified: i128, version: u32) -> StoredState {
    let mut state = state(Vec::new(), 0, Vec::new());
    state.schema_version = version;
    state.folder = path.to_string();
    StoredState { path: format!("{path}/{STATE_FILE_NAME}"), modified, state }
}

#[test]
fn newest_state_is_loaded() {
    let picked = load(vec![stored("/a", 5, 1), stored("/b", 9, 1), stored("/c", 7, 1)]);
    let (path, state) = picked.unwrap();
    assert_eq!(path, "/b/shufflepic_state.json");
    assert_eq!(state.folder, "/b");
}

#[test]
fn first_of_equally_new_states_is_loaded() {
    let (path, _) = load(vec![stored("/a", 9, 1), stored("/b", 9, 1)]).unwrap();
    assert_eq!(path, "/a/shufflepic_state.json");
}

#[test]
fn states_of_another_version_are_ignored() {
    let (path, _) = load(vec![stored("/a", 1, 1), stored("/b", 9, 2)]).unwrap();
    assert_eq!(path, "/a/shufflepic_state.json");
    assert!(load(vec![stored("/b", 9, 0)]).is_none());
    assert!(load(Vec::new()).is_none());
}

fn candidates() -> Vec<String> {
    vec!["/a/s.json".to_string(), "/b/s.json".to_string()]
}

#[test]
fn save_writes_then_replaces() {
    let mut chosen = Some("/x/s.json".to_string());
    let c = candidates();
    let action = start_save(&chosen, &c);
    assert_eq!(action, SaveAction::WriteTemp);
    let action = save(&mut chosen, &c, action, true);
    assert_eq!(action, SaveAction::Replace);
    let action = save(&mut chosen, &c, action, true);
    assert_eq!(action, SaveAction::Saved);
    assert_eq!(chosen, Some("/x/s.json".to_string()));
}

#[test]
fn save_settles_on_the_first_place_that_can_be_written() {
    let mut chosen = None;
    let c = candidates();
    let action = start_save(&chosen, &c);
    assert_eq!(action, SaveAction::Probe(0));
    let action = save(&mut chosen, &c, action, false);
    assert_eq!(action, SaveAction::Probe(1));
    assert!(chosen.is_none());
    let action = save(&mut chosen, &c, action, true);
    assert_eq!(action, SaveAction::WriteTemp);
    assert_eq!(chosen, Some("/b/s.json".to_string()));
}

#[test]
fn save_without_a_place_fails() {
    let mut chosen = None;
    let c = candidates();
    let action = save(&mut chosen, &c, SaveAction::Probe(1), false);
    assert_eq!(action, SaveAction::NoLocation);
    assert!(chosen.is_none());
    assert_eq!(start_save(&None, &Vec::new()), SaveAction::NoLocation);
}

#[test]
fn failed_save_leaves_the_state_file() {
    let mut chosen = Some("/x/s.json".to_string());
    let c = candidates();
    assert_eq!(save(&mut chosen, &c, SaveAction::WriteTemp, false), SaveAction::Failed);
    let action = save(&mut chosen, &c, SaveAction::Replace, false);
    assert_eq!(action, SaveAction::RemoveTemp);
    assert_eq!(save(&mut chosen, &c, action, true), SaveAction::Failed);
    assert_eq!(save(&mut chosen, &c, SaveAction::RemoveTemp, false), SaveAction::Failed);
}

#[test]
fn start_goes_on_with_the_saved_state() {
    let order = vec![file("a.png"), file("b.png"), file("c.png")];
    let mut saved = state(order.clone(), 1, vec![file("a.png")]);
    saved.interval_secs = 200;
    saved.display_count = 1;
    let (settings, playback, place) =
        build_initial(Some(("/s.json".to_string(), saved)), Some(order.clone()));
    assert_eq!(settings.folder, Some("/some/folder".to_string()));
    assert_eq!(settings.interval_secs, 60);
    assert_eq!(settings.display_count, 1);
    assert_eq!(playback.play_order, order);
    assert_eq!(playback.cursor, 1);
    assert_eq!(playback.cycle_count, 2);
    assert_eq!(playback.last_shown, vec![file("a.png")]);
    assert_eq!(place, Some("/s.json".to_string()));
}

#[test]
fn start_without_a_folder_is_a_first_start() {
    let saved = state(vec![file("a.png")], 1, Vec::new());
    for (saved, scanned) in [(Some(("/s.json".to_string(), saved)), None), (None, None)] {
        let (settings, playback, place) = build_initial(saved, scanned);
        assert!(settings.folder.is_none());
        assert_eq!(settings.interval_secs, 15);
        assert_eq!(settings.display_count, 2);
        assert!(playback.play_order.is_empty());
        assert_eq!(playback.cursor, 0);
        assert!(place.is_none());
    }
}

#[test]
fn places_for_the_state_come_in_order() {
    let place = |s: &str| Some(s.to_string());
    assert_eq!(candidate_files(place("e"), place("d"), place("c")), ["e", "d", "c"]);
    assert_eq!(candidate_files(None, place("d"), place("c")), ["d", "c"]);
    assert_eq!(candidate_files(place("e"), None, None), ["e"]);
    assert!(candidate_files(None, None, None).is_empty());
}
