use shufflepic::playback::{clear_front, shuffle_paths, PlaybackState};

fn p(s: &str) -> String {
    s.to_string()
}

fn paths(n: usize) -> Vec<String> {
    (0..n).map(|i| p(&format!("f{i}.png"))).collect()
}

fn sorted(mut v: Vec<String>) -> Vec<String> {
    v.sort();
    v
}

fn st(order: Vec<String>, cursor: usize) -> PlaybackState {
    PlaybackState::from_restored(order, cursor, 0, Vec::new())
}

#[test]
fn new_preserves_set() {
    let v = paths(30);
    let s = PlaybackState::new(v.clone());
    assert_eq!(sorted(s.play_order), sorted(v));
    assert_eq!(s.cursor, 0);
}

#[test]
fn reshuffle_tail_keeps_head_and_set() {
    let mut s = st(paths(10), 3);
    let head = s.play_order[..5].to_vec();
    s.reshuffle_tail(5);
    assert_eq!(&s.play_order[..5], &head[..], "head must be untouched");
    assert_eq!(sorted(s.play_order), sorted(paths(10)), "set preserved");
}

#[test]
fn reshuffle_all_avoiding_keeps_set_and_avoids_front() {
    let mut s = st(paths(10), 0);
    let last = vec![p("f0.png"), p("f1.png")];
    for _ in 0..100 {
        s.reshuffle_all_avoiding(&last);
        assert!(!last.contains(&s.play_order[0]), "last_shown must not be at index 0");
        assert!(!last.contains(&s.play_order[1]), "last_shown must not be at index 1");
        assert_eq!(sorted(s.play_order.clone()), sorted(paths(10)));
    }
}

#[test]
fn reshuffle_all_avoiding_small_set_is_tolerated() {
    let mut s = st(paths(2), 0);
    let last = vec![p("f0.png"), p("f1.png")];
    s.reshuffle_all_avoiding(&last);
    assert_eq!(sorted(s.play_order), sorted(paths(2)));
}

#[test]
fn shuffle_changes_the_order_of_many_paths() {
    let before = paths(200);
    let mut after = before.clone();
    shuffle_paths(&mut after);
    assert_ne!(after, before);
    assert_eq!(sorted(after), sorted(before));
}

#[test]
fn reshuffle_tail_shuffles_a_long_tail() {
    let mut s = st(paths(200), 0);
    s.reshuffle_tail(10);
    assert_ne!(s.play_order[10..], paths(200)[10..]);
    assert_eq!(s.play_order[..10], paths(200)[..10]);
}

#[test]
fn reshuffle_tail_behind_the_end_does_nothing() {
    let mut s = st(paths(4), 1);
    s.reshuffle_tail(4);
    assert_eq!(s.play_order, paths(4));
    s.reshuffle_tail(9);
    assert_eq!(s.play_order, paths(4));
}

#[test]
fn new_of_nothing_is_empty() {
    let s = PlaybackState::new(Vec::new());
    assert!(s.play_order.is_empty());
    assert_eq!(s.cycle_count, 0);
    assert!(s.last_shown.is_empty());
    assert!(s.pending.is_empty());
    assert!(!s.empty_state_active);
}

#[test]
fn from_restored_keeps_what_it_is_given() {
    let s = PlaybackState::from_restored(paths(3), 2, 7, vec![p("f1.png")]);
    assert_eq!(s.play_order, paths(3));
    assert_eq!(s.cursor, 2);
    assert_eq!(s.cycle_count, 7);
    assert_eq!(s.last_shown, vec![p("f1.png")]);
    assert!(!s.empty_state_active);
}

#[test]
fn front_is_cleared_by_exchange() {
    let mut order = vec![p("l0"), p("l1"), p("a"), p("b")];
    clear_front(&mut order, &vec![p("l0"), p("l1")]);
    assert_eq!(order[0..2].iter().filter(|x| x.starts_with('l')).count(), 0);
    assert_eq!(sorted(order), vec![p("a"), p("b"), p("l0"), p("l1")]);
}

#[test]
fn fresh_front_stays_as_it_is() {
    let mut order = vec![p("a"), p("b"), p("l0"), p("c")];
    clear_front(&mut order, &vec![p("l0")]);
    assert_eq!(order, vec![p("a"), p("b"), p("l0"), p("c")]);
}

#[test]
fn third_picture_opens_the_new_cycle() {
    let last = vec![p("f0.png"), p("f1.png")];
    for _ in 0..100 {
        let mut s = st(paths(3), 0);
        s.reshuffle_all_avoiding(&last);
        assert_eq!(s.play_order[0], "f2.png");
        assert_eq!(sorted(s.play_order), paths(3));
    }
}

#[test]
fn fresh_picture_between_two_shown_comes_first() {
    let mut order = vec![p("f0"), p("f2"), p("f1")];
    clear_front(&mut order, &vec![p("f0"), p("f1")]);
    assert_eq!(order, vec![p("f2"), p("f0"), p("f1")]);
}

#[test]
fn two_pictures_take_turns() {
    let mut order = vec![p("a"), p("b")];
    clear_front(&mut order, &vec![p("a")]);
    assert_eq!(order, vec![p("b"), p("a")]);
    clear_front(&mut order, &vec![p("b"), p("a")]);
    assert_eq!(order, vec![p("b"), p("a")]);
    let mut one = vec![p("a")];
    clear_front(&mut one, &vec![p("a"), p("x")]);
    assert_eq!(one, vec![p("a")]);
}
