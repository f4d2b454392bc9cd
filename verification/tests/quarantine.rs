use shufflepic::quarantine::{
    candidate_name, move_with_collision_avoidance, not_created, prepare_dir, start_move,
    ActionOutcome, DirAction, DirProbe, MoveAction,
};
use std::collections::BTreeMap;

/// Files by path, and whether links can be made.
struct Disk {
    files: BTreeMap<String, Vec<u8>>,
    links: bool,
    copies: bool,
    source_stays: bool,
}

fn disk(files: &[(&str, &str)]) -> Disk {
    Disk {
        files: files.iter().map(|(p, c)| (p.to_string(), c.as_bytes().to_vec())).collect(),
        links: true,
        copies: true,
        source_stays: false,
    }
}

fn perform(disk: &mut Disk, src: &str, dir: &str, name: &str, action: MoveAction) -> ActionOutcome {
    let dest = |n: u32| format!("{dir}/{}", candidate_name(name, n));
    match action {
        MoveAction::Link(n) => {
            if disk.files.contains_key(&dest(n)) {
                ActionOutcome::Exists
            } else if disk.links {
                let bytes = disk.files[src].clone();
                disk.files.insert(dest(n), bytes);
                ActionOutcome::Done
            } else {
                ActionOutcome::Error
            }
        }
        MoveAction::Reserve(n) => {
            if disk.files.contains_key(&dest(n)) {
                ActionOutcome::Exists
            } else {
                disk.files.insert(dest(n), Vec::new());
                ActionOutcome::Done
            }
        }
        MoveAction::Copy(n) => {
            if disk.copies {
                let bytes = disk.files[src].clone();
                disk.files.insert(dest(n), bytes);
                ActionOutcome::Done
            } else {
                ActionOutcome::Error
            }
        }
        MoveAction::RemoveSource(_) => {
            if disk.source_stays {
                ActionOutcome::Error
            } else {
                disk.files.remove(src);
                ActionOutcome::Done
            }
        }
        MoveAction::RemoveDest(n) => {
            disk.files.remove(&dest(n));
            ActionOutcome::Done
        }
        _ => ActionOutcome::Done,
    }
}

fn run(disk: &mut Disk, src: &str, dir: &str, name: &str) -> MoveAction {
    let mut action = start_move(true);
    for _ in 0..100 {
        if matches!(action, MoveAction::Moved(_) | MoveAction::Failed | MoveAction::NoFreeName) {
            return action;
        }
        let outcome = perform(disk, src, dir, name, action);
        action = move_with_collision_avoidance(action, outcome);
    }
    action
}

#[test]
fn move_basic() {
    let mut d = disk(&[("/p/a.png", "DATA")]);
    let end = run(&mut d, "/p/a.png", "/p/delete", "a.png");
    assert_eq!(end, MoveAction::Moved(0));
    assert!(!d.files.contains_key("/p/a.png"), "original should be moved away");
    assert_eq!(candidate_name("a.png", 0), "a.png");
    assert_eq!(d.files["/p/delete/a.png"], b"DATA");
}

#[test]
fn move_collision_does_not_overwrite() {
    let mut d = disk(&[("/p/a.png", "NEW"), ("/p/delete/a.png", "DUMMY")]);
    let end = run(&mut d, "/p/a.png", "/p/delete", "a.png");
    assert_eq!(end, MoveAction::Moved(1));
    assert_eq!(candidate_name("a.png", 1), "a (1).png");
    assert_eq!(d.files["/p/delete/a.png"], b"DUMMY");
    assert_eq!(d.files["/p/delete/a (1).png"], b"NEW");
}

#[test]
fn move_without_links_copies() {
    let mut d = disk(&[("/p/a.png", "NEW"), ("/p/delete/a.png", "DUMMY")]);
    d.links = false;
    let end = run(&mut d, "/p/a.png", "/p/delete", "a.png");
    assert_eq!(end, MoveAction::Moved(1));
    assert_eq!(d.files["/p/delete/a (1).png"], b"NEW");
    assert_eq!(d.files["/p/delete/a.png"], b"DUMMY");
    assert!(!d.files.contains_key("/p/a.png"));
}

#[test]
fn failed_copy_leaves_the_file_and_no_remains() {
    let mut d = disk(&[("/p/a.png", "NEW")]);
    d.links = false;
    d.copies = false;
    assert_eq!(run(&mut d, "/p/a.png", "/p/delete", "a.png"), MoveAction::Failed);
    assert_eq!(d.files.len(), 1);
    assert_eq!(d.files["/p/a.png"], b"NEW");
}

#[test]
fn source_that_stays_leaves_no_second_file() {
    for links in [true, false] {
        let mut d = disk(&[("/p/a.png", "NEW")]);
        d.links = links;
        d.source_stays = true;
        assert_eq!(run(&mut d, "/p/a.png", "/p/delete", "a.png"), MoveAction::Failed);
        assert_eq!(d.files.len(), 1);
        assert_eq!(d.files["/p/a.png"], b"NEW");
    }
}

#[test]
fn path_without_a_name_is_not_moved() {
    assert_eq!(start_move(false), MoveAction::NoName);
    assert_eq!(
        move_with_collision_avoidance(MoveAction::NoName, ActionOutcome::Done),
        MoveAction::NoName
    );
}

#[test]
fn names_run_out_after_a_million() {
    assert_eq!(
        move_with_collision_avoidance(MoveAction::Link(999_999), ActionOutcome::Exists),
        MoveAction::Link(1_000_000)
    );
    assert_eq!(
        move_with_collision_avoidance(MoveAction::Link(1_000_000), ActionOutcome::Exists),
        MoveAction::NoFreeName
    );
    assert_eq!(
        move_with_collision_avoidance(MoveAction::Reserve(1_000_000), ActionOutcome::Exists),
        MoveAction::NoFreeName
    );
}

#[test]
fn reservation_that_fails_ends_the_move() {
    assert_eq!(
        move_with_collision_avoidance(MoveAction::Reserve(3), ActionOutcome::Error),
        MoveAction::Failed
    );
}

#[test]
fn fallback_goes_on_with_the_same_number() {
    assert_eq!(
        move_with_collision_avoidance(MoveAction::Link(4), ActionOutcome::Error),
        MoveAction::Reserve(4)
    );
}

#[test]
fn numbered_names() {
    assert_eq!(candidate_name("a.png", 12), "a (12).png");
    assert_eq!(candidate_name("a.b.png", 1), "a.b (1).png");
    assert_eq!(candidate_name("noext", 3), "noext (3)");
    assert_eq!(candidate_name(".hidden", 1), ".hidden (1)");
    assert_eq!(candidate_name("dot.", 1), "dot (1).");
    assert_eq!(candidate_name("写真.jpg", 1_000_000), "写真 (1000000).jpg");
}

#[test]
fn numbered_names_differ() {
    let names: Vec<String> = (0..50).map(|n| candidate_name("a (1).png", n)).collect();
    for i in 0..names.len() {
        for j in 0..i {
            assert_ne!(names[i], names[j]);
        }
    }
}

#[test]
fn folder_is_used_created_or_refused() {
    let dir = "/p/delete".to_string();
    assert!(matches!(prepare_dir(&dir, DirProbe::Directory), DirAction::Use));
    assert!(matches!(prepare_dir(&dir, DirProbe::Absent), DirAction::Create));
    match prepare_dir(&dir, DirProbe::Other) {
        DirAction::Refuse(message) => assert_eq!(
            message,
            "退避フォルダのパスが既にファイルとして存在します（上書きしません）: /p/delete"
        ),
        _ => panic!("something else has that name"),
    }
    assert_eq!(
        not_created(&"denied".to_string()),
        "退避フォルダの作成に失敗しました: denied"
    );
}
