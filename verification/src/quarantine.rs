//! Moving a picture into a folder of its own, without overwriting what is
//! there.

use crate::paths::{chars_of, extension_of, find_last_dot, stem_of};
use vstd::prelude::*;
use vstd::string::*;

verus! {

/// The last number that is tried for a name.
pub const LAST_NUMBER: u32 = 1_000_000;

/// A digit.
pub open spec fn digit(d: int) -> char {
    (48 + d) as char
}

/// A number in decimal digits.
pub open spec fn decimal(n: nat) -> Seq<char>
    decreases n,
{
    if n < 10 {
        seq![digit(n as int)]
    } else {
        decimal(n / 10).push(digit((n % 10) as int))
    }
}

/// The `n`th name to try for a file: its own first, then its stem with a
/// number behind it.
pub open spec fn candidate(file_name: Seq<char>, n: nat) -> Seq<char> {
    if n == 0 {
        file_name
    } else {
        let numbered = stem_of(file_name) + seq![' ', '('] + decimal(n) + seq![')'];
        match extension_of(file_name) {
            Some(extension) => numbered + seq!['.'] + extension,
            None => numbered,
        }
    }
}

fn digit_text(d: u32) -> (text: &'static str)
    requires
        d < 10,
    ensures
        text@ == seq![digit(d as int)],
{
    proof {
        reveal_strlit("0");
        reveal_strlit("1");
        reveal_strlit("2");
        reveal_strlit("3");
        reveal_strlit("4");
        reveal_strlit("5");
        reveal_strlit("6");
        reveal_strlit("7");
        reveal_strlit("8");
        reveal_strlit("9");
    }
    let text: &'static str = match d {
        0 => "0",
        1 => "1",
        2 => "2",
        3 => "3",
        4 => "4",
        5 => "5",
        6 => "6",
        7 => "7",
        8 => "8",
        _ => "9",
    };
    assert(text@ =~= seq![digit(d as int)]);
    text
}

fn append_decimal(text: &mut String, n: u32)
    ensures
        final(text)@ == old(text)@ + decimal(n as nat),
    decreases n,
{
    let ghost start = text@;
    if n < 10 {
        text.append(digit_text(n));
    } else {
        append_decimal(text, n / 10);
        text.append(digit_text(n % 10));
        assert(text@ =~= start + decimal(n as nat));
    }
}

/// The `n`th name to try for a file. `file_name` is the name alone, without
/// its folder.
pub fn candidate_name(file_name: &str, n: u32) -> (name: String)
    ensures
        name@ == candidate(file_name@, n as nat),
{
    if n == 0 {
        return file_name.to_owned();
    }
    let chars = chars_of(file_name);
    let end = chars.len();
    let dot = find_last_dot(&chars, 0, end);
    assert(chars@.subrange(0, end as int) =~= chars@);
    let split = match dot {
        Some(d) => d,
        None => 0,
    };
    let stem: &str = if split > 0 {
        file_name.substring_char(0, split)
    } else {
        file_name
    };
    proof {
        reveal_strlit(" (");
        reveal_strlit(")");
        reveal_strlit(".");
        assert(" ("@ =~= seq![' ', '(']);
        assert(")"@ =~= seq![')']);
        assert("."@ =~= seq!['.']);
        assert(stem@ =~= stem_of(file_name@));
    }
    let mut name = stem.to_owned();
    name.append(" (");
    append_decimal(&mut name, n);
    name.append(")");
    if split > 0 {
        name.append(".");
        let extension = file_name.substring_char(split + 1, end);
        assert(extension@ =~= file_name@.skip(split + 1));
        name.append(extension);
    }
    name
}

/// The number that a text of decimal digits stands for.
spec fn number(text: Seq<char>) -> int
    decreases text.len(),
{
    if text.len() == 0 {
        0
    } else {
        number(text.drop_last()) * 10 + (text.last() as int - 48)
    }
}

proof fn lemma_decimal(n: nat)
    ensures
        number(decimal(n)) == n,
        decimal(n).len() > 0,
    decreases n,
{
    if n < 10 {
        assert(decimal(n).drop_last() =~= Seq::empty());
        assert(number(Seq::empty()) == 0);
    } else {
        lemma_decimal(n / 10);
        assert(decimal(n).drop_last() =~= decimal(n / 10));
    }
}

/// No two numbers give the same name to try, so each try is for a new name.
pub proof fn law_candidates_differ(file_name: Seq<char>, m: nat, n: nat)
    requires
        m != n,
    ensures
        candidate(file_name, m) != candidate(file_name, n),
{
    crate::paths::law_stem_and_extension(file_name);
    lemma_decimal(m);
    lemma_decimal(n);
    let a = candidate(file_name, m);
    let b = candidate(file_name, n);
    if a == b {
        let tail = match extension_of(file_name) {
            Some(extension) => extension.len() + 2,
            None => 1,
        };
        let start = stem_of(file_name).len() + 2;
        if m > 0 && n > 0 {
            assert(a.len() == start + decimal(m).len() + tail);
            assert(b.len() == start + decimal(n).len() + tail);
            assert(a.subrange(start as int, a.len() - tail) =~= decimal(m));
            assert(b.subrange(start as int, b.len() - tail) =~= decimal(n));
        } else if m == 0 {
            assert(b.len() == start + decimal(n).len() + tail);
            assert(file_name.len() + 1 < b.len());
        } else {
            assert(a.len() == start + decimal(m).len() + tail);
            assert(file_name.len() + 1 < a.len());
        }
    }
}

/// The message for a path that names no file.
pub const NO_FILE_NAME: &'static str = "source has no file name";

/// The message for a move that found every name taken.
pub const NO_FREE_NAME: &'static str = "could not find a free quarantine name";

/// What to do next in a move, or how it ended. The number says which name is
/// meant for the picture in the folder.
#[derive(Debug, Clone, Copy, PartialEq, Eq, Structural)]
pub enum MoveAction {
    /// Make a second link to the file under the name, where that is free.
    Link(u32),
    /// Make an empty file under the name, where that is free.
    Reserve(u32),
    /// Write the file's contents into the new file.
    Copy(u32),
    /// Remove the file from where it was.
    RemoveSource(u32),
    /// Remove what was made under the name.
    RemoveDest(u32),
    /// The file has the name in the folder.
    Moved(u32),
    /// The file is where it was.
    Failed,
    /// Every name was taken; the file is where it was.
    NoFreeName,
    /// The path to move names no file.
    NoName,
}

/// How an action went.
#[derive(Debug, Clone, Copy, PartialEq, Eq, Structural)]
pub enum ActionOutcome {
    Done,
    /// There is a file of that name.
    Exists,
    Error,
}

/// The action that follows. A link comes first, since it cannot replace a
/// file; where the file system has none, the contents are copied into a new
/// file. The file is removed from where it was only when the folder has it
/// whole, and what was made is removed again when that fails.
pub open spec fn next_action(action: MoveAction, outcome: ActionOutcome) -> MoveAction {
    match (action, outcome) {
        (MoveAction::Link(n), ActionOutcome::Done) => MoveAction::RemoveSource(n),
        (MoveAction::Link(n), ActionOutcome::Exists) => if n >= LAST_NUMBER {
            MoveAction::NoFreeName
        } else {
            MoveAction::Link((n + 1) as u32)
        },
        (MoveAction::Link(n), ActionOutcome::Error) => MoveAction::Reserve(n),
        (MoveAction::Reserve(n), ActionOutcome::Done) => MoveAction::Copy(n),
        (MoveAction::Reserve(n), ActionOutcome::Exists) => if n >= LAST_NUMBER {
            MoveAction::NoFreeName
        } else {
            MoveAction::Reserve((n + 1) as u32)
        },
        (MoveAction::Reserve(n), ActionOutcome::Error) => MoveAction::Failed,
        (MoveAction::Copy(n), ActionOutcome::Done) => MoveAction::RemoveSource(n),
        (MoveAction::Copy(n), _) => MoveAction::RemoveDest(n),
        (MoveAction::RemoveSource(n), ActionOutcome::Done) => MoveAction::Moved(n),
        (MoveAction::RemoveSource(n), _) => MoveAction::RemoveDest(n),
        (MoveAction::RemoveDest(_), _) => MoveAction::Failed,
        (end, _) => end,
    }
}

/// The first action of a move, where `has_name` says whether the path names a
/// file.
pub open spec fn first_action(has_name: bool) -> MoveAction {
    if has_name {
        MoveAction::Link(0)
    } else {
        MoveAction::NoName
    }
}

/// Starts a move.
pub fn start_move(has_name: bool) -> (action: MoveAction)
    ensures
        action == first_action(has_name),
{
    if has_name {
        MoveAction::Link(0)
    } else {
        MoveAction::NoName
    }
}

/// Goes on with a move: from the last action and how it went to the next.
pub fn move_with_collision_avoidance(action: MoveAction, outcome: ActionOutcome) -> (next:
    MoveAction)
    ensures
        next == next_action(action, outcome),
{
    match (action, outcome) {
        (MoveAction::Link(n), ActionOutcome::Done) => MoveAction::RemoveSource(n),
        (MoveAction::Link(n), ActionOutcome::Exists) => {
            if n >= LAST_NUMBER {
                MoveAction::NoFreeName
            } else {
                MoveAction::Link(n + 1)
            }
        },
        (MoveAction::Link(n), ActionOutcome::Error) => MoveAction::Reserve(n),
        (MoveAction::Reserve(n), ActionOutcome::Done) => MoveAction::Copy(n),
        (MoveAction::Reserve(n), ActionOutcome::Exists) => {
            if n >= LAST_NUMBER {
                MoveAction::NoFreeName
            } else {
                MoveAction::Reserve(n + 1)
            }
        },
        (MoveAction::Reserve(n), ActionOutcome::Error) => MoveAction::Failed,
        (MoveAction::Copy(n), ActionOutcome::Done) => MoveAction::RemoveSource(n),
        (MoveAction::Copy(n), _) => MoveAction::RemoveDest(n),
        (MoveAction::RemoveSource(n), ActionOutcome::Done) => MoveAction::Moved(n),
        (MoveAction::RemoveSource(n), _) => MoveAction::RemoveDest(n),
        (MoveAction::RemoveDest(_), _) => MoveAction::Failed,
        (end, _) => end,
    }
}

/// What a move has made in the folder, and under which number.
pub enum Dest {
    Nothing,
    Part(u32),
    Whole(u32),
}

/// Where the file is.
pub struct World {
    /// It is where it was.
    pub source: bool,
    pub dest: Dest,
}

/// What an action does to the files, by how it went: one that fails does
/// nothing, but a copy that fails leaves a part. What is made is removed again,
/// or may stay where that fails.
pub open spec fn world_after(
    w: World,
    action: MoveAction,
    outcome: ActionOutcome,
) -> World {
    match (action, outcome) {
        (MoveAction::Link(n), ActionOutcome::Done) => World { dest: Dest::Whole(n), ..w },
        (MoveAction::Reserve(n), ActionOutcome::Done) => World { dest: Dest::Part(n), ..w },
        (MoveAction::Copy(n), ActionOutcome::Done) => World { dest: Dest::Whole(n), ..w },
        (MoveAction::RemoveSource(_), ActionOutcome::Done) => World { source: false, ..w },
        (MoveAction::RemoveDest(_), ActionOutcome::Done) => World { dest: Dest::Nothing, ..w },
        _ => w,
    }
}

/// The action after the first `n` outcomes of a move.
pub open spec fn action_after(has_name: bool, outcomes: Seq<ActionOutcome>, n: int) -> MoveAction
    decreases n,
{
    if n <= 0 {
        first_action(has_name)
    } else {
        next_action(action_after(has_name, outcomes, n - 1), outcomes[n - 1])
    }
}

/// The files after the first `n` outcomes of a move.
pub open spec fn world_at(has_name: bool, outcomes: Seq<ActionOutcome>, n: int) -> World
    decreases n,
{
    if n <= 0 {
        World { source: true, dest: Dest::Nothing }
    } else {
        world_after(
            world_at(has_name, outcomes, n - 1),
            action_after(has_name, outcomes, n - 1),
            outcomes[n - 1],
        )
    }
}

/// Whatever goes wrong in a move, the file is never lost: it is where it was or
/// whole in the folder. A move that ends well has it in the folder alone; one
/// that does not leaves it where it was. What a move removes from the folder is
/// what it made there.
pub proof fn law_move_loses_nothing(has_name: bool, outcomes: Seq<ActionOutcome>, n: int)
    ensures
        ({
            let w = world_at(has_name, outcomes, n);
            let action = action_after(has_name, outcomes, n);
            &&& w.source || w.dest is Whole
            &&& match action {
                MoveAction::Moved(k) => !w.source && w.dest == Dest::Whole(k),
                MoveAction::RemoveSource(k) => w.source && w.dest == Dest::Whole(k),
                MoveAction::Copy(k) => w.source && w.dest == Dest::Part(k),
                MoveAction::RemoveDest(k) => w.source && (w.dest == Dest::Part(k) || w.dest
                    == Dest::Whole(k)),
                MoveAction::Failed => w.source,
                _ => w.source && w.dest is Nothing,
            }
        }),
    decreases n,
{
    if n > 0 {
        law_move_loses_nothing(has_name, outcomes, n - 1);
    }
}

/// A move tries the numbers from 0 to [`LAST_NUMBER`] and no others.
pub proof fn law_move_numbers_are_bounded(has_name: bool, outcomes: Seq<ActionOutcome>, n: int)
    ensures
        match action_after(has_name, outcomes, n) {
            MoveAction::Link(k) => k <= LAST_NUMBER,
            MoveAction::Reserve(k) => k <= LAST_NUMBER,
            MoveAction::Copy(k) => k <= LAST_NUMBER,
            MoveAction::RemoveSource(k) => k <= LAST_NUMBER,
            MoveAction::RemoveDest(k) => k <= LAST_NUMBER,
            MoveAction::Moved(k) => k <= LAST_NUMBER,
            _ => true,
        },
    decreases n,
{
    if n > 0 {
        law_move_numbers_are_bounded(has_name, outcomes, n - 1);
    }
}

/// What stands where a folder for moved pictures should be.
#[derive(Debug, Clone, Copy, PartialEq, Eq, Structural)]
pub enum DirProbe {
    Directory,
    Other,
    Absent,
}

pub const DIR_TAKEN: &'static str =
    "退避フォルダのパスが既にファイルとして存在します（上書きしません）: ";

pub const DIR_NOT_CREATED: &'static str = "退避フォルダの作成に失敗しました: ";

/// What to do about a folder for moved pictures.
pub enum DirAction {
    Use,
    /// Something else has that name, and is not replaced. The message says so.
    Refuse(String),
    Create,
}

/// Decides how a folder for moved pictures is come by.
pub fn prepare_dir(dir: &String, probe: DirProbe) -> (action: DirAction)
    ensures
        match probe {
            DirProbe::Directory => action is Use,
            DirProbe::Other => action matches DirAction::Refuse(message) && message@ == DIR_TAKEN@
                + dir@,
            DirProbe::Absent => action is Create,
        },
{
    match probe {
        DirProbe::Directory => DirAction::Use,
        DirProbe::Other => {
            let mut message = DIR_TAKEN.to_owned();
            message.append(dir.as_str());
            DirAction::Refuse(message)
        },
        DirProbe::Absent => DirAction::Create,
    }
}

/// The message for a folder that could not be created.
pub fn not_created(error: &String) -> (message: String)
    ensures
        message@ == DIR_NOT_CREATED@ + error@,
{
    let mut message = DIR_NOT_CREATED.to_owned();
    message.append(error.as_str());
    message
}

} // verus!
