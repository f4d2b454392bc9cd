//! Which names a moved picture is tried under, and in which order things are
//! done.

use crate::decoder::{outcome_of, DecodeOutcome};
use crate::image_loader::{DecodeError, DecodedImage};
use crate::laws::pictures::{lemma_extension, lemma_no_dot};
use crate::paths::stem_of;
use crate::quarantine::{
    action_after, candidate, decimal, next_action, ActionOutcome, MoveAction, LAST_NUMBER,
};
use vstd::prelude::*;

verus! {

/// The number that a text of decimal digits stands for.
pub open spec fn value_of(text: Seq<char>) -> int
    decreases text.len(),
{
    if text.len() == 0 {
        0
    } else {
        value_of(text.drop_last()) * 10 + (text.last() as int - '0' as int)
    }
}

/// A number is written with digits alone, without a leading zero, and reads back
/// as it was.
pub proof fn law_number_reads_back(n: nat)
    ensures
        value_of(decimal(n)) == n,
        decimal(n).len() > 0,
        forall|i: int| 0 <= i < decimal(n).len() ==> '0' <= #[trigger] decimal(n)[i] <= '9',
        n > 0 ==> decimal(n)[0] != '0',
    decreases n,
{
    if n < 10 {
        assert(decimal(n).drop_last() =~= Seq::empty());
        assert(value_of(Seq::empty()) == 0);
    } else {
        law_number_reads_back(n / 10);
        assert(decimal(n).drop_last() =~= decimal(n / 10));
        assert forall|i: int| 0 <= i < decimal(n).len() implies '0' <= #[trigger] decimal(n)[i]
            <= '9' by {
            if i < decimal(n / 10).len() {
                assert(decimal(n)[i] == decimal(n / 10)[i]);
            }
        }
        assert(decimal(n)[0] == decimal(n / 10)[0]);
    }
}

/// A file keeps its own name where that is free. Otherwise its number stands
/// between its stem and its extension, in brackets behind a space.
pub proof fn law_name_keeps_stem_and_extension(stem: Seq<char>, extension: Seq<char>, n: nat)
    requires
        stem.len() > 0,
        !extension.contains('.'),
    ensures
        ({
            let name = stem + seq!['.'] + extension;
            &&& candidate(name, 0) == name
            &&& n > 0 ==> candidate(name, n) == stem + seq![' ', '('] + decimal(n) + seq![')', '.']
                + extension
        }),
{
    let name = stem + seq!['.'] + extension;
    lemma_extension(stem, extension);
    assert(name.take(stem.len() as int) =~= stem);
    assert(stem_of(name) =~= stem);
    if n > 0 {
        assert(candidate(name, n) =~= stem + seq![' ', '('] + decimal(n) + seq![')', '.']
            + extension);
    }
}

/// A name without an extension, or with no dot but a first one, has the number
/// at its end.
pub proof fn law_name_without_extension_is_numbered(name: Seq<char>, n: nat)
    requires
        forall|i: int| 0 < i < name.len() ==> name[i] != '.',
    ensures
        candidate(name, 0) == name,
        n > 0 ==> candidate(name, n) == name + seq![' ', '('] + decimal(n) + seq![')'],
{
    lemma_no_dot(name);
}

/// The names are tried in turn, from the file's own on, each once, as long as
/// they are taken; when the last is taken as well, there is none.
pub proof fn law_names_are_tried_in_turn(outcomes: Seq<ActionOutcome>, k: int)
    requires
        0 <= k <= LAST_NUMBER + 1,
        forall|j: int| 0 <= j < k ==> #[trigger] outcomes[j] == ActionOutcome::Exists,
    ensures
        k <= LAST_NUMBER ==> action_after(true, outcomes, k) == MoveAction::Link(k as u32),
        k == LAST_NUMBER + 1 ==> action_after(true, outcomes, k) == MoveAction::NoFreeName,
    decreases k,
{
    if k > 0 {
        law_names_are_tried_in_turn(outcomes, k - 1);
        assert(outcomes[k - 1] == ActionOutcome::Exists);
    }
}

/// The first free name is the one that the picture gets: linked and then removed
/// from where it was; or, where no link can be made, copied into a new file
/// under that name, and then removed.
pub proof fn law_first_free_name_is_used(outcomes: Seq<ActionOutcome>, k: int)
    requires
        0 <= k <= LAST_NUMBER,
        forall|j: int| 0 <= j < k ==> #[trigger] outcomes[j] == ActionOutcome::Exists,
    ensures
        outcomes[k] == ActionOutcome::Done && outcomes[k + 1] == ActionOutcome::Done
            ==> action_after(true, outcomes, k + 2) == MoveAction::Moved(k as u32),
        outcomes[k] == ActionOutcome::Error && outcomes[k + 1] == ActionOutcome::Done && outcomes[k
            + 2] == ActionOutcome::Done && outcomes[k + 3] == ActionOutcome::Done ==> action_after(
            true,
            outcomes,
            k + 4,
        ) == MoveAction::Moved(k as u32),
        outcomes[k] == ActionOutcome::Error && outcomes[k + 1] == ActionOutcome::Error
            ==> action_after(true, outcomes, k + 2) == MoveAction::Failed,
{
    law_names_are_tried_in_turn(outcomes, k);
    reveal_with_fuel(action_after, 5);
}

/// Where no link can be made, the names go on in turn from the one at which that
/// showed.
pub proof fn law_copies_are_tried_in_turn(n: u32)
    ensures
        next_action(MoveAction::Link(n), ActionOutcome::Error) == MoveAction::Reserve(n),
        n < LAST_NUMBER ==> next_action(MoveAction::Reserve(n), ActionOutcome::Exists)
            == MoveAction::Reserve((n + 1) as u32),
        n >= LAST_NUMBER ==> next_action(MoveAction::Reserve(n), ActionOutcome::Exists)
            == MoveAction::NoFreeName,
        next_action(MoveAction::Reserve(n), ActionOutcome::Done) == MoveAction::Copy(n),
        next_action(MoveAction::Copy(n), ActionOutcome::Done) == MoveAction::RemoveSource(n),
{
}

/// What was made under a name is taken away again when the move cannot be
/// ended, and then the move has failed. What has ended stays so.
pub proof fn law_failed_move_cleans_up(n: u32, outcome: ActionOutcome)
    ensures
        outcome != ActionOutcome::Done ==> next_action(MoveAction::Copy(n), outcome)
            == MoveAction::RemoveDest(n) && next_action(MoveAction::RemoveSource(n), outcome)
            == MoveAction::RemoveDest(n),
        next_action(MoveAction::RemoveDest(n), outcome) == MoveAction::Failed,
        next_action(MoveAction::Moved(n), outcome) == MoveAction::Moved(n),
        next_action(MoveAction::Failed, outcome) == MoveAction::Failed,
        next_action(MoveAction::NoFreeName, outcome) == MoveAction::NoFreeName,
        next_action(MoveAction::NoName, outcome) == MoveAction::NoName,
        action_after(false, Seq::empty(), 0) == MoveAction::NoName,
{
}

/// A worker says of a picture what came of the attempt to decode it: the same
/// picture, the same size where it is too large, and else why there is none.
pub proof fn law_outcome_tells_of_the_attempt(image: DecodedImage, w: u32, h: u32)
    ensures
        outcome_of(Ok(image)) == DecodeOutcome::Decoded(image),
        outcome_of(Err(DecodeError::Oversized { w, h })) == (DecodeOutcome::Oversized { w, h }),
        outcome_of(Err(DecodeError::Missing)) is Missing,
        outcome_of(Err(DecodeError::Failed)) is Failed,
{
}

} // verus!
