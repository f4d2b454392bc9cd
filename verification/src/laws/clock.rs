//! What happens when: every event by the clock comes neither early nor late.

use crate::app::{elapsed, save_noted, App, NANOS_PER_SEC, SAVE_FAILED};
use crate::frame::{
    advance_due, expired, freeze_switched, rescan_is_due, save_is_due, wait_time,
};
use crate::{ERROR_MSG_SECS, SAVE_THROTTLE_SECS};
use vstd::prelude::*;

verus! {

/// The time that has passed takes a reading to the later one; a clock that went
/// back counts as one that stood still.
pub proof fn law_time_passes(then: u64, now: u64)
    ensures
        then <= now ==> then + elapsed(then, now) == now,
        now <= then ==> elapsed(then, now) == 0,
{
}

/// The advance comes when the seconds that the user set have passed since the
/// last one, while the slideshow plays, has pictures, and neither is frozen nor
/// has halted.
pub proof fn law_advance_comes_on_time(app: App, suppressed: bool, now: u64)
    requires
        app.settings.wf(),
        app.last_advance <= now,
    ensures
        advance_due(app, suppressed, now) <==> {
            &&& now >= app.last_advance + app.settings.interval_secs * NANOS_PER_SEC
            &&& app.playing
            &&& !app.halted
            &&& !app.freeze_active
            &&& !suppressed
            &&& app.pb.order.len() > 0
        },
{
}

/// No advance comes before a second has passed, even after the clock went back.
pub proof fn law_advance_is_never_early(app: App, suppressed: bool, now: u64)
    requires
        app.settings.wf(),
        now < app.last_advance + NANOS_PER_SEC,
    ensures
        !advance_due(app, suppressed, now),
{
}

/// A look at the folder is due when its interval has passed since the last one,
/// while the slideshow goes on with a folder.
pub proof fn law_look_comes_on_time(app: App, now: u64)
    requires
        app.last_rescan <= now,
    ensures
        rescan_is_due(app, now) <==> {
            &&& now >= app.last_rescan + app.rescan_interval
            &&& app.settings.folder is Some
            &&& !app.halted
        },
{
}

/// A save is due when something is to be saved, a folder has been chosen, and
/// the last save is [`SAVE_THROTTLE_SECS`] back. Once it went well, none is due
/// until something changes; one that failed leaves the state to be saved, and
/// says so.
pub proof fn law_save_comes_on_time(app: App, now: u64, failure: String, later: u64)
    requires
        app.last_saved <= now,
    ensures
        save_is_due(app, now) <==> {
            &&& now >= app.last_saved + SAVE_THROTTLE_SECS * NANOS_PER_SEC
            &&& app.dirty
            &&& app.settings.folder is Some
        },
        ({
            let next = save_noted(app, Ok(()), now);
            &&& !save_is_due(next, later)
            &&& !next.dirty
            &&& next.last_saved == now
            &&& next == (App { dirty: false, last_saved: now, ..app })
        }),
        ({
            let next = save_noted(app, Err(failure), now);
            &&& next.dirty == app.dirty
            &&& next.last_saved == app.last_saved
            &&& next.error matches Some((text, _)) && text == SAVE_FAILED@ + failure@
            &&& next == (App { error: next.error, ..app })
        }),
        SAVE_THROTTLE_SECS == 5,
        NANOS_PER_SEC == 1_000_000_000,
{
}

/// A message is shown for [`ERROR_MSG_SECS`] and no longer. It changes nothing
/// else, nor does its end.
pub proof fn law_message_has_its_time(app: App, text: Seq<char>, now: u64, later: u64)
    requires
        now + ERROR_MSG_SECS * NANOS_PER_SEC <= u64::MAX,
    ensures
        ({
            let next = expired(app.with_error(text, now), later);
            &&& later < now + ERROR_MSG_SECS * NANOS_PER_SEC ==> {
                &&& next.error matches Some((shown, _)) && shown == text
                &&& next == app.with_error(text, now)
            }
            &&& later >= now + ERROR_MSG_SECS * NANOS_PER_SEC ==> next.error is None
            &&& next == (App { error: next.error, ..app })
        }),
        app.error is None ==> expired(app, later) == app,
        ERROR_MSG_SECS == 4,
{
}

/// The wait is a second at most, and ends no later than the next advance and
/// the next look at the folder: at the end of it the first of these is due, or
/// a second has passed.
pub proof fn law_wait_ends_with_an_event(app: App, now: u64)
    requires
        app.settings.wf(),
        app.last_advance <= now,
        app.last_rescan <= now,
        app.last_rescan + app.rescan_interval <= u64::MAX,
        now + NANOS_PER_SEC <= u64::MAX,
        !app.halted,
    ensures
        ({
            let wait = wait_time(app, now);
            &&& wait <= NANOS_PER_SEC
            &&& forall|t: u64| now <= t < now + wait ==> !(#[trigger] advance_due(app, false, t))
            &&& forall|t: u64| now <= t < now + wait ==> !(#[trigger] rescan_is_due(app, t))
            &&& wait < NANOS_PER_SEC ==> advance_due(app, false, (now + wait) as u64)
                || rescan_is_due(app, (now + wait) as u64)
        }),
{
    let wait = wait_time(app, now);
    let end = (now + wait) as u64;
    assert forall|t: u64| now <= t < now + wait implies !(#[trigger] advance_due(
        app,
        false,
        t,
    )) by {
        law_advance_comes_on_time(app, false, t);
    }
    law_advance_comes_on_time(app, false, end);
    law_look_comes_on_time(app, end);
}

/// Freezing and letting go change the clock of the advance and nothing else;
/// where neither happens, nothing changes. What is kept while the advance is
/// frozen is what was left of the interval.
pub proof fn law_freeze_touches_only_the_clock(app: App, frozen: bool, now: u64)
    requires
        app.settings.wf(),
        app.last_advance <= now,
    ensures
        ({
            let next = freeze_switched(app, frozen, now);
            let interval = app.settings.interval_secs * NANOS_PER_SEC;
            &&& next.freeze_active == frozen
            &&& frozen == app.freeze_active ==> next == app
            &&& next == (App {
                last_advance: next.last_advance,
                frozen_remaining: next.frozen_remaining,
                freeze_active: next.freeze_active,
                ..app
            })
            &&& frozen && !app.freeze_active ==> {
                &&& next.last_advance == app.last_advance
                &&& next.frozen_remaining matches Some(left) && if now >= app.last_advance
                    + interval {
                    left == 0
                } else {
                    now + left == app.last_advance + interval
                }
            }
            &&& !frozen && app.freeze_active ==> {
                &&& next.frozen_remaining is None
                &&& next.last_advance <= now
                &&& app.frozen_remaining matches Some(left) ==> (left <= interval && now
                    >= interval ==> next.last_advance + interval == now + left)
                &&& app.frozen_remaining is None ==> next.last_advance == now
            }
        }),
{
}

} // verus!
