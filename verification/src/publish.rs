//! Putting a rebuilt index in place.
//!
//! A first build writes its tables where they belong. A rebuild writes them to
//! a staging directory, which is then swapped in: the index in place is moved
//! aside, the staging directory takes its place, and what was moved aside is
//! removed, or moved back if the swap fails. So there is never a half-written
//! index in place.
//!
//! Nothing here touches a disk. [`next_action`] says what to do next, given
//! what became of the last action.

use crate::text::{lossy_text, text_from_bytes};
use vstd::prelude::*;
use vstd::slice::slice_to_vec;
use vstd::string::StringExecFns;
use vstd::utf8::encode_utf8;

verus! {

/// Attempts at a cleanup that may fail transiently.
pub const RETRY_ATTEMPTS: u32 = 5;

/// How often publishing is attempted. Windows retries because antivirus can
/// hold a freshly written index open for seconds; elsewhere there is no need.
pub fn publish_attempts(windows: bool) -> (attempts: u32)
    ensures
        attempts == if windows {
            6u32
        } else {
            1u32
        },
{
    if windows {
        6
    } else {
        1
    }
}

/// Errors that may be transient on Windows: access denied, sharing violation
/// and lock violation.
pub open spec fn is_retryable(code: Option<i32>, windows: bool) -> bool {
    windows && (code == Some(5i32) || code == Some(32i32) || code == Some(33i32))
}

/// Whether an operating system error may be transient, so that a retry can
/// succeed.
pub fn retryable(code: Option<i32>, windows: bool) -> (yes: bool)
    ensures
        yes == is_retryable(code, windows),
{
    match code {
        Some(c) => windows && (c == 5 || c == 32 || c == 33),
        None => false,
    }
}

/// `base`, doubled `attempt` times but at most three times.
pub open spec fn backoff(base: int, attempt: u32) -> int {
    if attempt == 0 {
        base
    } else if attempt == 1 {
        2 * base
    } else if attempt == 2 {
        4 * base
    } else {
        8 * base
    }
}

/// Milliseconds between publish attempts on Windows: 1s, 2s, 4s, 8s, 8s, ...
pub fn publish_backoff(attempt: u32) -> (ms: u64)
    ensures
        ms == backoff(1000, attempt),
{
    if attempt == 0 {
        1000
    } else if attempt == 1 {
        2000
    } else if attempt == 2 {
        4000
    } else {
        8000
    }
}

/// Milliseconds between cleanup attempts: 50ms, 100ms, 200ms, 400ms, ...
pub fn transient_backoff(attempt: u32) -> (ms: u64)
    ensures
        ms == backoff(50, attempt),
{
    if attempt == 0 {
        50
    } else if attempt == 1 {
        100
    } else if attempt == 2 {
        200
    } else {
        400
    }
}

/// What became of a recursive delete.
#[derive(Copy, Clone, PartialEq, Eq, Structural, Debug)]
pub enum RemoveOutcome {
    /// It is gone.
    Removed,
    /// It was not there.
    NotFound,
    /// It failed, perhaps only for now.
    Failed { retryable: bool },
}

/// Whether to try a delete again after attempt number `attempt`, and after how
/// many milliseconds.
///
/// A missing path counts as success, like `rm -rf`. What cannot be deleted is
/// left.
pub fn retry_remove(attempt: u32, outcome: RemoveOutcome) -> (wait: Option<u64>)
    requires
        attempt < RETRY_ATTEMPTS,
    ensures
        wait == if outcome == (RemoveOutcome::Failed { retryable: true }) && attempt + 1
            < RETRY_ATTEMPTS {
            Some(backoff(50, attempt) as u64)
        } else {
            None
        },
{
    match outcome {
        RemoveOutcome::Failed { retryable } => {
            if retryable && attempt + 1 < RETRY_ATTEMPTS {
                Some(transient_backoff(attempt))
            } else {
                None
            }
        },
        RemoveOutcome::Removed => None,
        RemoveOutcome::NotFound => None,
    }
}

/// The directory beside `index_dir` whose name ends in `suffix`.
pub fn sibling_dir(index_dir: &[u8], suffix: &str) -> (path: String)
    ensures
        path@ == lossy_text(index_dir@) + suffix@,
{
    let mut path = text_from_bytes(index_dir);
    path.append(suffix);
    path
}

/// Where the tables of a build are written, and whether they have to be
/// published: in place if there is no index yet, which needs no rename, and in
/// the staging directory otherwise.
pub fn prepare_index_dir(index_dir: &[u8], occupied: bool) -> (target: (Vec<u8>, bool))
    ensures
        target.0@ == if occupied {
            encode_utf8(lossy_text(index_dir@) + ".tmp"@)
        } else {
            index_dir@
        },
        target.1 == occupied,
{
    if occupied {
        let staging = sibling_dir(index_dir, ".tmp");
        (slice_to_vec(staging.as_str().as_bytes()), true)
    } else {
        (slice_to_vec(index_dir), false)
    }
}

/// What to do next to publish an index.
#[derive(Copy, Clone, PartialEq, Eq, Structural, Debug)]
pub enum PublishAction {
    /// Delete what an earlier attempt moved aside, if it is there.
    RemoveStale,
    /// Look whether there is an index in place.
    LookForIndex,
    /// Move the index in place aside.
    MoveAside,
    /// Move the staging directory in place.
    MoveIn,
    /// Move back what was moved aside, whatever becomes of it, and then try
    /// again if `again`.
    RollBack { again: bool },
    /// Wait so many milliseconds.
    Wait { ms: u64 },
    /// Delete what was moved aside; the new index is in place.
    RemoveOld,
    /// The new index is in place.
    Finish,
    /// The new index could not be put in place.
    GiveUp,
}

/// What became of an action.
#[derive(Copy, Clone, PartialEq, Eq, Structural, Debug)]
pub enum PublishEvent {
    /// It is done, as far as it could be.
    Done,
    /// There is an index in place, or there is none.
    Found { exists: bool },
    /// It failed, perhaps only for now.
    Failed { retryable: bool },
}

/// Where a publication is: the number of the attempt, whether it moved the
/// index in place aside, and what is being done.
#[derive(Copy, Clone, PartialEq, Eq, Structural, Debug)]
pub struct Publication {
    pub attempt: u32,
    pub attempts: u32,
    pub windows: bool,
    pub moved_aside: bool,
    pub action: PublishAction,
}

/// The event answers the action.
pub open spec fn answers(action: PublishAction, event: PublishEvent) -> bool {
    match action {
        PublishAction::LookForIndex => event is Found,
        PublishAction::MoveAside | PublishAction::MoveIn => event is Done || event is Failed,
        PublishAction::Finish | PublishAction::GiveUp => false,
        _ => event is Done,
    }
}

/// There is another attempt after this one.
pub open spec fn has_more(p: Publication) -> bool {
    p.attempt + 1 < p.attempts
}

/// `p` with another action.
pub open spec fn doing(p: Publication, action: PublishAction) -> Publication {
    Publication {
        attempt: p.attempt,
        attempts: p.attempts,
        windows: p.windows,
        moved_aside: p.moved_aside,
        action,
    }
}

/// `p` moves the new index in, after moving the old one aside or with none in
/// place.
pub open spec fn moving_in(p: Publication, moved_aside: bool) -> Publication {
    Publication {
        attempt: p.attempt,
        attempts: p.attempts,
        windows: p.windows,
        moved_aside,
        action: PublishAction::MoveIn,
    }
}

/// What comes after an attempt that failed: another one after a pause, or none.
pub open spec fn after_failure(p: Publication, again: bool) -> Publication {
    if again {
        pause(p)
    } else {
        doing(p, PublishAction::GiveUp)
    }
}

/// What a failed attempt waits for before the next one.
pub open spec fn pause(p: Publication) -> Publication {
    doing(
        p,
        PublishAction::Wait {
            ms: if p.windows {
                backoff(1000, p.attempt) as u64
            } else {
                0
            },
        },
    )
}

/// The state after an action was answered by an event. An attempt moves back
/// only what it moved aside itself.
pub open spec fn next_publication(p: Publication, event: PublishEvent) -> Publication {
    match (p.action, event) {
        (PublishAction::RemoveStale, _) => doing(p, PublishAction::LookForIndex),
        (PublishAction::LookForIndex, PublishEvent::Found { exists }) => if exists {
            doing(p, PublishAction::MoveAside)
        } else {
            moving_in(p, false)
        },
        (PublishAction::MoveAside, PublishEvent::Failed { retryable }) => after_failure(
            p,
            retryable && has_more(p),
        ),
        (PublishAction::MoveAside, _) => moving_in(p, true),
        (PublishAction::MoveIn, PublishEvent::Failed { retryable }) => if p.moved_aside {
            doing(p, PublishAction::RollBack { again: retryable && has_more(p) })
        } else {
            after_failure(p, retryable && has_more(p))
        },
        (PublishAction::MoveIn, _) => doing(p, PublishAction::RemoveOld),
        (PublishAction::RollBack { again }, _) => after_failure(p, again),
        (PublishAction::Wait { .. }, _) => if has_more(p) {
            Publication {
                attempt: (p.attempt + 1) as u32,
                attempts: p.attempts,
                windows: p.windows,
                moved_aside: false,
                action: PublishAction::RemoveStale,
            }
        } else {
            doing(p, PublishAction::GiveUp)
        },
        (PublishAction::RemoveOld, _) => doing(p, PublishAction::Finish),
        _ => p,
    }
}

/// How a publication starts.
pub open spec fn first_publication(windows: bool) -> Publication {
    Publication {
        attempt: 0,
        attempts: if windows {
            6u32
        } else {
            1u32
        },
        windows,
        moved_aside: false,
        action: PublishAction::RemoveStale,
    }
}

impl Publication {
    /// The start of a publication.
    pub fn start(windows: bool) -> (p: Self)
        ensures
            p == first_publication(windows),
    {
        Publication {
            attempt: 0,
            attempts: publish_attempts(windows),
            windows,
            moved_aside: false,
            action: PublishAction::RemoveStale,
        }
    }

    /// This state with another action.
    fn with(self, action: PublishAction) -> (p: Self)
        ensures
            p == doing(self, action),
    {
        Publication {
            attempt: self.attempt,
            attempts: self.attempts,
            windows: self.windows,
            moved_aside: self.moved_aside,
            action,
        }
    }

    /// Move the new index in.
    fn move_in(self, moved_aside: bool) -> (p: Self)
        ensures
            p == moving_in(self, moved_aside),
    {
        Publication {
            attempt: self.attempt,
            attempts: self.attempts,
            windows: self.windows,
            moved_aside,
            action: PublishAction::MoveIn,
        }
    }

    /// Wait before the next attempt, or give up.
    fn failed(self, again: bool) -> (p: Self)
        ensures
            p == after_failure(self, again),
    {
        if again {
            let ms: u64 = if self.windows {
                publish_backoff(self.attempt)
            } else {
                0
            };
            self.with(PublishAction::Wait { ms })
        } else {
            self.with(PublishAction::GiveUp)
        }
    }

    /// Whether there is another attempt.
    fn more(self) -> (yes: bool)
        ensures
            yes == has_more(self),
    {
        self.attempt < self.attempts && self.attempts - self.attempt > 1
    }
}

/// What to do next, given what became of the last action.
pub fn next_action(p: Publication, event: PublishEvent) -> (next: Publication)
    ensures
        next == next_publication(p, event),
{
    match (p.action, event) {
        (PublishAction::RemoveStale, _) => p.with(PublishAction::LookForIndex),
        (PublishAction::LookForIndex, PublishEvent::Found { exists }) => {
            if exists {
                p.with(PublishAction::MoveAside)
            } else {
                p.move_in(false)
            }
        },
        (PublishAction::MoveAside, PublishEvent::Failed { retryable }) => {
            p.failed(retryable && p.more())
        },
        (PublishAction::MoveAside, _) => p.move_in(true),
        (PublishAction::MoveIn, PublishEvent::Failed { retryable }) => {
            let again: bool = retryable && p.more();
            if p.moved_aside {
                p.with(PublishAction::RollBack { again })
            } else {
                p.failed(again)
            }
        },
        (PublishAction::MoveIn, _) => p.with(PublishAction::RemoveOld),
        (PublishAction::RollBack { again }, _) => p.failed(again),
        (PublishAction::Wait { .. }, _) => {
            if p.more() {
                Publication {
                    attempt: p.attempt + 1,
                    attempts: p.attempts,
                    windows: p.windows,
                    moved_aside: false,
                    action: PublishAction::RemoveStale,
                }
            } else {
                p.with(PublishAction::GiveUp)
            }
        },
        (PublishAction::RemoveOld, _) => p.with(PublishAction::Finish),
        _ => p,
    }
}

/// What a directory holds.
pub ghost enum Slot {
    /// It does not exist.
    Absent,
    /// The index that was there before, whole.
    Old,
    /// The new index, whole.
    New,
    /// What a delete that failed halfway left.
    Partial,
}

/// The three directories of a publication.
pub ghost struct Disk {
    pub index: Slot,
    pub stale: Slot,
    pub staging: Slot,
}

/// What an action does to the directories when an event answers it. A rename
/// happens or fails as a whole, and only to where nothing is or an empty
/// directory was left; a delete may leave all or a part of what was there.
pub open spec fn takes_effect(
    action: PublishAction,
    event: PublishEvent,
    before: Disk,
    after: Disk,
) -> bool {
    match action {
        PublishAction::RemoveStale | PublishAction::RemoveOld => after.index == before.index
            && after.staging == before.staging && (after.stale == before.stale || after.stale
            == Slot::Absent || (before.stale != Slot::Absent && after.stale == Slot::Partial)),
        PublishAction::LookForIndex => after == before && event == (PublishEvent::Found {
            exists: before.index != Slot::Absent,
        }),
        PublishAction::MoveAside => match event {
            PublishEvent::Done => (before.stale == Slot::Absent || before.stale == Slot::Partial)
                && after == (Disk {
                index: Slot::Absent,
                stale: before.index,
                staging: before.staging,
            }),
            _ => after == before,
        },
        PublishAction::MoveIn => match event {
            PublishEvent::Done => before.index == Slot::Absent && after == (Disk {
                index: before.staging,
                stale: before.stale,
                staging: Slot::Absent,
            }),
            _ => after == before,
        },
        PublishAction::RollBack { .. } => after == before || (before.index == Slot::Absent && after
            == (Disk { index: before.stale, stale: Slot::Absent, staging: before.staging })),
        _ => after == before,
    }
}

/// What holds of the directories while an action is under way: the new index is
/// staged until it is in place, nothing else is new, it is moved in only where
/// nothing is, and only a whole index is moved back.
pub open spec fn is_safe(p: Publication, disk: Disk) -> bool {
    match p.action {
        PublishAction::RemoveOld | PublishAction::Finish => disk.index == Slot::New && disk.staging
            == Slot::Absent && disk.stale != Slot::New,
        PublishAction::MoveIn => disk.staging == Slot::New && disk.index == Slot::Absent
            && disk.stale != Slot::New && (p.moved_aside ==> disk.stale == Slot::Old),
        PublishAction::RollBack { .. } => disk.staging == Slot::New && disk.index == Slot::Absent
            && disk.stale == Slot::Old,
        PublishAction::MoveAside => disk.staging == Slot::New && disk.index == Slot::Old
            && disk.stale != Slot::New,
        _ => disk.staging == Slot::New && (disk.index == Slot::Absent || disk.index == Slot::Old)
            && disk.stale != Slot::New,
    }
}

/// Publishing starts safely: with the new index staged and the old one, or
/// none, in place.
pub proof fn publication_starts_safely(windows: bool, disk: Disk)
    requires
        disk.staging == Slot::New,
        disk.index == Slot::Absent || disk.index == Slot::Old,
        disk.stale != Slot::New,
    ensures
        is_safe(first_publication(windows), disk),
{
}

/// At every step of a publication, a crash leaves a whole index in place, the
/// old or the new, or none; the new one goes only where none is; and when it
/// finishes, the new one is there. When it gives up, the old one is in place or
/// none.
pub proof fn publication_stays_safe(
    p: Publication,
    event: PublishEvent,
    before: Disk,
    after: Disk,
)
    requires
        is_safe(p, before),
        answers(p.action, event),
        takes_effect(p.action, event, before, after),
    ensures
        is_safe(next_publication(p, event), after),
        after.index != Slot::Partial,
        next_publication(p, event).action == PublishAction::GiveUp ==> after.index == Slot::Old
            || after.index == Slot::Absent,
        next_publication(p, event).action == PublishAction::Finish ==> after.index == Slot::New,
        after.index == Slot::New <==> next_publication(p, event).action
            == PublishAction::RemoveOld || next_publication(p, event).action
            == PublishAction::Finish,
{
}

/// A failed swap can be rolled back: if the old index was moved aside and the
/// new one could not be moved in, the old one is still whole, moving it back is
/// the next thing to do, and a move that happens puts it in place again.
pub proof fn failed_swap_rolls_back(
    p: Publication,
    retryable: bool,
    before: Disk,
    aside: Disk,
    failed: Disk,
    back: Disk,
)
    requires
        p.action == PublishAction::MoveAside,
        is_safe(p, before),
        takes_effect(PublishAction::MoveAside, PublishEvent::Done, before, aside),
        takes_effect(PublishAction::MoveIn, PublishEvent::Failed { retryable }, aside, failed),
        takes_effect(
            next_publication(
                next_publication(p, PublishEvent::Done),
                PublishEvent::Failed { retryable },
            ).action,
            PublishEvent::Done,
            failed,
            back,
        ),
    ensures
        next_publication(
            next_publication(p, PublishEvent::Done),
            PublishEvent::Failed { retryable },
        ).action is RollBack,
        failed.stale == Slot::Old,
        back == failed || back == (Disk { stale: Slot::Absent, ..before }),
{
}

/// How much of a publication is left, at most.
pub open spec fn steps_left(p: Publication) -> int {
    let rank: int = match p.action {
        PublishAction::RemoveStale => 7,
        PublishAction::LookForIndex => 6,
        PublishAction::MoveAside => 5,
        PublishAction::MoveIn => 4,
        PublishAction::RollBack { .. } => 3,
        PublishAction::RemoveOld => 3,
        PublishAction::Wait { .. } => 2,
        PublishAction::Finish => 0,
        PublishAction::GiveUp => 0,
    };
    if rank == 0 {
        0
    } else if p.attempts > p.attempt {
        8 * (p.attempts - p.attempt) + rank
    } else {
        rank
    }
}

/// A publication comes to an end.
pub proof fn publication_ends(p: Publication, event: PublishEvent)
    requires
        answers(p.action, event),
    ensures
        0 <= steps_left(next_publication(p, event)) < steps_left(p),
{
}

/// How many files each worker gets when `count` files are shared among
/// `threads`.
pub fn chunk_size(count: usize, threads: usize) -> (size: usize)
    ensures
        size >= 1,
        ({
            let workers = if threads >= 1 {
                threads as int
            } else {
                1
            };
            &&& size * workers >= count
            &&& size > 1 ==> (size - 1) * workers < count
        }),
{
    let workers: usize = if threads >= 1 {
        threads
    } else {
        1
    };
    let whole: usize = count / workers;
    assert(whole * workers + count % workers == count && count % workers < workers) by (nonlinear_arith)
        requires
            workers >= 1,
            whole == count / workers,
    ;
    if whole * workers == count {
        if whole >= 1 {
            assert((whole - 1) * workers < count) by (nonlinear_arith)
                requires
                    workers >= 1,
                    whole * workers == count,
            ;
            whole
        } else {
            assert(count == 0) by (nonlinear_arith)
                requires
                    whole * workers == count,
                    whole == 0,
            ;
            1
        }
    } else {
        assert((whole + 1) * workers >= count && whole + 1 <= count) by (nonlinear_arith)
            requires
                workers >= 1,
                whole * workers < count,
                count < whole * workers + workers,
                whole >= 0,
        ;
        whole + 1
    }
}

/// Which errors are worth a retry: on Windows, access denied, a sharing
/// violation and a lock violation. Elsewhere none is.
pub proof fn transient_errors_by_number(code: Option<i32>, windows: bool)
    ensures
        is_retryable(code, windows) <==> windows && (code matches Some(n) && (n == 5 || n == 32
            || n == 33)),
{
}

/// Pauses double from one attempt to the next, three times.
pub proof fn pauses_double_three_times(base: int, attempt: u32)
    requires
        attempt < u32::MAX,
    ensures
        backoff(base, 0) == base,
        attempt < 3 ==> backoff(base, (attempt + 1) as u32) == 2 * backoff(base, attempt),
        attempt >= 3 ==> backoff(base, (attempt + 1) as u32) == backoff(base, attempt),
{
}

/// Where nothing fails, an attempt goes straight on to its end: what an earlier
/// one left is removed, the index in place is moved aside if there is one, the
/// new one is moved in, and the old one is removed.
pub proof fn attempt_without_failures_finishes(start: Publication, windows: bool, exists: bool)
    requires
        start.action == PublishAction::RemoveStale,
    ensures
        first_publication(windows).action == PublishAction::RemoveStale,
        first_publication(windows).windows == windows,
        ({
            let look = next_publication(start, PublishEvent::Done);
            let found = next_publication(look, PublishEvent::Found { exists });
            let moved = if exists {
                next_publication(found, PublishEvent::Done)
            } else {
                found
            };
            let cleaning = next_publication(moved, PublishEvent::Done);
            let end = next_publication(cleaning, PublishEvent::Done);
            &&& look.action == PublishAction::LookForIndex
            &&& exists ==> found.action == PublishAction::MoveAside
            &&& moved.action == PublishAction::MoveIn && moved.moved_aside == exists
            &&& moved.attempt == start.attempt && moved.attempts == start.attempts
                && moved.windows == start.windows
            &&& found.attempt == start.attempt && found.attempts == start.attempts
                && found.windows == start.windows
            &&& cleaning.action == PublishAction::RemoveOld
            &&& end.action == PublishAction::Finish
        }),
{
}

/// A failure ends a publication only if it is not worth a retry or if all
/// attempts are used up: six on Windows, one elsewhere. Otherwise the next
/// attempt starts over, after a pause, with what was moved aside moved back
/// first.
pub proof fn failures_are_retried(p: Publication, retryable: bool)
    requires
        p.attempt < p.attempts,
        p.action == PublishAction::MoveAside || p.action == PublishAction::MoveIn,
        p.action == PublishAction::MoveAside ==> !p.moved_aside,
    ensures
        first_publication(true).attempts == 6 && first_publication(false).attempts == 1,
        first_publication(true).attempt == 0 && first_publication(false).attempt == 0,
        ({
            let failed = next_publication(p, PublishEvent::Failed { retryable });
            let after = if p.moved_aside {
                next_publication(failed, PublishEvent::Done)
            } else {
                failed
            };
            let again = next_publication(after, PublishEvent::Done);
            &&& p.moved_aside <==> failed.action is RollBack
            &&& if retryable && p.attempt + 1 < p.attempts {
                &&& after.action == (PublishAction::Wait {
                    ms: if !p.windows {
                        0
                    } else if p.attempt == 0 {
                        1000
                    } else if p.attempt == 1 {
                        2000
                    } else if p.attempt == 2 {
                        4000
                    } else {
                        8000
                    },
                })
                &&& again.action == PublishAction::RemoveStale
                &&& again.attempt == p.attempt + 1
                &&& again.attempts == p.attempts && again.windows == p.windows
                &&& !again.moved_aside
            } else {
                after.action == PublishAction::GiveUp
            }
        }),
{
}

/// A delete that may succeed later is tried five times in all.
pub proof fn deletes_are_tried_five_times()
    ensures
        RETRY_ATTEMPTS == 5,
{
}

} // verus!
