//! The decisions of the open-or-build protocol: at most one builder per
//! indexed file, arbitrated by a lock file, with bounded polling. The
//! caller performs the file operations and feeds the observations back.

use vstd::prelude::*;

verus! {

/// How many hundred-millisecond waits a builder tolerates before it gives
/// up on another process' lock.
pub const MAX_SLEEPS: u32 = 50;

/// What to do next, given what the cache directory shows.
pub enum BuildStep {
    /// Another process holds the lock: back off and look again.
    Wait,
    /// The database is there: open it read-only.
    OpenExisting,
    /// Nothing is there: try to create the lock with exclusive-create
    /// semantics and, on success, build.
    TryLock,
}

/// One more failed poll.
pub enum BuildError {
    /// The bounded wait for another process' build ran out.
    OtherProcessBuilder,
}

/// The next step of the open-or-build loop: an existing lock always means
/// waiting, an existing database is opened, and only bare ground is
/// claimed for building.
pub fn plan_step(db_exists: bool, lock_exists: bool) -> (r: BuildStep)
    ensures
        lock_exists ==> r is Wait,
        !lock_exists && db_exists ==> r is OpenExisting,
        !lock_exists && !db_exists ==> r is TryLock,
{
    if lock_exists {
        BuildStep::Wait
    } else if db_exists {
        BuildStep::OpenExisting
    } else {
        BuildStep::TryLock
    }
}

/// Books one poll against the bounded budget: past `MAX_SLEEPS` waits the
/// build fails instead of polling again.
pub fn backoff(sleeps: &mut u32) -> (r: Result<(), BuildError>)
    ensures
        *old(sleeps) > MAX_SLEEPS ==> r is Err && r->Err_0 is OtherProcessBuilder
            && *final(sleeps) == *old(sleeps),
        *old(sleeps) <= MAX_SLEEPS ==> r is Ok && *final(sleeps) == *old(sleeps) + 1,
{
    if *sleeps > MAX_SLEEPS {
        Err(BuildError::OtherProcessBuilder)
    } else {
        *sleeps = *sleeps + 1;
        Ok(())
    }
}

} // verus!
