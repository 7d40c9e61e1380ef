//! The transfer engine's decisions. The filesystem calls themselves live
//! in the surrounding binary; what is verified here is the policy: rename
//! first, fall back to copy-then-delete exactly on a cross-device error,
//! and retry a refused removal exactly once after fixing permissions.

use vstd::prelude::*;

verus! {

/// How an attempted rename ended, as the surrounding binary observed it.
#[derive(Clone, Copy, PartialEq, Eq, Structural, Debug)]
pub enum RenameOutcome {
    /// The rename succeeded.
    Renamed,
    /// The rename failed with the cross-device error specifically.
    CrossDevice,
    /// The rename failed with any other error.
    Failed,
}

/// What the transfer engine does next after the rename attempt.
#[derive(Clone, Copy, PartialEq, Eq, Structural, Debug)]
pub enum TransferStep {
    /// The item is in place; nothing more to do.
    Done,
    /// Copy the item to the destination in full, then remove the source.
    /// The source is only removed after the copy completed, so no data is
    /// lost to a half-finished fallback.
    CopyThenDelete,
    /// Surface the error; the source is left in place.
    Fail,
}

/// The cross-device rename error as the operating system reports it.
pub open spec fn spec_cross_device_code() -> int {
    18
}

/// Whether a raw OS error code is the cross-device one.
pub fn is_cross_device_code(code: i32) -> (r: bool)
    ensures
        r == (code == spec_cross_device_code()),
{
    code == 18
}

/// The fallback decision: copy-then-delete exactly on a cross-device
/// failure, never on any other error — an arbitrary failure must surface
/// instead of triggering a copy whose source would then be deleted.
pub fn move_item_decision(outcome: &RenameOutcome) -> (r: TransferStep)
    ensures
        (r is CopyThenDelete) <==> (*outcome is CrossDevice),
        (r is Done) <==> (*outcome is Renamed),
        (r is Fail) <==> (*outcome is Failed),
{
    match outcome {
        RenameOutcome::Renamed => TransferStep::Done,
        RenameOutcome::CrossDevice => TransferStep::CopyThenDelete,
        RenameOutcome::Failed => TransferStep::Fail,
    }
}

/// What to do when removing the moved source fails.
#[derive(Clone, Copy, PartialEq, Eq, Structural, Debug)]
pub enum RemoveStep {
    /// Grant owner permissions recursively, then try the removal again.
    FixPermissionsAndRetry,
    /// Give up and surface the error; the source stays in place rather
    /// than being left half-deleted silently.
    GiveUp,
}

/// The removal retry policy: exactly one permission-fixing retry; a second
/// failure is surfaced.
pub fn remove_retry_decision(already_retried: bool) -> (r: RemoveStep)
    ensures
        (r is FixPermissionsAndRetry) <==> !already_retried,
        (r is GiveUp) <==> already_retried,
{
    if already_retried {
        RemoveStep::GiveUp
    } else {
        RemoveStep::FixPermissionsAndRetry
    }
}

} // verus!
