//! The rules of the skin tracker: when the time of a player's stored skin is
//! renewed, and when the stored skin gives way to the one the player wears.

use vstd::prelude::*;
use vstd::string::*;

verus! {

/// For how many minutes a stored skin that is no longer seen is kept.
pub const SKIN_GRACE_MINUTES: i64 = 30;

/// The two passes over the players that are online.
#[derive(Clone, Copy, Debug, PartialEq, Eq, Structural)]
pub enum Pass {
    /// Renew the time of every stored skin that is still worn.
    Renew,
    /// Replace every stored skin that was last seen too long ago.
    Replace,
}

/// What is done with the stored skin of one player.
#[derive(Clone, Copy, Debug, PartialEq, Eq, Structural)]
pub enum SkinAction {
    /// Leave the stored skin and its time as they are.
    Leave,
    /// Set the time of the stored skin to now.
    RenewTime,
    /// Store the skin that is worn, with the time now.
    Replace,
}

/// What a pass does with the stored skin of a player who wears `worn` now.
/// The first pass renews the time of a stored skin that equals the worn one.
/// The second replaces a stored skin that differs from the worn one and whose
/// time lies more than thirty minutes before now. Times are in minutes.
pub open spec fn skin_action(
    pass: Pass,
    stored: Seq<char>,
    stored_time: int,
    worn: Seq<char>,
    now: int,
) -> SkinAction {
    match pass {
        Pass::Renew => if stored == worn {
            SkinAction::RenewTime
        } else {
            SkinAction::Leave
        },
        Pass::Replace => if stored != worn && stored_time + SKIN_GRACE_MINUTES < now {
            SkinAction::Replace
        } else {
            SkinAction::Leave
        },
    }
}

/// Decides what a pass does with the stored skin of one player.
pub fn decide_skin(pass: Pass, stored: &String, stored_time: i64, worn: &String, now: i64) -> (action:
    SkinAction)
    ensures
        action == skin_action(pass, stored@, stored_time as int, worn@, now as int),
{
    let same = *stored == *worn;
    match pass {
        Pass::Renew => if same {
            SkinAction::RenewTime
        } else {
            SkinAction::Leave
        },
        Pass::Replace => {
            let stale = stored_time <= i64::MAX - SKIN_GRACE_MINUTES && stored_time
                + SKIN_GRACE_MINUTES < now;
            if !same && stale {
                SkinAction::Replace
            } else {
                SkinAction::Leave
            }
        },
    }
}

} // verus!
