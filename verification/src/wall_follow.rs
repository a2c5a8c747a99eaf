//! Right-hand wall following: which manoeuvre to make from what the three
//! infrared sensors report.
//!
//! The sensor thresholds and wheel speeds belong to the caller; this module
//! holds the follower's memory (is it swinging back toward a lost right wall)
//! and its choice of manoeuvre.
use vstd::prelude::*;

verus! {

/// The infrared readings, compared with the follower's thresholds.
#[derive(Clone, Copy, Debug, PartialEq, Eq, Structural)]
pub struct WallReadings {
    /// The front sensor reads an obstacle at blocking distance.
    pub front_blocked: bool,
    /// The left sensor reads a wall too close.
    pub left_too_close: bool,
    /// The right sensor sees a wall.
    pub right_wall_visible: bool,
    /// The right sensor reads a wall too close.
    pub right_too_close: bool,
}

/// The follower's manoeuvre.
#[derive(Clone, Copy, Debug, PartialEq, Eq, Structural)]
pub enum WallFollowChoice {
    /// Blocked ahead with a wall on the right: turn left in place.
    TurnLeft,
    /// Too close to the right wall: arc to the left.
    EscapeRight,
    /// Too close to the left wall: arc to the right.
    AvoidLeft,
    /// The right wall was lost: arc to the right to find it again.
    RecoverEdge,
    /// Follow the wall straight ahead.
    Forward,
}

/// The follower's memory.
#[derive(Clone, Copy, Debug, PartialEq, Eq, Structural)]
pub struct RightWallFollowerState {
    /// Whether the follower is swinging back toward a lost right wall.
    pub recovering_right_wall: bool,
}

impl RightWallFollowerState {
    /// A follower that has not lost the wall.
    pub fn new() -> (r: Self)
        ensures
            !r.recovering_right_wall,
    {
        RightWallFollowerState { recovering_right_wall: false }
    }

    /// Chooses the next manoeuvre, in order of priority: turn left when
    /// blocked ahead with a wall on the right; escape a right wall that is too
    /// close; avoid a left wall that is too close; swing right while the right
    /// wall is lost; otherwise go forward. Losing the right wall starts a
    /// recovery, seeing it again (or turning or escaping) ends it.
    pub fn next_action(&mut self, r: WallReadings) -> (c: WallFollowChoice)
        ensures
            r.front_blocked && r.right_wall_visible ==> c == WallFollowChoice::TurnLeft
                && !final(self).recovering_right_wall,
            !(r.front_blocked && r.right_wall_visible) && r.right_too_close && !r.front_blocked ==> c
                == WallFollowChoice::EscapeRight && !final(self).recovering_right_wall,
            !(r.front_blocked && r.right_wall_visible) && !(r.right_too_close && !r.front_blocked)
                && r.left_too_close && !r.front_blocked ==> c == WallFollowChoice::AvoidLeft
                && final(self).recovering_right_wall == old(self).recovering_right_wall,
            !(r.front_blocked && r.right_wall_visible) && !(r.right_too_close && !r.front_blocked)
                && !(r.left_too_close && !r.front_blocked) ==> (if !r.right_wall_visible {
                c == WallFollowChoice::RecoverEdge && final(self).recovering_right_wall
            } else {
                c == WallFollowChoice::Forward && !final(self).recovering_right_wall
            }),
    {
        if r.front_blocked && r.right_wall_visible {
            self.recovering_right_wall = false;
            return WallFollowChoice::TurnLeft;
        }
        if r.right_too_close && !r.front_blocked {
            self.recovering_right_wall = false;
            return WallFollowChoice::EscapeRight;
        }
        if r.left_too_close && !r.front_blocked {
            return WallFollowChoice::AvoidLeft;
        }
        if !r.right_wall_visible {
            self.recovering_right_wall = true;
        }
        if self.recovering_right_wall {
            if r.right_wall_visible {
                self.recovering_right_wall = false;
            } else {
                return WallFollowChoice::RecoverEdge;
            }
        }
        WallFollowChoice::Forward
    }
}

} // verus!
