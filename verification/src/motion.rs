//! The motion controller of the mapping agent: turning in place, driving one
//! cell, settling, and backing off after a collision.
//!
//! The controller's decisions depend on a few observations that the caller
//! derives from the sensors (is the heading within tolerance, is the way
//! ahead blocked, has the drive covered a cell, is the way behind blocked).
//! Motor powers are the caller's business; the controller says which kind of
//! command to give.
use vstd::prelude::*;
use crate::dir::Dir;

verus! {

/// Cycles spent backing off after a collision.
pub const BACKUP_CYCLES: u32 = 6;
/// Most cycles spent driving toward the next cell.
pub const DRIVE_CYCLES: u32 = 26;
/// Cycles spent standing still after a drive.
pub const SETTLE_CYCLES: u32 = 4;
/// Consecutive in-tolerance cycles that end a turn.
pub const TURN_EXIT_K: u32 = 3;
/// Fewest cycles a turn is given.
pub const TURN_MIN_CYCLES: u32 = 10;
/// Most cycles a turn is given.
pub const TURN_MAX_CYCLES: u32 = 36;

/// The motion in progress.
#[derive(Clone, Copy, Debug, PartialEq, Eq, Structural)]
pub enum Motion {
    Idle,
    Turning { target_dir: Dir, cycles_left: u32 },
    Driving { cycles_left: u32 },
    Settling { cycles_left: u32 },
    Backup { cycles_left: u32 },
}

impl Motion {
    /// The name of the motion's kind.
    pub open spec fn kind_spec(self) -> Seq<char> {
        match self {
            Motion::Idle => "Idle"@,
            Motion::Turning { .. } => "Turning"@,
            Motion::Driving { .. } => "Driving"@,
            Motion::Settling { .. } => "Settling"@,
            Motion::Backup { .. } => "Backup"@,
        }
    }

    /// The name of the motion's kind.
    pub fn kind(&self) -> (r: &'static str)
        ensures
            r@ == self.kind_spec(),
    {
        match self {
            Motion::Idle => "Idle",
            Motion::Turning { .. } => "Turning",
            Motion::Driving { .. } => "Driving",
            Motion::Settling { .. } => "Settling",
            Motion::Backup { .. } => "Backup",
        }
    }
}

/// What the caller observed this cycle.
#[derive(Clone, Copy, Debug, PartialEq, Eq, Structural)]
pub struct MotionObs {
    /// A compass reading exists and the heading error is within the turn tolerance.
    pub heading_in_tolerance: bool,
    /// The bumper is pressed or the front sensor reads an obstacle too close.
    pub blocked_ahead: bool,
    /// The drive covered its distance, or a wall ahead was confirmed after half a cell.
    pub drive_complete: bool,
    /// The rear sensor reads an obstacle too close.
    pub blocked_behind: bool,
}

/// Which kind of motor command the controller gives.
#[derive(Clone, Copy, Debug, PartialEq, Eq, Structural)]
pub enum MotorCmd {
    /// No command this cycle.
    Hold,
    /// Both motors off.
    Stop,
    /// Turn in place toward the target heading.
    TurnInPlace,
    /// Drive forward with heading and lateral correction.
    DriveCorrected,
    /// Drive backward.
    Reverse,
}

/// The controller's decision for one cycle.
#[derive(Clone, Copy, Debug, PartialEq, Eq, Structural)]
pub struct MotionStep {
    /// The motion after this cycle.
    pub next: Motion,
    /// Whether the motion finished this cycle (or nothing was in progress).
    pub done: bool,
    /// The motor command to give.
    pub motor: MotorCmd,
    /// The count of consecutive in-tolerance cycles while turning.
    pub turn_streak: u32,
    /// Whether the planned move is abandoned (turn timed out, or a collision).
    pub drop_pending: bool,
    /// `Some(aborted)` when a turn ended this cycle.
    pub turn_ended: Option<bool>,
    /// Whether the robot ran into something while driving.
    pub collided: bool,
}

/// The controller's transition: from the motion in progress, the count of
/// in-tolerance turn cycles and this cycle's observations, the decision.
pub open spec fn motion_step_spec(motion: Motion, turn_streak: u32, obs: MotionObs) -> MotionStep {
    let quiet = MotionStep {
        next: motion,
        done: false,
        motor: MotorCmd::Hold,
        turn_streak,
        drop_pending: false,
        turn_ended: None,
        collided: false,
    };
    match motion {
        Motion::Idle => MotionStep { next: Motion::Idle, done: true, ..quiet },
        Motion::Turning { target_dir, cycles_left } => {
            let streak = if obs.heading_in_tolerance {
                turn_streak + 1
            } else {
                0
            };
            let locked = streak >= TURN_EXIT_K;
            if locked || cycles_left == 0 {
                MotionStep {
                    next: Motion::Idle,
                    done: true,
                    motor: MotorCmd::Stop,
                    turn_streak: 0,
                    drop_pending: !locked,
                    turn_ended: Some(!locked),
                    ..quiet
                }
            } else {
                MotionStep {
                    next: Motion::Turning { target_dir, cycles_left: (cycles_left - 1) as u32 },
                    motor: MotorCmd::TurnInPlace,
                    turn_streak: streak as u32,
                    ..quiet
                }
            }
        },
        Motion::Driving { cycles_left } => {
            if obs.blocked_ahead {
                MotionStep {
                    next: Motion::Backup { cycles_left: BACKUP_CYCLES },
                    motor: MotorCmd::Stop,
                    drop_pending: true,
                    collided: true,
                    ..quiet
                }
            } else if cycles_left == 0 || obs.drive_complete {
                MotionStep {
                    next: Motion::Settling { cycles_left: SETTLE_CYCLES },
                    motor: MotorCmd::Stop,
                    ..quiet
                }
            } else {
                MotionStep {
                    next: Motion::Driving { cycles_left: (cycles_left - 1) as u32 },
                    motor: MotorCmd::DriveCorrected,
                    ..quiet
                }
            }
        },
        Motion::Settling { cycles_left } => {
            if cycles_left == 0 {
                MotionStep { next: Motion::Idle, done: true, motor: MotorCmd::Stop, ..quiet }
            } else {
                MotionStep {
                    next: Motion::Settling { cycles_left: (cycles_left - 1) as u32 },
                    motor: MotorCmd::Stop,
                    ..quiet
                }
            }
        },
        Motion::Backup { cycles_left } => {
            if cycles_left == 0 || obs.blocked_behind {
                MotionStep { next: Motion::Idle, done: true, motor: MotorCmd::Stop, ..quiet }
            } else {
                MotionStep {
                    next: Motion::Backup { cycles_left: (cycles_left - 1) as u32 },
                    motor: MotorCmd::Reverse,
                    ..quiet
                }
            }
        },
    }
}

/// Advances the motion controller by one cycle: a turn ends once the heading
/// stayed within tolerance for `TURN_EXIT_K` cycles (locked) or its cycles run
/// out (aborted, dropping the planned move); a drive ends in a settle when it
/// covered its distance or its cycles ran out, or in a back-off when blocked;
/// settling and backing off count down to rest.
pub fn step_motion(motion: Motion, turn_streak: u32, obs: MotionObs) -> (r: MotionStep)
    requires
        motion is Turning ==> turn_streak < u32::MAX,
    ensures
        r == motion_step_spec(motion, turn_streak, obs),
{
    let quiet = MotionStep {
        next: motion,
        done: false,
        motor: MotorCmd::Hold,
        turn_streak,
        drop_pending: false,
        turn_ended: None,
        collided: false,
    };
    match motion {
        Motion::Idle => MotionStep { next: Motion::Idle, done: true, ..quiet },
        Motion::Turning { target_dir, cycles_left } => {
            let streak = if obs.heading_in_tolerance {
                turn_streak + 1
            } else {
                0
            };
            let locked = streak >= TURN_EXIT_K;
            if locked || cycles_left == 0 {
                MotionStep {
                    next: Motion::Idle,
                    done: true,
                    motor: MotorCmd::Stop,
                    turn_streak: 0,
                    drop_pending: !locked,
                    turn_ended: Some(!locked),
                    ..quiet
                }
            } else {
                MotionStep {
                    next: Motion::Turning { target_dir, cycles_left: cycles_left - 1 },
                    motor: MotorCmd::TurnInPlace,
                    turn_streak: streak,
                    ..quiet
                }
            }
        },
        Motion::Driving { cycles_left } => {
            if obs.blocked_ahead {
                MotionStep {
                    next: Motion::Backup { cycles_left: BACKUP_CYCLES },
                    motor: MotorCmd::Stop,
                    drop_pending: true,
                    collided: true,
                    ..quiet
                }
            } else if cycles_left == 0 || obs.drive_complete {
                MotionStep {
                    next: Motion::Settling { cycles_left: SETTLE_CYCLES },
                    motor: MotorCmd::Stop,
                    ..quiet
                }
            } else {
                MotionStep {
                    next: Motion::Driving { cycles_left: cycles_left - 1 },
                    motor: MotorCmd::DriveCorrected,
                    ..quiet
                }
            }
        },
        Motion::Settling { cycles_left } => {
            if cycles_left == 0 {
                MotionStep { next: Motion::Idle, done: true, motor: MotorCmd::Stop, ..quiet }
            } else {
                MotionStep {
                    next: Motion::Settling { cycles_left: cycles_left - 1 },
                    motor: MotorCmd::Stop,
                    ..quiet
                }
            }
        },
        Motion::Backup { cycles_left } => {
            if cycles_left == 0 || obs.blocked_behind {
                MotionStep { next: Motion::Idle, done: true, motor: MotorCmd::Stop, ..quiet }
            } else {
                MotionStep {
                    next: Motion::Backup { cycles_left: cycles_left - 1 },
                    motor: MotorCmd::Reverse,
                    ..quiet
                }
            }
        },
    }
}

/// The cycles a turn is given: the estimate `raw`, kept between
/// `TURN_MIN_CYCLES` and `TURN_MAX_CYCLES`.
pub fn turn_cycle_budget(raw: u32) -> (r: u32)
    ensures
        r == (if raw < TURN_MIN_CYCLES {
            TURN_MIN_CYCLES
        } else if raw > TURN_MAX_CYCLES {
            TURN_MAX_CYCLES
        } else {
            raw
        }),
{
    let lower = if raw > TURN_MIN_CYCLES {
        raw
    } else {
        TURN_MIN_CYCLES
    };
    if lower < TURN_MAX_CYCLES {
        lower
    } else {
        TURN_MAX_CYCLES
    }
}

/// The motion that starts a move in direction `dir`: a drive when the
/// heading is already within tolerance, else a turn given `turn_cycles`.
pub fn begin_move(dir: Dir, aligned: bool, turn_cycles: u32) -> (r: Motion)
    ensures
        aligned ==> r == (Motion::Driving { cycles_left: DRIVE_CYCLES }),
        !aligned ==> r == (Motion::Turning { target_dir: dir, cycles_left: turn_cycles }),
{
    if aligned {
        Motion::Driving { cycles_left: DRIVE_CYCLES }
    } else {
        Motion::Turning { target_dir: dir, cycles_left: turn_cycles }
    }
}

/// The most controller steps a motion takes until a step reports it done.
/// A drive of `n` cycles: `n + 1` driving steps, the last of which may hit
/// an obstacle and start a back-off of `BACKUP_CYCLES + 1` more steps
/// (settling takes fewer).
pub open spec fn motion_budget(m: Motion) -> int {
    match m {
        Motion::Idle => 1,
        Motion::Turning { cycles_left, .. } => cycles_left + 1,
        Motion::Driving { cycles_left } => cycles_left + BACKUP_CYCLES + 2,
        Motion::Settling { cycles_left } => cycles_left + 1,
        Motion::Backup { cycles_left } => cycles_left + 1,
    }
}

/// The controller always comes to rest within the budget of the motion in
/// progress: a step reports done exactly when the motion reaches rest; a
/// step that is not done lowers the budget, whatever is observed; a motion
/// with a budget of one step is done at the next step; and a motion at rest
/// stays at rest, giving no motor command.
pub proof fn lemma_motion_comes_to_rest(motion: Motion, turn_streak: u32, obs: MotionObs)
    requires
        motion is Turning ==> turn_streak < u32::MAX,
    ensures
        motion_budget(motion) >= 1,
        motion_step_spec(motion, turn_streak, obs).done <==> motion_step_spec(
            motion,
            turn_streak,
            obs,
        ).next is Idle,
        !motion_step_spec(motion, turn_streak, obs).done ==> motion_budget(
            motion_step_spec(motion, turn_streak, obs).next,
        ) < motion_budget(motion),
        motion_budget(motion) == 1 ==> motion_step_spec(motion, turn_streak, obs).done,
        motion is Idle ==> motion_step_spec(motion, turn_streak, obs).done && motion_step_spec(
            motion,
            turn_streak,
            obs,
        ).motor == MotorCmd::Hold && motion_step_spec(motion, turn_streak, obs).turn_streak
            == turn_streak,
{
}


/// A turn in progress: once the heading has been within tolerance for three
/// cycles in a row (this one included) the turn locks, keeping the planned
/// move; otherwise, with no cycles left, it aborts and drops the planned
/// move; otherwise it keeps turning in place, one cycle fewer, counting the
/// cycles in tolerance (back to 0 on a cycle out of it).
pub proof fn lemma_turn_step(td: Dir, c: u32, streak: u32, obs: MotionObs)
    requires
        streak < u32::MAX,
    ensures
        ({
            let r = motion_step_spec(Motion::Turning { target_dir: td, cycles_left: c }, streak, obs);
            let locks = obs.heading_in_tolerance && streak + 1 >= 3;
            &&& locks ==> r.done && r.next == Motion::Idle && r.turn_ended == Some(false)
                && !r.drop_pending && r.motor == MotorCmd::Stop && r.turn_streak == 0
            &&& !locks && c == 0 ==> r.done && r.next == Motion::Idle && r.turn_ended == Some(true)
                && r.drop_pending && r.motor == MotorCmd::Stop && r.turn_streak == 0
            &&& !locks && c > 0 ==> !r.done && r.next == (Motion::Turning {
                target_dir: td,
                cycles_left: (c - 1) as u32,
            }) && r.turn_ended is None && !r.drop_pending && r.motor == MotorCmd::TurnInPlace
                && r.turn_streak == (if obs.heading_in_tolerance {
                streak + 1
            } else {
                0
            })
            &&& !r.collided
        }),
{
}

/// A drive in progress: blocked ahead, it stops, drops the planned move and
/// backs off for 6 cycles; else, with its distance covered or no cycles
/// left, it stops and settles for 4 cycles; else it drives on, corrected,
/// one cycle fewer. A drive never ends a step done.
pub proof fn lemma_drive_step(c: u32, streak: u32, obs: MotionObs)
    ensures
        ({
            let r = motion_step_spec(Motion::Driving { cycles_left: c }, streak, obs);
            &&& !r.done && r.turn_ended is None && r.turn_streak == streak
            &&& obs.blocked_ahead ==> r.next == (Motion::Backup { cycles_left: 6 }) && r.motor
                == MotorCmd::Stop && r.drop_pending && r.collided
            &&& !obs.blocked_ahead && (c == 0 || obs.drive_complete) ==> r.next == (Motion::Settling {
                cycles_left: 4,
            }) && r.motor == MotorCmd::Stop && !r.drop_pending && !r.collided
            &&& !obs.blocked_ahead && c > 0 && !obs.drive_complete ==> r.next == (Motion::Driving {
                cycles_left: (c - 1) as u32,
            }) && r.motor == MotorCmd::DriveCorrected && !r.drop_pending && !r.collided
        }),
{
}

/// Settling stands still until its cycles run out, then the motion is done;
/// backing off reverses until its cycles run out or the way behind is
/// blocked, then stops, done; at rest nothing happens and the step is done.
pub proof fn lemma_rest_steps(c: u32, streak: u32, obs: MotionObs)
    ensures
        ({
            let r = motion_step_spec(Motion::Settling { cycles_left: c }, streak, obs);
            &&& r.motor == MotorCmd::Stop && !r.drop_pending && !r.collided && r.turn_ended is None
            &&& c == 0 ==> r.done && r.next == Motion::Idle
            &&& c > 0 ==> !r.done && r.next == (Motion::Settling { cycles_left: (c - 1) as u32 })
        }),
        ({
            let r = motion_step_spec(Motion::Backup { cycles_left: c }, streak, obs);
            &&& !r.drop_pending && !r.collided && r.turn_ended is None
            &&& c == 0 || obs.blocked_behind ==> r.done && r.next == Motion::Idle && r.motor
                == MotorCmd::Stop
            &&& c > 0 && !obs.blocked_behind ==> !r.done && r.next == (Motion::Backup {
                cycles_left: (c - 1) as u32,
            }) && r.motor == MotorCmd::Reverse
        }),
        ({
            let r = motion_step_spec(Motion::Idle, streak, obs);
            &&& r.done && r.next == Motion::Idle && r.motor == MotorCmd::Hold && !r.drop_pending
                && !r.collided && r.turn_ended is None && r.turn_streak == streak
        }),
{
}


/// The names of the motion kinds.
pub proof fn lemma_kind_names(c: u32, d: Dir)
    ensures
        Motion::Idle.kind_spec() == "Idle"@,
        (Motion::Turning { target_dir: d, cycles_left: c }).kind_spec() == "Turning"@,
        (Motion::Driving { cycles_left: c }).kind_spec() == "Driving"@,
        (Motion::Settling { cycles_left: c }).kind_spec() == "Settling"@,
        (Motion::Backup { cycles_left: c }).kind_spec() == "Backup"@,
{
}

} // verus!
