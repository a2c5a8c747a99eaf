//! The objective state machines of the agents: find the target, signal it,
//! and head back.
//!
//! Each function takes the agent's state and what it observed this cycle
//! and returns the next state and what to do: which LEDs to switch, whether
//! to drive, stop or keep wandering. The caller performs the actions.
use vstd::prelude::*;
use crate::dir::Dir;

verus! {

/// Cycles spent backing away after the bumper fires.
pub const COLLISION_RECOVERY_TICKS: u32 = 8;

/// Cycles the mapping agent waits at the start before exploring.
pub const START_SETTLE_CYCLES: u32 = 5;

/// Cycles without a path home after which the mapping agent gives up.
pub const RETURN_PATIENCE: u32 = 50;

/// Objective of the wandering agent.
#[derive(Clone, Copy, Debug, PartialEq, Eq, Structural)]
pub enum State {
    Run,
    Wait,
    Return,
}

/// What the wandering agent observed this cycle.
#[derive(Clone, Copy, Debug, PartialEq, Eq, Structural)]
pub struct ExploreObs {
    /// The bumper reports a collision.
    pub bumper: bool,
    /// The ground sensor (0 over the target, -1 when never read).
    pub ground: i32,
    /// The simulator reports the visiting LED on.
    pub visiting_led: bool,
    /// The simulator reports the returning LED on.
    pub returning_led: bool,
}

/// How the wandering agent moves this cycle.
#[derive(Clone, Copy, Debug, PartialEq, Eq, Structural)]
pub enum Drive {
    /// No motor command.
    Hold,
    /// Back away from the obstacle hit.
    Recover,
    /// Wander, avoiding obstacles.
    Wander,
    /// Stand still.
    Stop,
}

/// The wandering agent's decision for one cycle.
#[derive(Clone, Copy, Debug, PartialEq, Eq, Structural)]
pub struct ExploreStep {
    pub state: State,
    pub recover_ticks: u32,
    pub drive: Drive,
    pub set_visiting: Option<bool>,
    pub set_returning: Option<bool>,
    /// Report that the target was visited.
    pub announce_visit: bool,
}

/// The wandering agent's transition.
pub open spec fn explore_step_spec(state: State, recover_ticks: u32, obs: ExploreObs) -> ExploreStep {
    let ticks = if obs.bumper {
        COLLISION_RECOVERY_TICKS
    } else {
        recover_ticks
    };
    let quiet = ExploreStep {
        state,
        recover_ticks: ticks,
        drive: Drive::Hold,
        set_visiting: None,
        set_returning: None,
        announce_visit: false,
    };
    if ticks > 0 {
        (ExploreStep {
            recover_ticks: (ticks - 1) as u32,
            drive: Drive::Recover,
            ..quiet
        })
    } else {
        match state {
            State::Run => (ExploreStep {
                state: if obs.visiting_led {
                    State::Wait
                } else {
                    State::Run
                },
                drive: if obs.visiting_led {
                    Drive::Hold
                } else {
                    Drive::Wander
                },
                set_visiting: if obs.ground == 0 {
                    Some(true)
                } else {
                    None
                },
                announce_visit: obs.ground == 0,
                ..quiet
            }),
            State::Wait => (ExploreStep {
                state: if obs.returning_led {
                    State::Return
                } else {
                    State::Wait
                },
                drive: Drive::Stop,
                set_visiting: if obs.visiting_led {
                    Some(false)
                } else {
                    None
                },
                set_returning: Some(true),
                ..quiet
            }),
            State::Return => (ExploreStep {
                drive: Drive::Wander,
                set_visiting: Some(false),
                set_returning: Some(false),
                ..quiet
            }),
        }
    }
}

/// One cycle of the wandering agent. A collision starts a recovery of
/// `COLLISION_RECOVERY_TICKS` cycles that overrides everything else. While
/// running, standing on the target (ground 0) switches the visiting LED on;
/// once the simulator shows it on, the agent waits, switching to returning;
/// once the returning LED shows on, it returns, with both LEDs off.
pub fn explore_step(state: State, recover_ticks: u32, obs: ExploreObs) -> (r: ExploreStep)
    ensures
        r == explore_step_spec(state, recover_ticks, obs),
{
    let mut ticks = recover_ticks;
    if obs.bumper {
        ticks = COLLISION_RECOVERY_TICKS;
    }
    let quiet = ExploreStep {
        state,
        recover_ticks: ticks,
        drive: Drive::Hold,
        set_visiting: None,
        set_returning: None,
        announce_visit: false,
    };
    if ticks > 0 {
        return ExploreStep { recover_ticks: ticks - 1, drive: Drive::Recover, ..quiet };
    }
    match state {
        State::Run => {
            let on_target = obs.ground == 0;
            let set_visiting = if on_target {
                Some(true)
            } else {
                None
            };
            if obs.visiting_led {
                ExploreStep { state: State::Wait, set_visiting, announce_visit: on_target, ..quiet }
            } else {
                ExploreStep {
                    drive: Drive::Wander,
                    set_visiting,
                    announce_visit: on_target,
                    ..quiet
                }
            }
        },
        State::Wait => {
            let set_visiting = if obs.visiting_led {
                Some(false)
            } else {
                None
            };
            let next = if obs.returning_led {
                State::Return
            } else {
                State::Wait
            };
            ExploreStep {
                state: next,
                drive: Drive::Stop,
                set_visiting,
                set_returning: Some(true),
                ..quiet
            }
        },
        State::Return => ExploreStep {
            drive: Drive::Wander,
            set_visiting: Some(false),
            set_returning: Some(false),
            ..quiet
        },
    }
}

/// The order of the wandering agent's objectives.
pub open spec fn state_rank(s: State) -> int {
    match s {
        State::Run => 0,
        State::Wait => 1,
        State::Return => 2,
    }
}

/// What the wandering agent's obstacle and beacon sensors report, compared
/// with its thresholds.
#[derive(Clone, Copy, Debug, PartialEq, Eq, Structural)]
pub struct WanderReadings {
    /// Some obstacle sensor reads an obstacle very close.
    pub too_close: bool,
    /// The left sensor reads an obstacle.
    pub left_obstacle: bool,
    /// The right sensor reads an obstacle.
    pub right_obstacle: bool,
    /// The followed beacon is visible well to the left.
    pub beacon_left: bool,
    /// The followed beacon is visible well to the right.
    pub beacon_right: bool,
}

/// How the wandering agent moves.
#[derive(Clone, Copy, Debug, PartialEq, Eq, Structural)]
pub enum WanderMove {
    /// Spin in place, away from a very close obstacle.
    Spin,
    /// Veer right, away from an obstacle on the left.
    VeerRight,
    /// Veer left, away from an obstacle on the right.
    VeerLeft,
    /// Turn left toward the beacon.
    TowardLeft,
    /// Turn right toward the beacon.
    TowardRight,
    /// Full speed ahead.
    Ahead,
}

/// The wandering agent's move, in order of priority: spin when anything is
/// very close, veer away from an obstacle on the left, then on the right,
/// steer toward the beacon, else go ahead.
pub fn wander_move(r: WanderReadings) -> (m: WanderMove)
    ensures
        m == (if r.too_close {
            WanderMove::Spin
        } else if r.left_obstacle {
            WanderMove::VeerRight
        } else if r.right_obstacle {
            WanderMove::VeerLeft
        } else if r.beacon_left {
            WanderMove::TowardLeft
        } else if r.beacon_right {
            WanderMove::TowardRight
        } else {
            WanderMove::Ahead
        }),
{
    if r.too_close {
        WanderMove::Spin
    } else if r.left_obstacle {
        WanderMove::VeerRight
    } else if r.right_obstacle {
        WanderMove::VeerLeft
    } else if r.beacon_left {
        WanderMove::TowardLeft
    } else if r.beacon_right {
        WanderMove::TowardRight
    } else {
        WanderMove::Ahead
    }
}

/// Objectives of the wall-following agent.
#[derive(Clone, Copy, Debug, PartialEq, Eq, Structural)]
pub enum MissionState {
    Initialize,
    Explore,
    SignalReturn,
    Return,
    Finished,
}

/// What the wall-following agent observed this cycle.
#[derive(Clone, Copy, Debug, PartialEq, Eq, Structural)]
pub struct MissionObs {
    /// The simulator reports the run finished.
    pub finished: bool,
    /// The stop button is pressed.
    pub stop_button: bool,
    /// The bumper reports a collision.
    pub bumper: bool,
    /// A compass reading has been received.
    pub compass_known: bool,
    /// The ground sensor (0 over the target).
    pub ground: i32,
    /// The simulator reports the returning LED on.
    pub returning_led: bool,
}

/// How the wall-following agent moves this cycle.
#[derive(Clone, Copy, Debug, PartialEq, Eq, Structural)]
pub enum MissionAct {
    /// Stand still.
    Stop,
    /// Back away from the obstacle hit.
    Recover,
    /// Keep following the right-hand wall.
    FollowWall,
}

/// What the wall-following agent reports.
#[derive(Clone, Copy, Debug, PartialEq, Eq, Structural)]
pub enum Announce {
    Nothing,
    Initialized,
    TargetFound,
    Returning,
}

/// The wall-following agent's decision for one cycle.
#[derive(Clone, Copy, Debug, PartialEq, Eq, Structural)]
pub struct MissionStep {
    pub state: MissionState,
    pub recovery_ticks: u32,
    pub act: MissionAct,
    /// Abandon any turn in progress.
    pub clear_turn: bool,
    /// Take the start heading from the compass.
    pub init_heading: bool,
    pub set_visiting: Option<bool>,
    pub set_returning: Option<bool>,
    pub announce: Announce,
}

/// The wall-following agent's transition.
pub open spec fn mission_step_spec(state: MissionState, recovery_ticks: u32, obs: MissionObs) -> MissionStep {
    let quiet = MissionStep {
        state,
        recovery_ticks,
        act: MissionAct::Stop,
        clear_turn: false,
        init_heading: false,
        set_visiting: None,
        set_returning: None,
        announce: Announce::Nothing,
    };
    let ticks = if obs.bumper {
        COLLISION_RECOVERY_TICKS
    } else {
        recovery_ticks
    };
    if obs.finished || state == MissionState::Finished {
        (MissionStep { state: MissionState::Finished, ..quiet })
    } else if obs.stop_button {
        quiet
    } else if ticks > 0 {
        (MissionStep {
            recovery_ticks: (ticks - 1) as u32,
            act: MissionAct::Recover,
            clear_turn: true,
            ..quiet
        })
    } else {
        match state {
            MissionState::Initialize => (if obs.compass_known {
                MissionStep {
                    state: MissionState::Explore,
                    recovery_ticks: ticks,
                    init_heading: true,
                    announce: Announce::Initialized,
                    ..quiet
                }
            } else {
                MissionStep { recovery_ticks: ticks, ..quiet }
            }),
            MissionState::Explore => (if obs.ground == 0 {
                MissionStep {
                    state: MissionState::SignalReturn,
                    recovery_ticks: ticks,
                    set_visiting: Some(true),
                    announce: Announce::TargetFound,
                    ..quiet
                }
            } else {
                MissionStep {
                    recovery_ticks: ticks,
                    act: MissionAct::FollowWall,
                    ..quiet
                }
            }),
            MissionState::SignalReturn => (MissionStep {
                state: if obs.returning_led {
                    MissionState::Return
                } else {
                    MissionState::SignalReturn
                },
                recovery_ticks: ticks,
                set_visiting: Some(false),
                set_returning: Some(true),
                announce: if obs.returning_led {
                    Announce::Returning
                } else {
                    Announce::Nothing
                },
                ..quiet
            }),
            MissionState::Return => (MissionStep {
                recovery_ticks: ticks,
                act: MissionAct::FollowWall,
                set_visiting: Some(false),
                set_returning: Some(false),
                ..quiet
            }),
            MissionState::Finished => (MissionStep {
                recovery_ticks: ticks,
                ..quiet
            }),
        }
    }
}

/// One cycle of the wall-following agent. A finished run stops for good, the
/// stop button stops this cycle, a collision backs away for
/// `COLLISION_RECOVERY_TICKS` cycles; otherwise the objective decides: wait
/// for a compass reading, follow the wall until standing on the target,
/// signal the return until the simulator shows it, then follow the wall home.
pub fn mission_step(state: MissionState, recovery_ticks: u32, obs: MissionObs) -> (r: MissionStep)
    ensures
        r == mission_step_spec(state, recovery_ticks, obs),
{
    let quiet = MissionStep {
        state,
        recovery_ticks,
        act: MissionAct::Stop,
        clear_turn: false,
        init_heading: false,
        set_visiting: None,
        set_returning: None,
        announce: Announce::Nothing,
    };
    if obs.finished || state == MissionState::Finished {
        return MissionStep { state: MissionState::Finished, ..quiet };
    }
    if obs.stop_button {
        return quiet;
    }
    let mut ticks = recovery_ticks;
    if obs.bumper {
        ticks = COLLISION_RECOVERY_TICKS;
    }
    if ticks > 0 {
        return MissionStep {
            recovery_ticks: ticks - 1,
            act: MissionAct::Recover,
            clear_turn: true,
            ..quiet
        };
    }
    let quiet = MissionStep { recovery_ticks: ticks, ..quiet };
    match state {
        MissionState::Initialize => {
            if obs.compass_known {
                MissionStep {
                    state: MissionState::Explore,
                    init_heading: true,
                    announce: Announce::Initialized,
                    ..quiet
                }
            } else {
                quiet
            }
        },
        MissionState::Explore => {
            if obs.ground == 0 {
                MissionStep {
                    state: MissionState::SignalReturn,
                    set_visiting: Some(true),
                    announce: Announce::TargetFound,
                    ..quiet
                }
            } else {
                MissionStep { act: MissionAct::FollowWall, ..quiet }
            }
        },
        MissionState::SignalReturn => {
            if obs.returning_led {
                MissionStep {
                    state: MissionState::Return,
                    set_visiting: Some(false),
                    set_returning: Some(true),
                    announce: Announce::Returning,
                    ..quiet
                }
            } else {
                MissionStep { set_visiting: Some(false), set_returning: Some(true), ..quiet }
            }
        },
        MissionState::Return => MissionStep {
            act: MissionAct::FollowWall,
            set_visiting: Some(false),
            set_returning: Some(false),
            ..quiet
        },
        MissionState::Finished => quiet,
    }
}

/// Objectives of the mapping agent.
#[derive(Clone, Copy, Debug, PartialEq, Eq, Structural)]
pub enum AgentState {
    WaitStart,
    Explore,
    FoundTarget,
    ReturnToStart,
    Done,
}

/// Whether the ground sensor shows the target and no target is known yet.
pub fn target_sighted(ground: i32, target_known: bool) -> (r: bool)
    ensures
        r == (ground > 0 && !target_known),
{
    ground >= 0 && ground != 0 && !target_known
}

/// The mapping agent's start-up decision for one cycle.
#[derive(Clone, Copy, Debug, PartialEq, Eq, Structural)]
pub struct StartStep {
    /// First settling cycle: take the start pose and mark the start cell.
    pub init_pose: bool,
    /// Read the walls around the start cell this cycle.
    pub sense: bool,
    pub settle_cycles: u32,
    pub state: AgentState,
}

/// One cycle of waiting at the start: nothing happens until the start button
/// is pressed and the compass and infrared sensors have reported; then the
/// agent settles for `START_SETTLE_CYCLES` cycles, sensing the walls, and
/// starts exploring.
pub fn start_step(start_button: bool, sensors_ready: bool, settle_cycles: u32) -> (r: StartStep)
    requires
        settle_cycles < u32::MAX,
    ensures
        !(start_button && sensors_ready) ==> r == (StartStep {
            init_pose: false,
            sense: false,
            settle_cycles,
            state: AgentState::WaitStart,
        }),
        start_button && sensors_ready ==> r == (StartStep {
            init_pose: settle_cycles == 0,
            sense: true,
            settle_cycles: (settle_cycles + 1) as u32,
            state: if settle_cycles + 1 >= START_SETTLE_CYCLES {
                AgentState::Explore
            } else {
                AgentState::WaitStart
            },
        }),
{
    if !(start_button && sensors_ready) {
        return StartStep { init_pose: false, sense: false, settle_cycles, state: AgentState::WaitStart };
    }
    let n = settle_cycles + 1;
    StartStep {
        init_pose: settle_cycles == 0,
        sense: true,
        settle_cycles: n,
        state: if n >= START_SETTLE_CYCLES {
            AgentState::Explore
        } else {
            AgentState::WaitStart
        },
    }
}

/// A cycle of returning without a path home: the count grows; the first such
/// cycle is reported, and past `RETURN_PATIENCE` cycles the agent gives up.
pub fn stuck_step(no_progress_cycles: u32) -> (r: (u32, bool, bool))
    requires
        no_progress_cycles < u32::MAX,
    ensures
        r.0 == no_progress_cycles + 1,
        r.1 == (no_progress_cycles + 1 == 1),
        r.2 == (no_progress_cycles + 1 > RETURN_PATIENCE),
{
    let n = no_progress_cycles + 1;
    (n, n == 1, n > RETURN_PATIENCE)
}

/// What follows a step of the mapping agent's motion controller.
#[derive(Clone, Copy, Debug, PartialEq, Eq, Structural)]
pub enum FollowUp {
    /// Nothing: the motion goes on, or no move was planned.
    Nothing,
    /// The turn toward the planned direction ended: drive that way.
    StartDrive(Dir),
    /// The drive in the planned direction ended: arrive in the next cell.
    Arrive(Dir),
}

/// What follows a step of the motion controller: once the step reports the
/// motion done, a finished turn is followed by a drive in the planned
/// direction, anything else by the arrival in the next cell; nothing
/// follows while the motion goes on or when no move is planned.
pub fn after_motion_step(was_turning: bool, done: bool, pending: Option<Dir>) -> (r: FollowUp)
    ensures
        r == (if !done {
            FollowUp::Nothing
        } else {
            match pending {
                None => FollowUp::Nothing,
                Some(d) => if was_turning {
                    FollowUp::StartDrive(d)
                } else {
                    FollowUp::Arrive(d)
                },
            }
        }),
{
    if !done {
        return FollowUp::Nothing;
    }
    match pending {
        None => FollowUp::Nothing,
        Some(d) => if was_turning {
            FollowUp::StartDrive(d)
        } else {
            FollowUp::Arrive(d)
        },
    }
}

/// The mapping agent's decision when it stands still in a cell and plans.
#[derive(Clone, Copy, Debug, PartialEq, Eq, Structural)]
pub struct PlanStep {
    pub state: AgentState,
    /// The move to start.
    pub go: Option<Dir>,
    pub no_progress_cycles: u32,
    /// Report that no path home was found (the first such cycle).
    pub report_stuck: bool,
    /// End the run: stop and tell the simulator.
    pub finish_run: bool,
}

/// The mapping agent's planning transition.
pub open spec fn plan_step_spec(
    state: AgentState,
    at_start: bool,
    planned: Option<Dir>,
    no_progress_cycles: u32,
) -> PlanStep {
    let quiet = PlanStep {
        state,
        go: None,
        no_progress_cycles,
        report_stuck: false,
        finish_run: false,
    };
    match state {
        AgentState::Explore => match planned {
            Some(d) => PlanStep { go: Some(d), ..quiet },
            None => PlanStep { state: AgentState::ReturnToStart, ..quiet },
        },
        AgentState::ReturnToStart => if at_start {
            PlanStep { state: AgentState::Done, finish_run: true, ..quiet }
        } else {
            match planned {
                Some(d) => PlanStep { go: Some(d), no_progress_cycles: 0, ..quiet },
                None => {
                    let n = no_progress_cycles + 1;
                    PlanStep {
                        state: if n > RETURN_PATIENCE {
                            AgentState::Done
                        } else {
                            AgentState::ReturnToStart
                        },
                        no_progress_cycles: n as u32,
                        report_stuck: n == 1,
                        finish_run: n > RETURN_PATIENCE,
                        ..quiet
                    }
                },
            }
        },
        _ => quiet,
    }
}

/// The mapping agent's plan, standing in a cell with `planned` the planner's
/// next move. Exploring: take the move, or return to the start when no
/// frontier cell is reachable. Returning: at the start the run is done;
/// else take the move, or count a cycle without a path home, reporting the
/// first and giving up after `RETURN_PATIENCE` of them.
pub fn plan_step(state: AgentState, at_start: bool, planned: Option<Dir>, no_progress_cycles: u32)
    -> (r: PlanStep)
    requires
        state == AgentState::ReturnToStart && !at_start && planned is None ==> no_progress_cycles
            < u32::MAX,
    ensures
        r == plan_step_spec(state, at_start, planned, no_progress_cycles),
{
    let quiet = PlanStep {
        state,
        go: None,
        no_progress_cycles,
        report_stuck: false,
        finish_run: false,
    };
    match state {
        AgentState::Explore => match planned {
            Some(d) => PlanStep { go: Some(d), ..quiet },
            None => PlanStep { state: AgentState::ReturnToStart, ..quiet },
        },
        AgentState::ReturnToStart => {
            if at_start {
                return PlanStep { state: AgentState::Done, finish_run: true, ..quiet };
            }
            match planned {
                Some(d) => PlanStep { go: Some(d), no_progress_cycles: 0, ..quiet },
                None => {
                    let (n, first, give_up) = stuck_step(no_progress_cycles);
                    PlanStep {
                        state: if give_up {
                            AgentState::Done
                        } else {
                            AgentState::ReturnToStart
                        },
                        no_progress_cycles: n,
                        report_stuck: first,
                        finish_run: give_up,
                        ..quiet
                    }
                },
            }
        },
        _ => quiet,
    }
}

/// The wandering agent's cycle. A bumper hit starts a recovery of 8 cycles,
/// this one included, during which it only backs away: no LED changes, no
/// change of objective. Otherwise, running: it switches the visiting LED on
/// and reports a visit exactly when the ground sensor reads 0 (the target),
/// and it waits (standing, no wandering) once the simulator shows the
/// visiting LED, else wanders. Waiting: it keeps the returning LED on,
/// switches the visiting LED off while it shows, stands still, and returns
/// once the simulator shows the returning LED. Returning: both LEDs off,
/// wandering.
pub proof fn lemma_wanderer_cycle(state: State, ticks: u32, obs: ExploreObs)
    ensures
        ({
            let r = explore_step_spec(state, ticks, obs);
            let recovering = obs.bumper || ticks > 0;
            &&& obs.bumper ==> r.recover_ticks == 7
            &&& !obs.bumper && ticks > 0 ==> r.recover_ticks == ticks - 1
            &&& recovering ==> r.drive == Drive::Recover && r.state == state && r.set_visiting
                is None && r.set_returning is None && !r.announce_visit
            &&& !recovering ==> r.recover_ticks == 0
            &&& !recovering && state == State::Run ==> (r.set_visiting == Some(true) <==> obs.ground
                == 0) && (obs.ground != 0 ==> r.set_visiting is None) && (r.announce_visit
                <==> obs.ground == 0) && r.set_returning is None && (obs.visiting_led ==> r.state
                == State::Wait && r.drive == Drive::Hold) && (!obs.visiting_led ==> r.state
                == State::Run && r.drive == Drive::Wander)
            &&& !recovering && state == State::Wait ==> r.set_returning == Some(true) && (
            obs.visiting_led ==> r.set_visiting == Some(false)) && (!obs.visiting_led
                ==> r.set_visiting is None) && r.drive == Drive::Stop && !r.announce_visit && (
            obs.returning_led ==> r.state == State::Return) && (!obs.returning_led ==> r.state
                == State::Wait)
            &&& !recovering && state == State::Return ==> r.set_visiting == Some(false)
                && r.set_returning == Some(false) && r.drive == Drive::Wander && r.state
                == State::Return && !r.announce_visit
        }),
{
}

/// The wall-following agent's cycle. A finished run (reported, or reached
/// before) stays finished and stands still. Otherwise a pressed stop button
/// stands still and changes nothing. Otherwise a bumper hit starts a
/// recovery of 8 cycles, this one included, backing away and abandoning any
/// turn, with no change of objective or LEDs. Otherwise: initializing, it
/// starts exploring (taking its heading) once the compass has reported;
/// exploring, it signals the target (visiting LED on, standing still) exactly
/// when the ground sensor reads 0, else follows the wall; signalling, it
/// keeps the returning LED on and the visiting LED off, standing still, and
/// returns exactly when the simulator shows the returning LED; returning,
/// both LEDs off, it follows the wall.
pub proof fn lemma_wall_follower_cycle(state: MissionState, ticks: u32, obs: MissionObs)
    ensures
        ({
            let r = mission_step_spec(state, ticks, obs);
            let done = obs.finished || state == MissionState::Finished;
            let quiet = !done && !obs.stop_button && !obs.bumper && ticks == 0;
            &&& done ==> r.state == MissionState::Finished && r.act == MissionAct::Stop
                && r.set_visiting is None && r.set_returning is None && r.announce
                == Announce::Nothing
            &&& !done && obs.stop_button ==> r.state == state && r.act == MissionAct::Stop
                && r.recovery_ticks == ticks && r.set_visiting is None && r.set_returning is None
                && r.announce == Announce::Nothing && !r.clear_turn && !r.init_heading
            &&& !done && !obs.stop_button && obs.bumper ==> r.recovery_ticks == 7
            &&& !done && !obs.stop_button && !obs.bumper && ticks > 0 ==> r.recovery_ticks == ticks
                - 1
            &&& !done && !obs.stop_button && (obs.bumper || ticks > 0) ==> r.state == state && r.act
                == MissionAct::Recover && r.clear_turn && r.set_visiting is None && r.set_returning
                is None && r.announce == Announce::Nothing
            &&& quiet ==> r.recovery_ticks == 0 && !r.clear_turn
            &&& quiet && state == MissionState::Initialize ==> r.act == MissionAct::Stop && (
            obs.compass_known ==> r.state == MissionState::Explore && r.init_heading && r.announce
                == Announce::Initialized) && (!obs.compass_known ==> r.state
                == MissionState::Initialize && !r.init_heading && r.announce == Announce::Nothing)
            &&& quiet && state == MissionState::Explore ==> r.set_returning is None && (obs.ground
                == 0 ==> r.state == MissionState::SignalReturn && r.set_visiting == Some(true)
                && r.act == MissionAct::Stop && r.announce == Announce::TargetFound) && (obs.ground
                != 0 ==> r.state == MissionState::Explore && r.set_visiting is None && r.act
                == MissionAct::FollowWall && r.announce == Announce::Nothing)
            &&& quiet && state == MissionState::SignalReturn ==> r.set_returning == Some(true)
                && r.set_visiting == Some(false) && r.act == MissionAct::Stop && (obs.returning_led
                ==> r.state == MissionState::Return && r.announce == Announce::Returning) && (
            !obs.returning_led ==> r.state == MissionState::SignalReturn && r.announce
                == Announce::Nothing)
            &&& quiet && state == MissionState::Return ==> r.state == MissionState::Return
                && r.set_visiting == Some(false) && r.set_returning == Some(false) && r.act
                == MissionAct::FollowWall && r.announce == Announce::Nothing
        }),
{
}

/// The mapping agent's planning. Exploring, it takes the planned move, or,
/// with none, turns to returning. Returning: at the start the run is done
/// and ends; else it takes the planned move, resetting the count of cycles
/// without a path home; with none it counts one more such cycle, reports
/// the first, and gives up (done, ending the run) after 50 of them. In any
/// other objective nothing happens.
pub proof fn lemma_mapping_plan(state: AgentState, at_start: bool, planned: Option<Dir>, n: u32)
    requires
        n < u32::MAX,
    ensures
        ({
            let r = plan_step_spec(state, at_start, planned, n);
            &&& state == AgentState::Explore ==> r.go == planned && r.no_progress_cycles == n
                && !r.report_stuck && !r.finish_run && (planned is Some ==> r.state
                == AgentState::Explore) && (planned is None ==> r.state == AgentState::ReturnToStart)
            &&& state == AgentState::ReturnToStart && at_start ==> r.state == AgentState::Done
                && r.finish_run && r.go is None && !r.report_stuck
            &&& state == AgentState::ReturnToStart && !at_start && planned is Some ==> r.go
                == planned && r.no_progress_cycles == 0 && r.state == AgentState::ReturnToStart
                && !r.finish_run && !r.report_stuck
            &&& state == AgentState::ReturnToStart && !at_start && planned is None ==> r.go is None
                && r.no_progress_cycles == n + 1 && (r.report_stuck <==> n == 0) && (r.finish_run
                <==> n + 1 > 50) && (r.state == AgentState::Done <==> n + 1 > 50) && (n + 1 <= 50
                ==> r.state == AgentState::ReturnToStart)
            &&& state != AgentState::Explore && state != AgentState::ReturnToStart ==> r.state
                == state && r.go is None && !r.finish_run && !r.report_stuck && r.no_progress_cycles
                == n
        }),
{
}

/// The wandering agent's objective only moves forward, one stage at a time:
/// Run, then Wait, then Return.
pub proof fn lemma_objective_forward(state: State, recover_ticks: u32, obs: ExploreObs)
    ensures
        state_rank(explore_step_spec(state, recover_ticks, obs).state) >= state_rank(state),
        state_rank(explore_step_spec(state, recover_ticks, obs).state) <= state_rank(state) + 1,
{
}

/// The order of the wall-following agent's objectives.
pub open spec fn mission_rank(s: MissionState) -> int {
    match s {
        MissionState::Initialize => 0,
        MissionState::Explore => 1,
        MissionState::SignalReturn => 2,
        MissionState::Return => 3,
        MissionState::Finished => 4,
    }
}

/// The wall-following agent's objective never moves back; a finished run
/// stays finished and never moves the robot again.
pub proof fn lemma_mission_forward(state: MissionState, recovery_ticks: u32, obs: MissionObs)
    ensures
        mission_rank(mission_step_spec(state, recovery_ticks, obs).state) >= mission_rank(state),
        state == MissionState::Finished ==> mission_step_spec(state, recovery_ticks, obs).state
            == MissionState::Finished && mission_step_spec(state, recovery_ticks, obs).act
            == MissionAct::Stop,
{
}

} // verus!
