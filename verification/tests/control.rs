use ciber_agent::dir::Dir;
use ciber_agent::map::DynMap;
use ciber_agent::mission::{
    after_motion_step, explore_step, mission_step, plan_step, start_step, stuck_step,
    target_sighted, AgentState, Announce, Drive, ExploreObs, FollowUp, MissionAct, MissionObs,
    MissionState, State,
};
use ciber_agent::motion::{
    begin_move, step_motion, turn_cycle_budget, Motion, MotionObs, MotorCmd, BACKUP_CYCLES,
    DRIVE_CYCLES, SETTLE_CYCLES,
};
use ciber_agent::wall_follow::{RightWallFollowerState, WallFollowChoice, WallReadings};
use ciber_agent::walls::{note_collision, record_arrival, sense_walls, WallStreaks};

fn obs() -> MotionObs {
    MotionObs {
        heading_in_tolerance: false,
        blocked_ahead: false,
        drive_complete: false,
        blocked_behind: false,
    }
}

#[test]
fn motion_kind_names() {
    assert_eq!(Motion::Idle.kind(), "Idle");
    assert_eq!(Motion::Turning { target_dir: Dir::North, cycles_left: 3 }.kind(), "Turning");
    assert_eq!(Motion::Driving { cycles_left: 3 }.kind(), "Driving");
    assert_eq!(Motion::Settling { cycles_left: 3 }.kind(), "Settling");
    assert_eq!(Motion::Backup { cycles_left: 3 }.kind(), "Backup");
}

#[test]
fn idle_is_done() {
    let s = step_motion(Motion::Idle, 0, obs());
    assert!(s.done);
    assert_eq!(s.next, Motion::Idle);
    assert_eq!(s.motor, MotorCmd::Hold);
}

#[test]
fn turn_locks_after_three_in_tolerance_cycles() {
    let mut m = Motion::Turning { target_dir: Dir::West, cycles_left: 20 };
    let mut streak = 0;
    let o = MotionObs { heading_in_tolerance: true, ..obs() };
    for _ in 0..2 {
        let s = step_motion(m, streak, o);
        assert!(!s.done);
        assert_eq!(s.motor, MotorCmd::TurnInPlace);
        m = s.next;
        streak = s.turn_streak;
    }
    let s = step_motion(m, streak, o);
    assert!(s.done);
    assert_eq!(s.next, Motion::Idle);
    assert_eq!(s.turn_ended, Some(false));
    assert!(!s.drop_pending);
    assert_eq!(s.turn_streak, 0);
}

#[test]
fn turn_aborts_when_out_of_cycles() {
    let s = step_motion(Motion::Turning { target_dir: Dir::West, cycles_left: 0 }, 1, obs());
    assert!(s.done);
    assert_eq!(s.turn_ended, Some(true));
    assert!(s.drop_pending);
    assert_eq!(s.motor, MotorCmd::Stop);
    let t = step_motion(Motion::Turning { target_dir: Dir::West, cycles_left: 5 }, 2, obs());
    assert_eq!(t.turn_streak, 0);
    assert_eq!(t.next, Motion::Turning { target_dir: Dir::West, cycles_left: 4 });
}

#[test]
fn drive_settles_backs_off_and_counts_down() {
    let d = Motion::Driving { cycles_left: DRIVE_CYCLES };
    let s = step_motion(d, 0, obs());
    assert_eq!(s.next, Motion::Driving { cycles_left: DRIVE_CYCLES - 1 });
    assert_eq!(s.motor, MotorCmd::DriveCorrected);
    let s = step_motion(d, 0, MotionObs { drive_complete: true, ..obs() });
    assert_eq!(s.next, Motion::Settling { cycles_left: SETTLE_CYCLES });
    let s = step_motion(d, 0, MotionObs { blocked_ahead: true, ..obs() });
    assert_eq!(s.next, Motion::Backup { cycles_left: BACKUP_CYCLES });
    assert!(s.collided && s.drop_pending && !s.done);
    let s = step_motion(Motion::Settling { cycles_left: 0 }, 0, obs());
    assert!(s.done);
    let s = step_motion(Motion::Backup { cycles_left: 2 }, 0, obs());
    assert_eq!(s.motor, MotorCmd::Reverse);
    let s = step_motion(Motion::Backup { cycles_left: 2 }, 0, MotionObs { blocked_behind: true, ..obs() });
    assert!(s.done);
}

#[test]
fn motion_always_comes_to_rest() {
    let mut m = Motion::Driving { cycles_left: DRIVE_CYCLES };
    let mut n = 0;
    while m != Motion::Idle {
        m = step_motion(m, 0, obs()).next;
        n += 1;
        assert!(n < 100);
    }
    assert_eq!(n, DRIVE_CYCLES as usize + 1 + SETTLE_CYCLES as usize + 1);
}

#[test]
fn turn_budget_is_clamped() {
    assert_eq!(turn_cycle_budget(3), 10);
    assert_eq!(turn_cycle_budget(14), 14);
    assert_eq!(turn_cycle_budget(80), 36);
    assert_eq!(begin_move(Dir::East, true, 12), Motion::Driving { cycles_left: DRIVE_CYCLES });
    assert_eq!(begin_move(Dir::East, false, 12), Motion::Turning { target_dir: Dir::East, cycles_left: 12 });
}

#[test]
fn walls_need_two_readings() {
    let mut m = DynMap::new();
    let mut s = WallStreaks::new();
    let ev = sense_walls(&mut m, &mut s, (0, 0), Dir::North, [true, true, false], [true, false, true]);
    assert!(ev.is_empty());
    assert!(!m.has_wall((0, 0), Dir::North));
    assert_eq!(s.get((0, 0), Dir::North), 1);
    assert_eq!(s.get((0, 0), Dir::West), -1);
    assert_eq!(s.get((0, 0), Dir::East), 0);
    let ev = sense_walls(&mut m, &mut s, (0, 0), Dir::North, [true, true, false], [true, false, true]);
    assert!(m.has_wall((0, 0), Dir::North));
    assert!(m.has_wall((1, 0), Dir::South));
    assert!(m.in_frontier((0, -1)));
    assert_eq!(ev.len(), 1);
    assert_eq!(ev[0].side, 0);
    assert_eq!(ev[0].dir, Dir::North);
    assert!(ev[0].wall);
    // A third wall reading changes nothing.
    let ev = sense_walls(&mut m, &mut s, (0, 0), Dir::North, [true, false, false], [true, false, false]);
    assert!(ev.is_empty());
    assert_eq!(s.get((0, 0), Dir::North), 2);
    // The streak must run down to -2 before the side is recorded open.
    for _ in 0..3 {
        sense_walls(&mut m, &mut s, (0, 0), Dir::North, [true, false, false], [false, false, false]);
        assert!(m.has_wall((0, 0), Dir::North));
    }
    let ev = sense_walls(&mut m, &mut s, (0, 0), Dir::North, [true, false, false], [false, false, false]);
    assert!(!m.has_wall((0, 0), Dir::North));
    assert!(!m.has_wall((1, 0), Dir::South));
    assert_eq!(ev.len(), 1);
    assert!(!ev[0].wall);
}

#[test]
fn collisions_record_walls() {
    let mut m = DynMap::new();
    let mut s = WallStreaks::new();
    assert!(!note_collision(&mut m, &mut s, (0, 0), Dir::East, false));
    assert!(!m.has_wall((0, 0), Dir::East));
    assert!(note_collision(&mut m, &mut s, (0, 0), Dir::East, false));
    assert!(m.has_wall((0, 0), Dir::East));
    assert!(note_collision(&mut m, &mut s, (3, 3), Dir::North, true));
    assert!(m.has_wall((4, 3), Dir::South));
}

#[test]
fn arrival_opens_and_visits() {
    let mut m = DynMap::new();
    let mut s = WallStreaks::new();
    m.record_wall((0, 0), Dir::East);
    record_arrival(&mut m, &mut s, (0, 0), (0, 1), Dir::East);
    assert!(!m.has_wall((0, 0), Dir::East));
    assert!(m.is_visited((0, 1)));
    assert!(!m.in_frontier((0, 1)));
    assert_eq!(s.get((0, 0), Dir::East), -2);
    assert_eq!(s.get((0, 1), Dir::West), -2);
}

fn readings(front: bool, left: bool, right_seen: bool, right_close: bool) -> WallReadings {
    WallReadings {
        front_blocked: front,
        left_too_close: left,
        right_wall_visible: right_seen,
        right_too_close: right_close,
    }
}

#[test]
fn wall_follower_choices() {
    let mut f = RightWallFollowerState::new();
    assert_eq!(f.next_action(readings(true, false, true, false)), WallFollowChoice::TurnLeft);
    assert_eq!(f.next_action(readings(false, false, true, true)), WallFollowChoice::EscapeRight);
    assert_eq!(f.next_action(readings(false, true, true, false)), WallFollowChoice::AvoidLeft);
    assert_eq!(f.next_action(readings(false, false, true, false)), WallFollowChoice::Forward);
    assert_eq!(f.next_action(readings(false, false, false, false)), WallFollowChoice::RecoverEdge);
    assert!(f.recovering_right_wall);
    assert_eq!(f.next_action(readings(false, false, true, false)), WallFollowChoice::Forward);
    assert!(!f.recovering_right_wall);
}

fn eobs(bumper: bool, ground: i32, visiting: bool, returning: bool) -> ExploreObs {
    ExploreObs { bumper, ground, visiting_led: visiting, returning_led: returning }
}

#[test]
fn wanderer_objectives() {
    let s = explore_step(State::Run, 0, eobs(false, -1, false, false));
    assert_eq!(s.state, State::Run);
    assert_eq!(s.drive, Drive::Wander);
    let s = explore_step(State::Run, 0, eobs(false, 0, false, false));
    assert_eq!(s.set_visiting, Some(true));
    assert!(s.announce_visit);
    assert_eq!(s.state, State::Run);
    let s = explore_step(State::Run, 0, eobs(false, 0, true, false));
    assert_eq!(s.state, State::Wait);
    assert_eq!(s.drive, Drive::Hold);
    let s = explore_step(State::Wait, 0, eobs(false, 0, true, false));
    assert_eq!(s.set_returning, Some(true));
    assert_eq!(s.set_visiting, Some(false));
    assert_eq!(s.drive, Drive::Stop);
    assert_eq!(s.state, State::Wait);
    let s = explore_step(State::Wait, 0, eobs(false, 0, false, true));
    assert_eq!(s.state, State::Return);
    let s = explore_step(State::Return, 0, eobs(false, 0, false, false));
    assert_eq!(s.drive, Drive::Wander);
    assert_eq!(s.set_returning, Some(false));
}

#[test]
fn wanderer_recovers_from_collisions() {
    let s = explore_step(State::Run, 0, eobs(true, 0, false, false));
    assert_eq!(s.drive, Drive::Recover);
    assert_eq!(s.recover_ticks, 7);
    assert_eq!(s.set_visiting, None);
    let s = explore_step(State::Wait, 1, eobs(false, 0, false, true));
    assert_eq!(s.drive, Drive::Recover);
    assert_eq!(s.recover_ticks, 0);
    assert_eq!(s.state, State::Wait);
}

fn mobs() -> MissionObs {
    MissionObs {
        finished: false,
        stop_button: false,
        bumper: false,
        compass_known: true,
        ground: -1,
        returning_led: false,
    }
}

#[test]
fn wall_follower_mission() {
    let s = mission_step(MissionState::Initialize, 0, MissionObs { compass_known: false, ..mobs() });
    assert_eq!(s.state, MissionState::Initialize);
    assert_eq!(s.act, MissionAct::Stop);
    let s = mission_step(MissionState::Initialize, 0, mobs());
    assert_eq!(s.state, MissionState::Explore);
    assert!(s.init_heading);
    assert_eq!(s.announce, Announce::Initialized);
    let s = mission_step(MissionState::Explore, 0, mobs());
    assert_eq!(s.act, MissionAct::FollowWall);
    let s = mission_step(MissionState::Explore, 0, MissionObs { ground: 0, ..mobs() });
    assert_eq!(s.state, MissionState::SignalReturn);
    assert_eq!(s.set_visiting, Some(true));
    let s = mission_step(MissionState::SignalReturn, 0, MissionObs { returning_led: true, ..mobs() });
    assert_eq!(s.state, MissionState::Return);
    assert_eq!(s.announce, Announce::Returning);
    let s = mission_step(MissionState::Return, 0, MissionObs { bumper: true, ..mobs() });
    assert_eq!(s.act, MissionAct::Recover);
    assert!(s.clear_turn);
    assert_eq!(s.recovery_ticks, 7);
    let s = mission_step(MissionState::Return, 3, MissionObs { finished: true, ..mobs() });
    assert_eq!(s.state, MissionState::Finished);
    assert_eq!(s.act, MissionAct::Stop);
    let s = mission_step(MissionState::Explore, 0, MissionObs { stop_button: true, ..mobs() });
    assert_eq!(s.state, MissionState::Explore);
    assert_eq!(s.act, MissionAct::Stop);
}

#[test]
fn mapping_agent_start_and_return() {
    assert!(target_sighted(1, false));
    assert!(!target_sighted(0, false));
    assert!(!target_sighted(-1, false));
    assert!(!target_sighted(2, true));
    let s = start_step(false, true, 0);
    assert_eq!(s.state, AgentState::WaitStart);
    assert!(!s.sense);
    let s = start_step(true, true, 0);
    assert!(s.init_pose && s.sense);
    assert_eq!(s.settle_cycles, 1);
    let s = start_step(true, true, 4);
    assert!(!s.init_pose);
    assert_eq!(s.state, AgentState::Explore);
    assert_eq!(stuck_step(0), (1, true, false));
    assert_eq!(stuck_step(49), (50, false, false));
    assert_eq!(stuck_step(50), (51, false, true));
}

#[test]
fn mapping_agent_follow_up_and_plan() {
    assert_eq!(after_motion_step(true, false, Some(Dir::East)), FollowUp::Nothing);
    assert_eq!(after_motion_step(true, true, Some(Dir::East)), FollowUp::StartDrive(Dir::East));
    assert_eq!(after_motion_step(false, true, Some(Dir::North)), FollowUp::Arrive(Dir::North));
    assert_eq!(after_motion_step(false, true, None), FollowUp::Nothing);

    let p = plan_step(AgentState::Explore, false, Some(Dir::South), 3);
    assert_eq!(p.state, AgentState::Explore);
    assert_eq!(p.go, Some(Dir::South));
    assert_eq!(p.no_progress_cycles, 3);
    let p = plan_step(AgentState::Explore, false, None, 0);
    assert_eq!(p.state, AgentState::ReturnToStart);
    assert_eq!(p.go, None);
    assert!(!p.finish_run);

    let p = plan_step(AgentState::ReturnToStart, true, None, 7);
    assert_eq!(p.state, AgentState::Done);
    assert!(p.finish_run);
    let p = plan_step(AgentState::ReturnToStart, false, Some(Dir::West), 7);
    assert_eq!(p.go, Some(Dir::West));
    assert_eq!(p.no_progress_cycles, 0);
    let p = plan_step(AgentState::ReturnToStart, false, None, 0);
    assert_eq!(p.no_progress_cycles, 1);
    assert!(p.report_stuck && !p.finish_run);
    assert_eq!(p.state, AgentState::ReturnToStart);
    let p = plan_step(AgentState::ReturnToStart, false, None, 50);
    assert_eq!(p.no_progress_cycles, 51);
    assert!(!p.report_stuck && p.finish_run);
    assert_eq!(p.state, AgentState::Done);
}

#[test]
fn motion_budget_of_a_blocked_drive() {
    // A drive of n cycles blocked on its last cycle comes to rest after n + 8 steps.
    let n: u32 = 3;
    let mut m = Motion::Driving { cycles_left: n };
    let clear = MotionObs {
        heading_in_tolerance: false,
        blocked_ahead: false,
        drive_complete: false,
        blocked_behind: false,
    };
    let mut steps = 0;
    loop {
        let obs = if m == (Motion::Driving { cycles_left: 0 }) {
            MotionObs { blocked_ahead: true, ..clear }
        } else {
            clear
        };
        let r = step_motion(m, 0, obs);
        steps += 1;
        m = r.next;
        if r.done {
            break;
        }
    }
    assert_eq!(steps, n + 8);
    assert_eq!(m, Motion::Idle);
}
