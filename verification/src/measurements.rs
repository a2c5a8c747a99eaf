//! The robot's picture of its sensors, updated from each measures message.
//!
//! Readings persist between messages: a message only changes what it reports.
use vstd::prelude::*;
use vstd::string::StrSliceExecFns;
use crate::protocol::{GpsMeasure, IrSensorValue, BeaconSensorValue, MeasuresMsg};
use crate::text::str_eq;

verus! {

/// A beacon's last known direction (bit pattern) and visibility.
#[derive(Clone, Copy, Debug, PartialEq, Eq, Structural)]
pub struct BeaconMeasure {
    pub dir_bits: u32,
    pub visible: bool,
}

/// All sensor data known after the messages received so far.
pub struct Measurements {
    pub time: i32,
    pub compass_bits: u32,
    pub compass_ready: bool,
    pub beacons: Vec<BeaconMeasure>,
    pub beacons_ready: Vec<bool>,
    pub collision: bool,
    pub collision_ready: bool,
    pub ground: i32,
    pub ground_ready: bool,
    pub ir_sensor_bits: [u32; 4],
    pub ir_sensor_ready: [bool; 4],
    pub line_sensor: [bool; 7],
    pub line_sensor_ready: bool,
    pub gps_data: GpsMeasure,
    pub gps_ready: bool,
    pub start_button: bool,
    pub stop_button: bool,
    pub end_led: bool,
    pub returning_led: bool,
    pub visiting_led: bool,
    pub hear_message: Vec<String>,
}

/// The value obstacle sensor `k` shows after readings `rs`, starting from `v`.
pub open spec fn ir_after(rs: Seq<IrSensorValue>, k: int, v: u32) -> u32
    decreases rs.len(),
{
    if rs.len() == 0 {
        v
    } else if rs.last().id == k {
        rs.last().value_bits
    } else {
        ir_after(rs.drop_last(), k, v)
    }
}

/// Whether readings `rs` report obstacle sensor `k`.
pub open spec fn ir_reported(rs: Seq<IrSensorValue>, k: int) -> bool {
    exists|i: int| 0 <= i < rs.len() && #[trigger] rs[i].id == k
}

/// What beacon `k` shows after readings `bs`, starting from `b`.
pub open spec fn beacon_after(bs: Seq<BeaconSensorValue>, k: int, b: BeaconMeasure) -> BeaconMeasure
    decreases bs.len(),
{
    if bs.len() == 0 {
        b
    } else {
        let prior = beacon_after(bs.drop_last(), k, b);
        let r = bs.last();
        if r.id == k {
            if r.value@ == "NotVisible"@ {
                BeaconMeasure { visible: false, ..prior }
            } else {
                match r.dir_bits {
                    Some(d) => BeaconMeasure { dir_bits: d, visible: true },
                    None => prior,
                }
            }
        } else {
            prior
        }
    }
}

/// Whether readings `bs` report beacon `k`.
pub open spec fn beacon_reported(bs: Seq<BeaconSensorValue>, k: int) -> bool {
    exists|i: int| 0 <= i < bs.len() && #[trigger] bs[i].id == k
}

/// A reported switch state: "On" is on, anything else off.
pub open spec fn switch_on(s: Seq<char>) -> bool {
    s == "On"@
}

/// A reported collision: "Yes" or "Sim" is a collision.
pub open spec fn collision_yes(s: Seq<char>) -> bool {
    s == "Yes"@ || s == "Sim"@
}

/// An optional switch report applied to the known state.
pub open spec fn switch_after(report: Option<String>, known: bool) -> bool {
    match report {
        Some(s) => switch_on(s@),
        None => known,
    }
}

/// The line sensor's cells after reading `value`: cell `i` is on when the
/// `i`-th character is '1'; cells beyond the reading keep their state.
fn line_cells(cells: [bool; 7], value: &String) -> (r: [bool; 7])
    ensures
        forall|i: int|
            0 <= i < 7 ==> #[trigger] r[i] == (if i < value@.len() {
                value@[i] == '1'
            } else {
                cells[i]
            }),
{
    let n = value.as_str().unicode_len();
    let mut out = cells;
    let mut i: usize = 0;
    while i < 7 && i < n
        invariant
            n == value@.len(),
            i <= 7,
            i <= n,
            forall|j: int| 0 <= j < i ==> #[trigger] out[j] == (value@[j] == '1'),
            forall|j: int| i <= j < 7 ==> #[trigger] out[j] == cells[j],
        decreases 7 - i,
    {
        let c = value.as_str().get_char(i);
        out[i] = c == '1';
        i = i + 1;
    }
    out
}

/// A switch's state after an optional report.
fn read_switch(report: &Option<String>, known: bool) -> (r: bool)
    ensures
        r == switch_after(*report, known),
{
    match report {
        Some(s) => str_eq(s.as_str(), "On"),
        None => known,
    }
}

/// The sensor picture `m1` after applying message `msg` to `m0`: every
/// reading the message carries replaces the known one (obstacle sensors and
/// beacons outside the known ids are ignored), everything else stays.
pub open spec fn measures_after(m0: Measurements, m1: Measurements, msg: MeasuresMsg) -> bool {
    &&& m1.time == msg.time
    &&& m1.compass_bits == (match msg.sensors.compass_bits {
        Some(c) => c,
        None => m0.compass_bits,
    })
    &&& m1.compass_ready == (m0.compass_ready || msg.sensors.compass_bits is Some)
    &&& m1.collision == (match msg.sensors.collision {
        Some(c) => collision_yes(c@),
        None => m0.collision,
    })
    &&& m1.collision_ready == (m0.collision_ready || msg.sensors.collision is Some)
    &&& m1.ground == (match msg.sensors.ground {
        Some(g) => g,
        None => m0.ground,
    })
    &&& m1.ground_ready == (m0.ground_ready || msg.sensors.ground is Some)
    &&& forall|k: int|
        0 <= k < 4 ==> #[trigger] m1.ir_sensor_bits[k] == ir_after(
            msg.sensors.ir_sensors@,
            k,
            m0.ir_sensor_bits[k],
        )
    &&& forall|k: int|
        0 <= k < 4 ==> #[trigger] m1.ir_sensor_ready[k] == (m0.ir_sensor_ready[k] || ir_reported(
            msg.sensors.ir_sensors@,
            k,
        ))
    &&& m1.beacons@.len() == m0.beacons@.len()
    &&& m1.beacons_ready@.len() == m0.beacons_ready@.len()
    &&& forall|k: int|
        0 <= k < m0.beacons@.len() ==> #[trigger] m1.beacons@[k] == beacon_after(
            msg.sensors.beacon_sensors@,
            k,
            m0.beacons@[k],
        )
    &&& forall|k: int|
        0 <= k < m0.beacons@.len() ==> #[trigger] m1.beacons_ready@[k] == (m0.beacons_ready@[k]
            || beacon_reported(msg.sensors.beacon_sensors@, k))
    &&& forall|k: int|
        m0.beacons@.len() <= k < m0.beacons_ready@.len() ==> #[trigger] m1.beacons_ready@[k]
            == m0.beacons_ready@[k]
    &&& m1.line_sensor_ready == (m0.line_sensor_ready || msg.sensors.line_sensor is Some)
    &&& forall|i: int|
        0 <= i < 7 ==> #[trigger] m1.line_sensor[i] == (match msg.sensors.line_sensor {
            Some(l) => if i < l.value@.len() {
                l.value@[i] == '1'
            } else {
                m0.line_sensor[i]
            },
            None => m0.line_sensor[i],
        })
    &&& m1.gps_data == (match msg.sensors.gps {
        Some(g) => g,
        None => m0.gps_data,
    })
    &&& m1.gps_ready == (m0.gps_ready || msg.sensors.gps is Some)
    &&& m1.end_led == switch_after(msg.leds.end_led, m0.end_led)
    &&& m1.visiting_led == switch_after(msg.leds.visiting_led, m0.visiting_led)
    &&& m1.returning_led == switch_after(msg.leds.returning_led, m0.returning_led)
    &&& m1.start_button == switch_after(msg.buttons.start, m0.start_button)
    &&& m1.stop_button == switch_after(msg.buttons.stop, m0.stop_button)
    &&& m1.hear_message@ == m0.hear_message@
}

proof fn lemma_ir_after_again(rs: Seq<IrSensorValue>, k: int, v: u32)
    ensures
        ir_after(rs, k, ir_after(rs, k, v)) == ir_after(rs, k, v),
    decreases rs.len(),
{
    if rs.len() > 0 && rs.last().id != k {
        lemma_ir_after_again(rs.drop_last(), k, v);
    }
}

proof fn lemma_beacon_dir_kept(bs: Seq<BeaconSensorValue>, k: int, b1: BeaconMeasure, b2: BeaconMeasure)
    requires
        b1.dir_bits == b2.dir_bits,
    ensures
        beacon_after(bs, k, b1).dir_bits == beacon_after(bs, k, b2).dir_bits,
    decreases bs.len(),
{
    if bs.len() > 0 {
        lemma_beacon_dir_kept(bs.drop_last(), k, b1, b2);
    }
}

proof fn lemma_beacon_after_again(bs: Seq<BeaconSensorValue>, k: int, b: BeaconMeasure)
    ensures
        beacon_after(bs, k, beacon_after(bs, k, b)) == beacon_after(bs, k, b),
    decreases bs.len(),
{
    if bs.len() > 0 {
        let pre = bs.drop_last();
        let x = beacon_after(bs, k, b);
        lemma_beacon_after_again(pre, k, b);
        let r = bs.last();
        if r.id == k && r.value@ == "NotVisible"@ {
            lemma_beacon_dir_kept(pre, k, x, beacon_after(pre, k, b));
        } else if r.id == k && r.dir_bits is None {
        } else if r.id != k {
        }
    }
}

/// Applying the same measures message twice leaves the sensor picture as
/// applying it once: every reading a message carries overwrites, whatever
/// was known before.
pub proof fn lemma_update_idempotent(m0: Measurements, m1: Measurements, m2: Measurements, msg: MeasuresMsg)
    requires
        measures_after(m0, m1, msg),
        measures_after(m1, m2, msg),
    ensures
        m2.time == m1.time,
        m2.compass_bits == m1.compass_bits,
        m2.compass_ready == m1.compass_ready,
        m2.beacons@ == m1.beacons@,
        m2.beacons_ready@ == m1.beacons_ready@,
        m2.collision == m1.collision,
        m2.collision_ready == m1.collision_ready,
        m2.ground == m1.ground,
        m2.ground_ready == m1.ground_ready,
        m2.ir_sensor_bits@ == m1.ir_sensor_bits@,
        m2.ir_sensor_ready@ == m1.ir_sensor_ready@,
        m2.line_sensor@ == m1.line_sensor@,
        m2.line_sensor_ready == m1.line_sensor_ready,
        m2.gps_data == m1.gps_data,
        m2.gps_ready == m1.gps_ready,
        m2.start_button == m1.start_button,
        m2.stop_button == m1.stop_button,
        m2.end_led == m1.end_led,
        m2.returning_led == m1.returning_led,
        m2.visiting_led == m1.visiting_led,
        m2.hear_message@ == m1.hear_message@,
{
    let rs = msg.sensors.ir_sensors@;
    let bs = msg.sensors.beacon_sensors@;
    assert forall|k: int| 0 <= k < 4 implies m2.ir_sensor_bits[k] == m1.ir_sensor_bits[k] by {
        lemma_ir_after_again(rs, k, m0.ir_sensor_bits[k]);
    }
    assert(m2.ir_sensor_bits@ =~= m1.ir_sensor_bits@);
    assert(m2.ir_sensor_ready@ =~= m1.ir_sensor_ready@);
    assert(m2.line_sensor@ =~= m1.line_sensor@);
    assert forall|k: int| 0 <= k < m1.beacons@.len() implies m2.beacons@[k] == m1.beacons@[k] by {
        lemma_beacon_after_again(bs, k, m0.beacons@[k]);
    }
    assert(m2.beacons@ =~= m1.beacons@);
    assert(m2.beacons_ready@ =~= m1.beacons_ready@);
}

/// The value of the last report for sensor `k` wins; with no report for
/// `k` the value stays.
proof fn lemma_ir_after_last(rs: Seq<IrSensorValue>, k: int, v: u32)
    ensures
        !ir_reported(rs, k) ==> ir_after(rs, k, v) == v,
        ir_reported(rs, k) ==> exists|i: int|
            0 <= i < rs.len() && rs[i].id == k && ir_after(rs, k, v) == rs[i].value_bits && forall|
                j: int,
            | i < j < rs.len() ==> #[trigger] rs[j].id != k,
    decreases rs.len(),
{
    if rs.len() > 0 {
        let pre = rs.drop_last();
        lemma_ir_after_last(pre, k, v);
        let n = rs.len() - 1;
        if rs.last().id == k {
            assert(rs[n].id == k);
        } else {
            if ir_reported(rs, k) {
                let i = choose|i: int| 0 <= i < rs.len() && #[trigger] rs[i].id == k;
                assert(i < n);
                assert(pre[i].id == k);
                let i2 = choose|i2: int|
                    0 <= i2 < pre.len() && pre[i2].id == k && ir_after(pre, k, v) == pre[i2].value_bits
                        && forall|j: int| i2 < j < pre.len() ==> #[trigger] pre[j].id != k;
                assert(rs[i2] == pre[i2]);
                assert forall|j: int| i2 < j < rs.len() implies #[trigger] rs[j].id != k by {
                    if j < n {
                        assert(rs[j] == pre[j]);
                    }
                }
            } else {
                assert forall|i: int| 0 <= i < pre.len() implies #[trigger] pre[i].id != k by {
                    assert(pre[i] == rs[i]);
                }
            }
        }
    }
}

/// What a measures message does to the collision flag, the LEDs, the
/// buttons and the ground, compass and position readings: a collision
/// report of exactly "Yes" or "Sim" means a collision and any other report
/// none; a LED or button report of exactly "On" means on and any other
/// report off; a reading replaces the known one; any report marks its
/// reading ready; without a report everything stays. The message's time is
/// taken.
pub proof fn lemma_message_reports(m0: Measurements, m1: Measurements, msg: MeasuresMsg)
    requires
        measures_after(m0, m1, msg),
    ensures
        m1.time == msg.time,
        msg.sensors.collision matches Some(c) ==> m1.collision_ready && (m1.collision <==> (c@
            == "Yes"@ || c@ == "Sim"@)),
        msg.sensors.collision is None ==> m1.collision == m0.collision && m1.collision_ready
            == m0.collision_ready,
        msg.leds.visiting_led matches Some(v) ==> (m1.visiting_led <==> v@ == "On"@),
        msg.leds.returning_led matches Some(v) ==> (m1.returning_led <==> v@ == "On"@),
        msg.leds.end_led matches Some(v) ==> (m1.end_led <==> v@ == "On"@),
        msg.buttons.start matches Some(v) ==> (m1.start_button <==> v@ == "On"@),
        msg.buttons.stop matches Some(v) ==> (m1.stop_button <==> v@ == "On"@),
        msg.leds.visiting_led is None ==> m1.visiting_led == m0.visiting_led,
        msg.leds.returning_led is None ==> m1.returning_led == m0.returning_led,
        msg.leds.end_led is None ==> m1.end_led == m0.end_led,
        msg.buttons.start is None ==> m1.start_button == m0.start_button,
        msg.buttons.stop is None ==> m1.stop_button == m0.stop_button,
        msg.sensors.ground matches Some(g) ==> m1.ground == g && m1.ground_ready,
        msg.sensors.ground is None ==> m1.ground == m0.ground && m1.ground_ready == m0.ground_ready,
        msg.sensors.compass_bits matches Some(c) ==> m1.compass_bits == c && m1.compass_ready,
        msg.sensors.compass_bits is None ==> m1.compass_bits == m0.compass_bits
            && m1.compass_ready == m0.compass_ready,
        msg.sensors.gps matches Some(p) ==> m1.gps_data == p && m1.gps_ready,
        msg.sensors.gps is None ==> m1.gps_data == m0.gps_data && m1.gps_ready == m0.gps_ready,
        msg.sensors.line_sensor matches Some(l) ==> m1.line_sensor_ready && forall|i: int|
            0 <= i < 7 && i < l.value@.len() ==> (#[trigger] m1.line_sensor[i] <==> l.value@[i]
                == '1'),
        msg.sensors.line_sensor is None ==> m1.line_sensor@ == m0.line_sensor@
            && m1.line_sensor_ready == m0.line_sensor_ready,
{
    if msg.sensors.line_sensor is None {
        assert(m1.line_sensor@ =~= m0.line_sensor@);
    }
}

/// What a measures message does to the obstacle sensors: sensor `k` (of the
/// four) takes the value of the last report for `k` in the message and is
/// then ready; a sensor not reported keeps its value and readiness.
pub proof fn lemma_obstacle_reports(m0: Measurements, m1: Measurements, msg: MeasuresMsg, k: int)
    requires
        measures_after(m0, m1, msg),
        0 <= k < 4,
    ensures
        (exists|i: int|
            0 <= i < msg.sensors.ir_sensors@.len() && #[trigger] msg.sensors.ir_sensors@[i].id == k)
            ==> m1.ir_sensor_ready[k] && exists|i: int|
            0 <= i < msg.sensors.ir_sensors@.len() && msg.sensors.ir_sensors@[i].id == k
                && m1.ir_sensor_bits[k] == msg.sensors.ir_sensors@[i].value_bits && forall|j: int|
                i < j < msg.sensors.ir_sensors@.len() ==> #[trigger] msg.sensors.ir_sensors@[j].id
                    != k,
        (forall|i: int|
            0 <= i < msg.sensors.ir_sensors@.len() ==> #[trigger] msg.sensors.ir_sensors@[i].id
                != k) ==> m1.ir_sensor_bits[k] == m0.ir_sensor_bits[k] && m1.ir_sensor_ready[k]
            == m0.ir_sensor_ready[k],
{
    lemma_ir_after_last(msg.sensors.ir_sensors@, k, m0.ir_sensor_bits[k]);
}

proof fn lemma_beacon_after_last(bs: Seq<BeaconSensorValue>, k: int, b: BeaconMeasure, i: int)
    requires
        0 <= i < bs.len(),
        bs[i].id == k,
        forall|j: int| i < j < bs.len() ==> #[trigger] bs[j].id != k,
    ensures
        bs[i].value@ == "NotVisible"@ ==> !beacon_after(bs, k, b).visible,
        bs[i].value@ != "NotVisible"@ ==> (bs[i].dir_bits matches Some(d) ==> beacon_after(bs, k, b)
            == (BeaconMeasure { dir_bits: d, visible: true })),
    decreases bs.len(),
{
    let pre = bs.drop_last();
    if i < bs.len() - 1 {
        assert(bs[bs.len() - 1].id != k);
        assert forall|j: int| i < j < pre.len() implies #[trigger] pre[j].id != k by {
            assert(pre[j] == bs[j]);
        }
        lemma_beacon_after_last(pre, k, b, i);
    }
}

proof fn lemma_beacon_after_none(bs: Seq<BeaconSensorValue>, k: int, b: BeaconMeasure)
    requires
        forall|j: int| 0 <= j < bs.len() ==> #[trigger] bs[j].id != k,
    ensures
        beacon_after(bs, k, b) == b,
    decreases bs.len(),
{
    if bs.len() > 0 {
        let pre = bs.drop_last();
        assert(bs[bs.len() - 1].id != k);
        assert forall|j: int| 0 <= j < pre.len() implies #[trigger] pre[j].id != k by {
            assert(pre[j] == bs[j]);
        }
        lemma_beacon_after_none(pre, k, b);
    }
}

/// What a measures message does to beacon `k`: a report for it makes it
/// ready; when the last report for it reads "NotVisible" the beacon is not
/// visible; when it reads a direction the beacon is visible in that
/// direction; a beacon not reported keeps its reading and readiness.
pub proof fn lemma_beacon_reports(m0: Measurements, m1: Measurements, msg: MeasuresMsg, k: int, i: int)
    requires
        measures_after(m0, m1, msg),
        0 <= k < m0.beacons@.len(),
    ensures
        0 <= i < msg.sensors.beacon_sensors@.len() && msg.sensors.beacon_sensors@[i].id == k
            ==> m1.beacons_ready@[k],
        0 <= i < msg.sensors.beacon_sensors@.len() && msg.sensors.beacon_sensors@[i].id == k
            && (forall|j: int|
            i < j < msg.sensors.beacon_sensors@.len() ==> #[trigger] msg.sensors.beacon_sensors@[j].id
                != k) ==> (msg.sensors.beacon_sensors@[i].value@ == "NotVisible"@
            ==> !m1.beacons@[k].visible) && (msg.sensors.beacon_sensors@[i].value@ != "NotVisible"@
            ==> (msg.sensors.beacon_sensors@[i].dir_bits matches Some(d) ==> m1.beacons@[k] == (
        BeaconMeasure { dir_bits: d, visible: true }))),
        (forall|j: int|
            0 <= j < msg.sensors.beacon_sensors@.len() ==> #[trigger] msg.sensors.beacon_sensors@[j].id
                != k) ==> m1.beacons@[k] == m0.beacons@[k] && m1.beacons_ready@[k]
            == m0.beacons_ready@[k],
{
    let bs = msg.sensors.beacon_sensors@;
    if 0 <= i < bs.len() && bs[i].id == k {
        assert(beacon_reported(bs, k));
        if forall|j: int| i < j < bs.len() ==> #[trigger] bs[j].id != k {
            lemma_beacon_after_last(bs, k, m0.beacons@[k], i);
        }
    }
    if forall|j: int| 0 <= j < bs.len() ==> #[trigger] bs[j].id != k {
        lemma_beacon_after_none(bs, k, m0.beacons@[k]);
    }
}

impl Measurements {
    /// Nothing known yet: every reading zero or off, nothing ready, no
    /// message heard; `n_beacons` beacons, none visible.
    pub fn new(n_beacons: usize) -> (r: Measurements)
        ensures
            r.time == 0,
            r.compass_bits == 0,
            !r.compass_ready,
            r.beacons@.len() == n_beacons,
            r.beacons_ready@.len() == n_beacons,
            forall|i: int|
                0 <= i < n_beacons ==> #[trigger] r.beacons@[i] == (BeaconMeasure {
                    dir_bits: 0,
                    visible: false,
                }),
            forall|i: int| 0 <= i < n_beacons ==> !(#[trigger] r.beacons_ready@[i]),
            !r.collision,
            !r.collision_ready,
            r.ground == 0,
            !r.ground_ready,
            forall|i: int| 0 <= i < 4 ==> #[trigger] r.ir_sensor_bits[i] == 0,
            forall|i: int| 0 <= i < 4 ==> !(#[trigger] r.ir_sensor_ready[i]),
            forall|i: int| 0 <= i < 7 ==> !(#[trigger] r.line_sensor[i]),
            !r.line_sensor_ready,
            r.gps_data == (GpsMeasure { x_bits: 0, y_bits: 0, dir_bits: 0 }),
            !r.gps_ready,
            !r.start_button,
            !r.stop_button,
            !r.end_led,
            !r.returning_led,
            !r.visiting_led,
            r.hear_message@.len() == 0,
    {
        let mut beacons: Vec<BeaconMeasure> = Vec::new();
        let mut beacons_ready: Vec<bool> = Vec::new();
        let mut i: usize = 0;
        while i < n_beacons
            invariant
                i <= n_beacons,
                beacons@.len() == i,
                beacons_ready@.len() == i,
                forall|j: int|
                    0 <= j < i ==> #[trigger] beacons@[j] == (BeaconMeasure { dir_bits: 0, visible: false }),
                forall|j: int| 0 <= j < i ==> !(#[trigger] beacons_ready@[j]),
            decreases n_beacons - i,
        {
            beacons.push(BeaconMeasure { dir_bits: 0, visible: false });
            beacons_ready.push(false);
            i = i + 1;
        }
        Measurements {
            time: 0,
            compass_bits: 0,
            compass_ready: false,
            beacons,
            beacons_ready,
            collision: false,
            collision_ready: false,
            ground: 0,
            ground_ready: false,
            ir_sensor_bits: [0, 0, 0, 0],
            ir_sensor_ready: [false, false, false, false],
            line_sensor: [false, false, false, false, false, false, false],
            line_sensor_ready: false,
            gps_data: GpsMeasure { x_bits: 0, y_bits: 0, dir_bits: 0 },
            gps_ready: false,
            start_button: false,
            stop_button: false,
            end_led: false,
            returning_led: false,
            visiting_led: false,
            hear_message: Vec::new(),
        }
    }

    /// Applies one measures message: every reading it carries replaces the
    /// known one (obstacle sensors and beacons outside the known ids are
    /// ignored), everything else stays.
    pub fn update_from(&mut self, msg: &MeasuresMsg)
        requires
            old(self).beacons_ready@.len() >= old(self).beacons@.len(),
        ensures
            measures_after(*old(self), *final(self), *msg),
    {
        self.time = msg.time;
        self.compass_ready = self.compass_ready || msg.sensors.compass_bits.is_some();
        self.compass_bits = bits_after(msg.sensors.compass_bits, self.compass_bits);
        self.collision_ready = self.collision_ready || msg.sensors.collision.is_some();
        self.collision = collision_after(&msg.sensors.collision, self.collision);
        self.ground_ready = self.ground_ready || msg.sensors.ground.is_some();
        self.ground = ground_after(msg.sensors.ground, self.ground);
        apply_ir(&mut self.ir_sensor_bits, &mut self.ir_sensor_ready, &msg.sensors.ir_sensors);
        apply_beacons(&mut self.beacons, &mut self.beacons_ready, &msg.sensors.beacon_sensors);
        self.line_sensor_ready = self.line_sensor_ready || msg.sensors.line_sensor.is_some();
        self.line_sensor = line_after(&msg.sensors.line_sensor, self.line_sensor);
        self.gps_ready = self.gps_ready || msg.sensors.gps.is_some();
        self.gps_data = gps_after(&msg.sensors.gps, self.gps_data);
        self.end_led = read_switch(&msg.leds.end_led, self.end_led);
        self.visiting_led = read_switch(&msg.leds.visiting_led, self.visiting_led);
        self.returning_led = read_switch(&msg.leds.returning_led, self.returning_led);
        self.start_button = read_switch(&msg.buttons.start, self.start_button);
        self.stop_button = read_switch(&msg.buttons.stop, self.stop_button);
    }
}

/// A reported real (bit pattern) replacing the known one.
fn bits_after(report: Option<u32>, known: u32) -> (r: u32)
    ensures
        r == (match report {
            Some(c) => c,
            None => known,
        }),
{
    match report {
        Some(c) => c,
        None => known,
    }
}

/// A reported ground value replacing the known one.
fn ground_after(report: Option<i32>, known: i32) -> (r: i32)
    ensures
        r == (match report {
            Some(g) => g,
            None => known,
        }),
{
    match report {
        Some(g) => g,
        None => known,
    }
}

/// The collision state after an optional report.
fn collision_after(report: &Option<String>, known: bool) -> (r: bool)
    ensures
        r == (match *report {
            Some(c) => collision_yes(c@),
            None => known,
        }),
{
    match report {
        Some(c) => collision_reading(c),
        None => known,
    }
}

/// The line sensor's cells after an optional reading.
fn line_after(report: &Option<crate::protocol::LineSensorValue>, cells: [bool; 7]) -> (r: [bool; 7])
    ensures
        forall|i: int|
            0 <= i < 7 ==> #[trigger] r[i] == (match *report {
                Some(l) => if i < l.value@.len() {
                    l.value@[i] == '1'
                } else {
                    cells[i]
                },
                None => cells[i],
            }),
{
    match report {
        Some(l) => line_cells(cells, &l.value),
        None => cells,
    }
}

/// The position after an optional reading.
fn gps_after(report: &Option<GpsMeasure>, known: GpsMeasure) -> (r: GpsMeasure)
    ensures
        r == (match *report {
            Some(g) => g,
            None => known,
        }),
{
    match report {
        Some(g) => *g,
        None => known,
    }
}

/// Whether a collision report says the robot collided.
fn collision_reading(c: &String) -> (r: bool)
    ensures
        r == collision_yes(c@),
{
    str_eq(c.as_str(), "Yes") || str_eq(c.as_str(), "Sim")
}

/// Applies the obstacle sensor readings `rs` in order.
fn apply_ir(bits: &mut [u32; 4], ready: &mut [bool; 4], rs: &Vec<IrSensorValue>)
    ensures
        forall|k: int|
            0 <= k < 4 ==> #[trigger] final(bits)[k] == ir_after(rs@, k, old(bits)[k]),
        forall|k: int|
            0 <= k < 4 ==> #[trigger] final(ready)[k] == (old(ready)[k] || ir_reported(rs@, k)),
{
    let mut i: usize = 0;
    while i < rs.len()
        invariant
            i <= rs@.len(),
            forall|k: int|
                0 <= k < 4 ==> #[trigger] bits[k] == ir_after(rs@.take(i as int), k, old(bits)[k]),
            forall|k: int|
                0 <= k < 4 ==> #[trigger] ready[k] == (old(ready)[k] || ir_reported(
                    rs@.take(i as int),
                    k,
                )),
        decreases rs@.len() - i,
    {
        let ir = rs[i];
        let ghost pre = rs@.take(i as int);
        let ghost post = rs@.take(i + 1);
        proof {
            assert(post.drop_last() =~= pre);
            assert(post.last() == ir);
        }
        if ir.id >= 0 && ir.id < 4 {
            let k = ir.id as usize;
            bits[k] = ir.value_bits;
            ready[k] = true;
        }
        proof {
            assert forall|k: int| 0 <= k < 4 implies #[trigger] ready[k] == (old(ready)[k]
                || ir_reported(post, k)) by {
                if ir_reported(post, k) && !ir_reported(pre, k) {
                    let j = choose|j: int| 0 <= j < post.len() && #[trigger] post[j].id == k;
                    if j < pre.len() {
                        assert(pre[j] == post[j]);
                    }
                }
                if ir_reported(pre, k) {
                    let j = choose|j: int| 0 <= j < pre.len() && #[trigger] pre[j].id == k;
                    assert(post[j] == pre[j]);
                }
                if ir.id == k {
                    assert(post[i as int].id == k);
                }
            }
        }
        i = i + 1;
    }
    proof {
        assert(rs@.take(rs@.len() as int) =~= rs@);
    }
}

/// Applies the beacon readings `bs` in order; ids outside the known beacons
/// are ignored.
fn apply_beacons(beacons: &mut Vec<BeaconMeasure>, ready: &mut Vec<bool>, bs: &Vec<BeaconSensorValue>)
    requires
        old(ready)@.len() >= old(beacons)@.len(),
    ensures
        final(beacons)@.len() == old(beacons)@.len(),
        final(ready)@.len() == old(ready)@.len(),
        forall|k: int|
            old(beacons)@.len() <= k < old(ready)@.len() ==> #[trigger] final(ready)@[k]
                == old(ready)@[k],
        forall|k: int|
            0 <= k < old(beacons)@.len() ==> #[trigger] final(beacons)@[k] == beacon_after(
                bs@,
                k,
                old(beacons)@[k],
            ),
        forall|k: int|
            0 <= k < old(beacons)@.len() ==> #[trigger] final(ready)@[k] == (old(ready)@[k]
                || beacon_reported(bs@, k)),
{
    let n = beacons.len();
    let mut i: usize = 0;
    while i < bs.len()
        invariant
            i <= bs@.len(),
            n == old(beacons)@.len(),
            n <= old(ready)@.len(),
            beacons@.len() == n,
            ready@.len() == old(ready)@.len(),
            forall|k: int| n <= k < ready@.len() ==> #[trigger] ready@[k] == old(ready)@[k],
            forall|k: int|
                0 <= k < n ==> #[trigger] beacons@[k] == beacon_after(
                    bs@.take(i as int),
                    k,
                    old(beacons)@[k],
                ),
            forall|k: int|
                0 <= k < n ==> #[trigger] ready@[k] == (old(ready)@[k] || beacon_reported(
                    bs@.take(i as int),
                    k,
                )),
        decreases bs@.len() - i,
    {
        let b = &bs[i];
        let ghost pre = bs@.take(i as int);
        let ghost post = bs@.take(i + 1);
        let ghost before = beacons@;
        proof {
            assert(post.drop_last() =~= pre);
            assert(post.last() == *b);
        }
        if b.id >= 0 && (b.id as usize) < n {
            let k = b.id as usize;
            ready.set(k, true);
            if str_eq(b.value.as_str(), "NotVisible") {
                let cur = beacons[k];
                beacons.set(k, BeaconMeasure { visible: false, ..cur });
            } else {
                match b.dir_bits {
                    Some(d) => {
                        beacons.set(k, BeaconMeasure { dir_bits: d, visible: true });
                    },
                    None => {},
                }
            }
        }
        proof {
            assert forall|k: int| 0 <= k < n implies #[trigger] ready@[k] == (old(ready)@[k]
                || beacon_reported(post, k)) by {
                if beacon_reported(post, k) && !beacon_reported(pre, k) {
                    let j = choose|j: int| 0 <= j < post.len() && #[trigger] post[j].id == k;
                    if j < pre.len() {
                        assert(pre[j] == post[j]);
                    }
                }
                if beacon_reported(pre, k) {
                    let j = choose|j: int| 0 <= j < pre.len() && #[trigger] pre[j].id == k;
                    assert(post[j] == pre[j]);
                }
                if b.id == k {
                    assert(post[i as int].id == k);
                }
            }
            assert forall|k: int| 0 <= k < n implies #[trigger] beacons@[k] == beacon_after(
                post,
                k,
                old(beacons)@[k],
            ) by {
                assert(before[k] == beacon_after(pre, k, old(beacons)@[k]));
            }
        }
        i = i + 1;
    }
    proof {
        assert(bs@.take(bs@.len() as int) =~= bs@);
    }
}

} // verus!
