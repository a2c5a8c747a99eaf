//! Messages exchanged with the CiberRato simulator, as plain values.
//!
//! Numbers that the simulator sends as single-precision reals are carried as
//! their IEEE-754 bit patterns (`*_bits`); this library only moves them.
use vstd::prelude::*;
use vstd::string::StringExecFns;
use crate::text::str_eq;

verus! {

/// The robot's connection settings.
pub struct Config {
    pub host: String,
    pub port: u16,
    pub pos: i32,
    pub name: String,
    /// Whether to log the ground-truth position and write a trace file.
    pub debug_gps: bool,
}

/// A beacon reading: its id and its value, "NotVisible" or a direction.
pub struct BeaconSensorValue {
    pub id: i32,
    pub value: String,
    /// The value read as a real number (bit pattern), when it is one.
    pub dir_bits: Option<u32>,
}

/// The line sensor's reading: one '0' or '1' per element.
pub struct LineSensorValue {
    pub value: String,
}

/// An obstacle sensor reading.
#[derive(Clone, Copy)]
pub struct IrSensorValue {
    pub id: i32,
    pub value_bits: u32,
}

/// A position reading.
#[derive(Clone, Copy, Debug, PartialEq, Eq, Structural)]
pub struct GpsMeasure {
    pub x_bits: u32,
    pub y_bits: u32,
    pub dir_bits: u32,
}

/// The LED states reported by the simulator ("On" / "Off").
pub struct LedsMsg {
    pub end_led: Option<String>,
    pub visiting_led: Option<String>,
    pub returning_led: Option<String>,
}

/// The button states reported by the simulator ("On" / "Off").
pub struct ButtonsMsg {
    pub start: Option<String>,
    pub stop: Option<String>,
}

/// The sensor part of a measures message.
pub struct SensorsMsg {
    pub compass_bits: Option<u32>,
    /// "Yes"/"Sim" when colliding.
    pub collision: Option<String>,
    pub ground: Option<i32>,
    pub ir_sensors: Vec<IrSensorValue>,
    pub beacon_sensors: Vec<BeaconSensorValue>,
    pub line_sensor: Option<LineSensorValue>,
    pub gps: Option<GpsMeasure>,
}

/// One cycle's measures message.
pub struct MeasuresMsg {
    pub time: i32,
    pub sensors: SensorsMsg,
    pub leds: LedsMsg,
    pub buttons: ButtonsMsg,
}

/// Default simulation length when the simulator does not say.
pub fn default_sim_time() -> (r: i32)
    ensures
        r == 10000,
{
    10000
}

/// Default cycle length in milliseconds when the simulator does not say.
pub fn default_cycle_time() -> (r: i32)
    ensures
        r == 100,
{
    100
}

/// The fourth sensor the mapping agent requests in cycle `cycle`, besides
/// the three front obstacle sensors: the compass every fourth cycle from the
/// first, the rear obstacle sensor every fourth cycle from the fourth, the
/// ground sensor in the others.
pub fn rotating_sensor(cycle: u32) -> (r: &'static str)
    ensures
        r@ == (if cycle % 4 == 0 {
            "Compass"@
        } else if cycle % 4 == 3 {
            "IRSensor3"@
        } else {
            "Ground"@
        }),
{
    let k = cycle % 4;
    if k == 0 {
        "Compass"
    } else if k == 3 {
        "IRSensor3"
    } else {
        "Ground"
    }
}

/// The sensors that can be requested, one slot each.
pub struct SensorRequests {
    pub ir0: String,
    pub ir1: String,
    pub ir2: String,
    pub ir3: String,
    pub compass: String,
    pub ground: String,
}

/// The slot a sensor name selects: 0..4 the obstacle sensors, 4 the compass,
/// 5 the ground sensor, -1 for any other name.
pub open spec fn request_slot(name: Seq<char>) -> int {
    if name == "IRSensor0"@ {
        0
    } else if name == "IRSensor1"@ {
        1
    } else if name == "IRSensor2"@ {
        2
    } else if name == "IRSensor3"@ {
        3
    } else if name == "Compass"@ {
        4
    } else if name == "Ground"@ {
        5
    } else {
        -1
    }
}

/// 1 when a slot is filled, else 0.
pub open spec fn filled(s: Seq<char>) -> int {
    if s.len() > 0 {
        1
    } else {
        0
    }
}

impl SensorRequests {
    /// The slots' contents in order.
    pub open spec fn slots(&self) -> Seq<Seq<char>> {
        seq![self.ir0@, self.ir1@, self.ir2@, self.ir3@, self.compass@, self.ground@]
    }

    /// No sensor requested.
    pub fn new() -> (r: SensorRequests)
        ensures
            forall|i: int| 0 <= i < 6 ==> #[trigger] r.slots()[i] == Seq::<char>::empty(),
    {
        SensorRequests {
            ir0: String::new(),
            ir1: String::new(),
            ir2: String::new(),
            ir3: String::new(),
            compass: String::new(),
            ground: String::new(),
        }
    }

    /// Requests the sensor `name`: its slot becomes "Yes". Returns `false`,
    /// changing nothing, for an unknown name.
    pub fn set(&mut self, name: &str) -> (r: bool)
        ensures
            r == (request_slot(name@) >= 0),
            final(self).slots().len() == 6,
            forall|i: int|
                0 <= i < 6 ==> #[trigger] final(self).slots()[i] == (if i == request_slot(name@) {
                    "Yes"@
                } else {
                    old(self).slots()[i]
                }),
    {
        if str_eq(name, "IRSensor0") {
            self.ir0 = String::from_str("Yes");
        } else if str_eq(name, "IRSensor1") {
            self.ir1 = String::from_str("Yes");
        } else if str_eq(name, "IRSensor2") {
            self.ir2 = String::from_str("Yes");
        } else if str_eq(name, "IRSensor3") {
            self.ir3 = String::from_str("Yes");
        } else if str_eq(name, "Compass") {
            self.compass = String::from_str("Yes");
        } else if str_eq(name, "Ground") {
            self.ground = String::from_str("Yes");
        } else {
            return false;
        }
        true
    }

    /// The number of requested sensors.
    pub fn count(&self) -> (r: usize)
        ensures
            r == filled(self.ir0@) + filled(self.ir1@) + filled(self.ir2@) + filled(self.ir3@)
                + filled(self.compass@) + filled(self.ground@),
    {
        let mut n: usize = 0;
        if !self.ir0.as_str().is_empty() {
            n = n + 1;
        }
        if !self.ir1.as_str().is_empty() {
            n = n + 1;
        }
        if !self.ir2.as_str().is_empty() {
            n = n + 1;
        }
        if !self.ir3.as_str().is_empty() {
            n = n + 1;
        }
        if !self.compass.as_str().is_empty() {
            n = n + 1;
        }
        if !self.ground.as_str().is_empty() {
            n = n + 1;
        }
        n
    }
}


/// The requestable sensors and their slots, in order: the obstacle sensors
/// "IRSensor0" to "IRSensor3", then "Compass", then "Ground"; any other name
/// selects no slot.
pub proof fn lemma_request_names(name: Seq<char>)
    ensures
        request_slot("IRSensor0"@) == 0,
        request_slot("IRSensor1"@) == 1,
        request_slot("IRSensor2"@) == 2,
        request_slot("IRSensor3"@) == 3,
        request_slot("Compass"@) == 4,
        request_slot("Ground"@) == 5,
        name != "IRSensor0"@ && name != "IRSensor1"@ && name != "IRSensor2"@ && name != "IRSensor3"@
            && name != "Compass"@ && name != "Ground"@ ==> request_slot(name) == -1,
{
    reveal_strlit("IRSensor0");
    reveal_strlit("IRSensor1");
    reveal_strlit("IRSensor2");
    reveal_strlit("IRSensor3");
    reveal_strlit("Compass");
    reveal_strlit("Ground");
    assert("IRSensor1"@[8] != "IRSensor0"@[8]);
    assert("IRSensor2"@[8] != "IRSensor0"@[8]);
    assert("IRSensor2"@[8] != "IRSensor1"@[8]);
    assert("IRSensor3"@[8] != "IRSensor0"@[8]);
    assert("IRSensor3"@[8] != "IRSensor1"@[8]);
    assert("IRSensor3"@[8] != "IRSensor2"@[8]);
    assert("Compass"@.len() != "IRSensor0"@.len());
    assert("Compass"@ != "IRSensor0"@ && "Compass"@ != "IRSensor1"@ && "Compass"@ != "IRSensor2"@
        && "Compass"@ != "IRSensor3"@);
    assert("Ground"@.len() != "IRSensor0"@.len() && "Ground"@.len() != "Compass"@.len());
    assert("Ground"@ != "IRSensor0"@ && "Ground"@ != "IRSensor1"@ && "Ground"@ != "IRSensor2"@
        && "Ground"@ != "IRSensor3"@ && "Ground"@ != "Compass"@);
}

} // verus!
