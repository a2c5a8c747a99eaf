use ciber_agent::codec::Codec;
use ciber_agent::measurements::Measurements;
use ciber_agent::protocol::{
    default_cycle_time, default_sim_time, BeaconSensorValue, ButtonsMsg, GpsMeasure,
    IrSensorValue, LedsMsg, LineSensorValue, MeasuresMsg, SensorRequests, SensorsMsg,
};

#[test]
fn single_sensor_request() {
    assert_eq!(
        Codec::build_sensor_request("Compass"),
        "<Actions> <SensorRequests Compass=\"Yes\"/> </Actions>"
    );
}

#[test]
fn several_sensor_requests() {
    assert_eq!(
        Codec::build_sensor_requests(&["IRSensor0", "Ground"]),
        "<Actions> <SensorRequests IRSensor0=\"Yes\" Ground=\"Yes\" /> </Actions>"
    );
    assert_eq!(Codec::build_sensor_requests(&[]), "<Actions> <SensorRequests /> </Actions>");
}

#[test]
fn sensor_request_slots() {
    let mut r = SensorRequests::new();
    assert_eq!(r.count(), 0);
    assert!(r.set("IRSensor2"));
    assert!(r.set("Ground"));
    assert!(!r.set("Beacon0"));
    assert_eq!(r.ir2, "Yes");
    assert_eq!(r.ground, "Yes");
    assert_eq!(r.ir0, "");
    assert_eq!(r.count(), 2);
    assert!(r.set("Ground"));
    assert_eq!(r.count(), 2);
    for n in ["IRSensor0", "IRSensor1", "IRSensor3", "Compass"] {
        assert!(r.set(n));
    }
    assert_eq!(r.count(), 6);
}

#[test]
fn parameter_defaults() {
    assert_eq!(default_sim_time(), 10000);
    assert_eq!(default_cycle_time(), 100);
}

fn empty_msg(time: i32) -> MeasuresMsg {
    MeasuresMsg {
        time,
        sensors: SensorsMsg {
            compass_bits: None,
            collision: None,
            ground: None,
            ir_sensors: vec![],
            beacon_sensors: vec![],
            line_sensor: None,
            gps: None,
        },
        leds: LedsMsg { end_led: None, visiting_led: None, returning_led: None },
        buttons: ButtonsMsg { start: None, stop: None },
    }
}

#[test]
fn measures_update_and_persist() {
    let mut m = Measurements::new(2);
    let mut msg = empty_msg(7);
    msg.sensors.compass_bits = Some(45.5f32.to_bits());
    msg.sensors.collision = Some("Sim".to_string());
    msg.sensors.ground = Some(0);
    msg.sensors.ir_sensors = vec![
        IrSensorValue { id: 1, value_bits: 2.5f32.to_bits() },
        IrSensorValue { id: 7, value_bits: 9.0f32.to_bits() },
        IrSensorValue { id: 1, value_bits: 3.0f32.to_bits() },
    ];
    msg.sensors.beacon_sensors = vec![
        BeaconSensorValue { id: 0, value: "NotVisible".to_string(), dir_bits: None },
        BeaconSensorValue { id: 1, value: "12.0".to_string(), dir_bits: Some(12.0f32.to_bits()) },
        BeaconSensorValue { id: 5, value: "1.0".to_string(), dir_bits: Some(1.0f32.to_bits()) },
    ];
    msg.sensors.line_sensor = Some(LineSensorValue { value: "0110".to_string() });
    msg.sensors.gps = Some(GpsMeasure { x_bits: 1, y_bits: 2, dir_bits: 3 });
    msg.leds.visiting_led = Some("On".to_string());
    msg.buttons.start = Some("On".to_string());
    msg.buttons.stop = Some("Off".to_string());
    m.update_from(&msg);
    assert_eq!(m.time, 7);
    assert!(m.compass_ready);
    assert_eq!(f32::from_bits(m.compass_bits), 45.5);
    assert!(m.collision && m.collision_ready);
    assert_eq!(m.ground, 0);
    assert!(m.ground_ready);
    assert_eq!(f32::from_bits(m.ir_sensor_bits[1]), 3.0);
    assert!(m.ir_sensor_ready[1]);
    assert!(!m.ir_sensor_ready[0]);
    assert!(m.beacons_ready[0] && m.beacons_ready[1]);
    assert!(!m.beacons[0].visible);
    assert!(m.beacons[1].visible);
    assert_eq!(f32::from_bits(m.beacons[1].dir_bits), 12.0);
    assert_eq!(m.line_sensor, [false, true, true, false, false, false, false]);
    assert!(m.line_sensor_ready);
    assert!(m.gps_ready);
    assert_eq!(m.gps_data, GpsMeasure { x_bits: 1, y_bits: 2, dir_bits: 3 });
    assert!(m.visiting_led);
    assert!(m.start_button);
    assert!(!m.stop_button);

    // A later message without readings keeps what is known.
    let mut later = empty_msg(8);
    later.sensors.collision = Some("No".to_string());
    m.update_from(&later);
    assert_eq!(m.time, 8);
    assert_eq!(m.ground, 0);
    assert!(!m.collision);
    assert!(m.visiting_led);
    assert_eq!(f32::from_bits(m.ir_sensor_bits[1]), 3.0);
}

/// The fields of the sensor picture, for comparing two pictures.
fn picture(m: &Measurements) -> String {
    format!(
        "{} {} {} {:?} {:?} {} {} {} {} {:?} {:?} {:?} {} {:?} {} {} {} {} {} {} {:?}",
        m.time,
        m.compass_bits,
        m.compass_ready,
        m.beacons,
        m.beacons_ready,
        m.collision,
        m.collision_ready,
        m.ground,
        m.ground_ready,
        m.ir_sensor_bits,
        m.ir_sensor_ready,
        m.line_sensor,
        m.line_sensor_ready,
        m.gps_data,
        m.gps_ready,
        m.start_button,
        m.stop_button,
        m.end_led,
        m.returning_led,
        m.visiting_led,
        m.hear_message
    )
}

#[test]
fn measures_update_twice_is_once() {
    let mut msg = empty_msg(3);
    msg.sensors.ir_sensors = vec![IrSensorValue { id: 2, value_bits: 1.5f32.to_bits() }];
    msg.sensors.beacon_sensors = vec![
        BeaconSensorValue { id: 0, value: "4.0".to_string(), dir_bits: Some(4.0f32.to_bits()) },
        BeaconSensorValue { id: 0, value: "NotVisible".to_string(), dir_bits: None },
    ];
    msg.sensors.line_sensor = Some(LineSensorValue { value: "1".to_string() });
    msg.leds.returning_led = Some("On".to_string());
    let mut once = Measurements::new(1);
    once.update_from(&msg);
    let mut twice = Measurements::new(1);
    twice.update_from(&msg);
    twice.update_from(&msg);
    assert_eq!(picture(&once), picture(&twice));
    assert!(!once.beacons[0].visible);
    assert_eq!(f32::from_bits(once.beacons[0].dir_bits), 4.0);
}
