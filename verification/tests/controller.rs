use autobright::controller::{Capacities, ControlError, Controller};

fn controller(max_display: u32, max_kbd: u32) -> Controller {
    Controller::new(Capacities { max_display, max_kbd })
}

#[test]
fn bright_day_on_ac_clamps_to_full() {
    // raw display level (127.5 * 32 / 255) * 1000 = 16000 clamps to the AC
    // ceiling of 1000.
    let mut c = controller(1000, 100);
    let out = c.step(b"(127.5,0)", b"1").unwrap();
    assert_eq!(out.display_brightness, 1000);
    assert!(out.on_ac);
    assert_eq!(out.display_min_milli, 100_000);
    assert_eq!(out.display_max_milli, 1_000_000);
}

#[test]
fn dim_room_on_battery_clamps_to_quarter() {
    // raw display level (2 * 32 / 255) * 1000 = 250.98..; the battery bounds
    // are [25, 250], so 250 is written.
    let mut c = controller(1000, 100);
    let out = c.step(b"(2.0,0)", b"0").unwrap();
    assert_eq!(out.display_brightness, 250);
    assert!(!out.on_ac);
    assert_eq!(out.display_min_milli, 25_000);
    assert_eq!(out.display_max_milli, 250_000);
}

#[test]
fn kbd_on_battery_clamps_to_bound() {
    // raw keyboard level 100 / 4 * (4 - 3) = 25; the battery bound is
    // 100 * 0.05 = 5.
    let mut c = controller(1000, 100);
    let out = c.step(b"(3.0,0)", b"0").unwrap();
    assert_eq!(out.kbd_brightness, 5);
    assert_eq!(out.kbd_limit_milli, 5_000);
}

#[test]
fn kbd_off_from_five_up() {
    let mut c = controller(1000, 100);
    assert_eq!(c.step(b"(5.0,0)", b"1").unwrap().kbd_brightness, 0);
    assert_eq!(c.step(b"(5.1,0)", b"1").unwrap().kbd_brightness, 0);
    assert_eq!(c.step(b"(200,0)", b"0").unwrap().kbd_brightness, 0);
}

#[test]
fn kbd_decreases_with_light_and_reaches_zero_at_four() {
    let mut c = controller(1000, 100);
    let lights: [&[u8]; 6] = [b"(0,0)", b"(1,0)", b"(3,0)", b"(3.5,0)", b"(3.9,0)", b"(4,0)"];
    let mut last = u32::MAX;
    for text in lights {
        let out = c.step(text, b"1").unwrap();
        assert!(out.kbd_brightness <= last);
        last = out.kbd_brightness;
    }
    assert_eq!(last, 0);
}

#[test]
fn display_stays_within_bounds() {
    let mut c = controller(1000, 100);
    for text in [b"(0.0,0)", b"(1.5,0)", b"(8.0,0)", b"(255,0)"] {
        let on_ac = c.step(text as &[u8], b"1").unwrap();
        assert!((100..=1000).contains(&on_ac.display_brightness));
        let on_battery = c.step(text as &[u8], b"0").unwrap();
        assert!((25..=250).contains(&on_battery.display_brightness));
    }
}

#[test]
fn power_switch_swaps_bounds_next_cycle() {
    let mut c = controller(1000, 100);
    let ac = c.step(b"(2.0,0)", b"1").unwrap();
    assert_eq!(
        (ac.display_min_milli, ac.display_max_milli, ac.kbd_limit_milli),
        (100_000, 1_000_000, 20_000),
    );
    let battery = c.step(b"(2.0,0)", b"0").unwrap();
    assert_eq!(
        (battery.display_min_milli, battery.display_max_milli, battery.kbd_limit_milli),
        (25_000, 250_000, 5_000),
    );
    let back = c.step(b"(2.0,0)", b"1").unwrap();
    assert_eq!(
        (back.display_min_milli, back.display_max_milli, back.kbd_limit_milli),
        (100_000, 1_000_000, 20_000),
    );
}

#[test]
fn malformed_sensor_is_an_error_not_zero() {
    let mut c = controller(1000, 100);
    assert_eq!(c.step(b"garbage", b"1"), Err(ControlError::SensorReadError));
    // the sensor error wins when both inputs are bad
    assert_eq!(c.step(b"", b""), Err(ControlError::SensorReadError));
    // a good sensor with a bad flag names the flag
    assert_eq!(c.step(b"(1,0)", b"maybe"), Err(ControlError::PowerStateReadError));
    // the controller still works afterwards
    assert!(c.step(b"(1,0)", b"1").is_ok());
}

#[test]
fn logs_every_tenth_cycle() {
    let mut c = controller(1000, 100);
    let mut pattern = Vec::new();
    for _ in 0..12 {
        pattern.push(c.step(b"(1,0)", b"1").unwrap().should_log);
    }
    let expected = vec![
        true, false, false, false, false, false, false, false, false, false, true, false,
    ];
    assert_eq!(pattern, expected);
}

#[test]
fn capacities_from_files() {
    let caps = Capacities::from_files(b"1000\n", b"255\n").unwrap();
    assert_eq!(caps.max_display, 1000);
    assert_eq!(caps.max_kbd, 255);
    assert_eq!(
        Capacities::from_files(b"oops", b"255"),
        Err(ControlError::CapacityReadError),
    );
    assert_eq!(
        Capacities::from_files(b"1000", b""),
        Err(ControlError::CapacityReadError),
    );
}

#[test]
fn realistic_device_scale() {
    // a 255-step keyboard backlight in a dark room on AC power:
    // raw = 255 / 4 * 4 = 255, bound = 255 * 0.2 = 51.
    let mut c = controller(1000, 255);
    let out = c.step(b"(0,0)", b"1").unwrap();
    assert_eq!(out.kbd_brightness, 51);
    // and at light 2.0: raw = 255 / 4 * 2 = 127.5, clamped to 51.
    let out = c.step(b"(2.0,0)", b"1").unwrap();
    assert_eq!(out.kbd_brightness, 51);
}
