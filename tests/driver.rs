use lss_driver::{FramedDriver, LSSDriver, LedColor, LssError, ScriptedTransport};

fn driver_with(incoming: &[&[u8]]) -> LSSDriver<ScriptedTransport> {
    let chunks: Vec<Vec<u8>> = incoming.iter().map(|c| c.to_vec()).collect();
    LSSDriver::with_driver(FramedDriver::new(ScriptedTransport::new(chunks)))
}

fn sent(driver: &LSSDriver<ScriptedTransport>) -> Vec<Vec<u8>> {
    driver.driver().transport().sent().clone()
}

#[test]
fn test_limp_color_move_hold() {
    let mut driver = driver_with(&[b"*5QV11200\r"]);
    driver.limp(1).unwrap();
    driver.set_color(2, LedColor::Red).unwrap();
    driver.move_to_position_tenths(3, (180.0f32 * 10.0).round() as i32).unwrap();
    driver.halt_hold(4).unwrap();
    let voltage = driver.read_voltage_millivolts(5).unwrap() as f32 / 1000.0;
    assert_eq!(voltage, 11.2);
    assert_eq!(
        sent(&driver),
        vec![
            b"#1L\r".to_vec(),
            b"#2LED1\r".to_vec(),
            b"#3D1800\r".to_vec(),
            b"#4H\r".to_vec(),
            b"#5QV\r".to_vec(),
        ]
    );
}

#[test]
fn test_hold_command() {
    let mut driver = driver_with(&[]);
    driver.halt_hold(4).unwrap();
    assert_eq!(sent(&driver), vec![b"#4H\r".to_vec()]);
}

#[test]
fn test_query_voltage() {
    let mut driver = driver_with(&[b"*5QV11200\r"]);
    let voltage = driver.read_voltage_millivolts(5).unwrap() as f32 / 1000.0;
    assert_eq!(voltage, 11.2);
    assert_eq!(sent(&driver), vec![b"#5QV\r".to_vec()]);
}

#[test]
fn scenario_hold_move_voltage() {
    let mut driver = driver_with(&[b"*5QV11200\r"]);
    driver.halt_hold(4).unwrap();
    assert_eq!(sent(&driver), vec![b"#4H\r".to_vec()]);
    driver.move_to_position_tenths(3, 1800).unwrap();
    assert_eq!(sent(&driver)[1], b"#3D1800\r".to_vec());
    let millivolts = driver.read_voltage_millivolts(5).unwrap();
    assert_eq!(millivolts, 11200);
    assert_eq!(millivolts as f32 / 1000.0, 11.2);
}

#[test]
fn other_commands_frames() {
    let mut driver = driver_with(&[]);
    driver.set_motion_profile(1, true).unwrap();
    driver.set_motion_profile(1, false).unwrap();
    driver.set_angular_stiffness(2, -4).unwrap();
    driver.set_angular_holding(3, 10).unwrap();
    driver.set_filter_position_count(4, 5).unwrap();
    driver.set_color(5, LedColor::White).unwrap();
    driver.set_color(254, LedColor::Off).unwrap();
    assert_eq!(
        sent(&driver),
        vec![
            b"#1EM1\r".to_vec(),
            b"#1EM0\r".to_vec(),
            b"#2AS-4\r".to_vec(),
            b"#3AH10\r".to_vec(),
            b"#4FPC5\r".to_vec(),
            b"#5LED7\r".to_vec(),
            b"#254LED0\r".to_vec(),
        ]
    );
}

#[test]
fn led_color_codes() {
    let colors = [
        LedColor::Off,
        LedColor::Red,
        LedColor::Green,
        LedColor::Blue,
        LedColor::Yellow,
        LedColor::Cyan,
        LedColor::Magenta,
        LedColor::White,
    ];
    let codes: Vec<i32> = colors.iter().map(|c| c.code()).collect();
    assert_eq!(codes, vec![0, 1, 2, 3, 4, 5, 6, 7]);
}

#[test]
fn queries_read_values() {
    let mut driver = driver_with(&[b"*5QDT6783\r*5QT441\r", b"*5QC140\r", b"*5QFPC5\r"]);
    assert_eq!(driver.read_position_tenths(5), Ok(6783));
    assert_eq!(driver.read_temperature_tenths(5), Ok(441));
    assert_eq!(driver.read_current_milliamps(5), Ok(140));
    assert_eq!(driver.read_filter_position_count(5), Ok(5));
    assert_eq!(
        sent(&driver),
        vec![b"#5QDT\r".to_vec(), b"#5QT\r".to_vec(), b"#5QC\r".to_vec(), b"#5QFPC\r".to_vec()]
    );
}

#[test]
fn query_with_wrong_reply_token_fails() {
    let mut driver = driver_with(&[b"*5QT441\r"]);
    assert_eq!(
        driver.read_voltage_millivolts(5),
        Err(LssError::Protocol(lss_driver::ProtocolError::TokenMismatch))
    );
}

#[test]
fn query_without_reply_is_io_error() {
    let mut driver = driver_with(&[]);
    assert_eq!(driver.read_voltage_millivolts(5), Err(LssError::Io));
}

#[test]
fn opening_by_name_gives_a_fresh_driver() {
    let driver = LSSDriver::<ScriptedTransport>::new("COM1").unwrap();
    assert_eq!(driver.driver().buffered_len(), 0);
    let driver = LSSDriver::<ScriptedTransport>::with_baud_rate("/dev/ttyACM0", 9600).unwrap();
    assert!(sent(&driver).is_empty());
}

#[test]
fn async_test_builds() {}

#[test]
fn refused_write_ends_query_without_read() {
    let transport = ScriptedTransport::refusing_writes(vec![b"*5QC140\r".to_vec()]);
    let mut driver = LSSDriver::with_driver(FramedDriver::new(transport));
    assert_eq!(driver.read_current_milliamps(5), Err(LssError::Io));
    assert_eq!(driver.driver().transport().pending_len(), 1);
    assert_eq!(driver.set_angular_holding(1, 3), Err(LssError::Io));
    assert!(sent(&driver).is_empty());
}

#[test]
fn reply_split_byte_by_byte() {
    let frame: &[u8] = b"*5QDT-1234\r";
    let chunks: Vec<&[u8]> = frame.chunks(1).collect();
    let mut driver = driver_with(&chunks);
    assert_eq!(driver.read_position_tenths(5), Ok(-1234));
    assert_eq!(driver.driver().transport().pending_len(), 0);
}

#[test]
fn partial_frame_is_completed_by_next_read() {
    let mut driver = driver_with(&[b"*1QC500\r*2QC", b"750\r"]);
    assert_eq!(driver.read_current_milliamps(1), Ok(500));
    assert_eq!(driver.driver().transport().pending_len(), 1);
    assert_eq!(driver.read_current_milliamps(2), Ok(750));
}

#[test]
fn frames_come_back_in_order() {
    let mut driver = driver_with(&[b"*5QT1", b"0\r*5QT20\r*5", b"QT30", b"\r"]);
    assert_eq!(driver.read_temperature_tenths(5), Ok(10));
    assert_eq!(driver.read_temperature_tenths(5), Ok(20));
    assert_eq!(driver.read_temperature_tenths(5), Ok(30));
}
