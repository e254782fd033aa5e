use lss_driver::{LssCommand, LssError, LssResponse, ProtocolError};

#[test]
fn simple_command_frames() {
    assert_eq!(LssCommand::simple(4, "H").serialize(), b"#4H\r".to_vec());
    assert_eq!(LssCommand::simple(0, "QV").serialize(), b"#0QV\r".to_vec());
    assert_eq!(LssCommand::simple(255, "QFPC").serialize(), b"#255QFPC\r".to_vec());
    assert_eq!(LssCommand::simple(10, "L").serialize(), b"#10L\r".to_vec());
}

#[test]
fn command_with_param_frames() {
    assert_eq!(LssCommand::with_param(3, "D", 1800).serialize(), b"#3D1800\r".to_vec());
    assert_eq!(LssCommand::with_param(2, "LED", 1).serialize(), b"#2LED1\r".to_vec());
    assert_eq!(LssCommand::with_param(1, "D", 0).serialize(), b"#1D0\r".to_vec());
    assert_eq!(LssCommand::with_param(1, "D", -25).serialize(), b"#1D-25\r".to_vec());
    assert_eq!(
        LssCommand::with_param(7, "D", i32::MIN).serialize(),
        b"#7D-2147483648\r".to_vec()
    );
    assert_eq!(
        LssCommand::with_param(7, "D", i32::MAX).serialize(),
        b"#7D2147483647\r".to_vec()
    );
}

#[test]
fn command_fields() {
    let c = LssCommand::with_param(9, "AS", -3);
    assert_eq!(c.id(), 9);
    assert_eq!(c.param(), Some(-3));
    assert_eq!(LssCommand::simple(9, "H").param(), None);
}

fn fields(text: &str, token: &str) -> Result<(u8, i32), LssError> {
    LssResponse::new(text.to_owned()).separate(token)
}

#[test]
fn separate_reads_id_and_value() {
    assert_eq!(fields("5QV11200", "QV"), Ok((5, 11200)));
    assert_eq!(fields("254QDT-123", "QDT"), Ok((254, -123)));
    assert_eq!(fields("1QD+7", "QD"), Ok((1, 7)));
    assert_eq!(fields("007QV0", "QV"), Ok((7, 0)));
    assert_eq!(fields("3QV-2147483648", "QV"), Ok((3, i32::MIN)));
    assert_eq!(fields("3QV2147483647", "QV"), Ok((3, i32::MAX)));
}

#[test]
fn separate_token_mismatch() {
    assert_eq!(fields("5QV11200", "QT"), Err(LssError::Protocol(ProtocolError::TokenMismatch)));
    assert_eq!(fields("5QV11200", "QVV"), Err(LssError::Protocol(ProtocolError::TokenMismatch)));
    assert_eq!(fields("5QV", "QVV"), Err(LssError::Protocol(ProtocolError::TokenMismatch)));
    assert_eq!(fields("5QVV11200", "QV"), Err(LssError::Protocol(ProtocolError::InvalidValue)));
}

#[test]
fn separate_invalid_id() {
    assert_eq!(fields("QV11200", "QV"), Err(LssError::Protocol(ProtocolError::InvalidId)));
    assert_eq!(fields("256QV1", "QV"), Err(LssError::Protocol(ProtocolError::InvalidId)));
    assert_eq!(fields("", "QV"), Err(LssError::Protocol(ProtocolError::InvalidId)));
}

#[test]
fn separate_invalid_value() {
    assert_eq!(fields("5QV", "QV"), Err(LssError::Protocol(ProtocolError::InvalidValue)));
    assert_eq!(fields("5QV-", "QV"), Err(LssError::Protocol(ProtocolError::InvalidValue)));
    assert_eq!(fields("5QV12a", "QV"), Err(LssError::Protocol(ProtocolError::InvalidValue)));
    assert_eq!(fields("5QV2147483648", "QV"), Err(LssError::Protocol(ProtocolError::InvalidValue)));
    assert_eq!(fields("5QV-2147483649", "QV"), Err(LssError::Protocol(ProtocolError::InvalidValue)));
}

#[test]
fn separate_is_pure() {
    let a = LssResponse::new("5QV11200".to_owned());
    let b = LssResponse::new("5QV11200".to_owned());
    assert_eq!(a.separate("QV"), b.separate("QV"));
    assert_eq!(a.separate("QV"), a.separate("QV"));
    assert_eq!(a.separate("QT"), b.separate("QT"));
}

#[test]
fn response_raw_bytes() {
    assert_eq!(LssResponse::new("5QV1".to_owned()).raw(), b"5QV1");
    assert_eq!(LssResponse::from_bytes(b"2H".to_vec()).raw(), b"2H");
}
