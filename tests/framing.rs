use lss_driver::codec::{FrameCodec, MAX_FRAME_LEN};
use lss_driver::{FramedDriver, LssError, LssResponse, ProtocolError, ScriptedTransport};

fn framed(chunks: &[&[u8]]) -> FramedDriver<ScriptedTransport> {
    FramedDriver::new(ScriptedTransport::new(chunks.iter().map(|c| c.to_vec()).collect()))
}

#[test]
fn round_trip_voltage_reply() {
    let mut driver = framed(&[b"*5QV11200\r"]);
    let response = driver.receive().unwrap();
    assert_eq!(response.raw(), b"5QV11200");
    assert_eq!(response.separate("QV"), Ok((5, 11200)));
}

#[test]
fn split_reads_give_the_same_frame() {
    let frame: &[u8] = b"*5QV11200\r";
    let whole = framed(&[frame]).receive().unwrap();
    for k in 1..frame.len() {
        let mut driver = framed(&[&frame[..k], &frame[k..]]);
        let response = driver.receive().unwrap();
        assert_eq!(response.raw(), whole.raw(), "split at {}", k);
        assert_eq!(response.separate("QV"), Ok((5, 11200)));
        assert_eq!(driver.buffered_len(), 0);
    }
}

#[test]
fn two_frames_in_one_read() {
    let mut driver = framed(&[b"*1H\r*2H\r"]);
    let first = driver.receive().unwrap();
    assert_eq!(first.raw(), b"1H");
    assert_eq!(driver.transport().pending_len(), 0);
    assert_eq!(driver.buffered_len(), 4);
    let second = driver.receive().unwrap();
    assert_eq!(second.raw(), b"2H");
    assert_eq!(driver.buffered_len(), 0);
}

#[test]
fn leftover_part_of_next_frame_is_kept() {
    let mut driver = framed(&[b"*1QV5\r*2Q", b"V6\r"]);
    assert_eq!(driver.receive().unwrap().separate("QV"), Ok((1, 5)));
    assert_eq!(driver.buffered_len(), 3);
    assert_eq!(driver.receive().unwrap().separate("QV"), Ok((2, 6)));
}

#[test]
fn empty_frame_gives_empty_text() {
    let mut driver = framed(&[b"*\r"]);
    let response = driver.receive().unwrap();
    assert_eq!(response.raw(), b"");
    assert_eq!(response.separate("QV"), Err(LssError::Protocol(ProtocolError::InvalidId)));
}

#[test]
fn frame_without_start_marker_is_kept_whole() {
    let mut driver = framed(&[b"5QV1\r"]);
    assert_eq!(driver.receive().unwrap().raw(), b"5QV1");
}

#[test]
fn empty_reads_are_skipped_by_the_script() {
    let mut driver = framed(&[b"", b"*3QT4", b"", b"41\r"]);
    assert_eq!(driver.receive().unwrap().separate("QT"), Ok((3, 441)));
}

#[test]
fn long_line_without_terminator_fails() {
    let junk = vec![b'A'; MAX_FRAME_LEN];
    let mut driver = FramedDriver::new(ScriptedTransport::new(vec![junk, b"*1H\r".to_vec()]));
    assert_eq!(driver.receive().err(), Some(LssError::Protocol(ProtocolError::FrameTooLong)));
    assert_eq!(driver.buffered_len(), 0);
    assert_eq!(driver.receive().unwrap().raw(), b"1H");
}

#[test]
fn transport_failure_keeps_partial_bytes() {
    let mut driver = framed(&[b"*5QV11"]);
    assert_eq!(driver.receive().err(), Some(LssError::Io));
    assert_eq!(driver.buffered_len(), 6);
}

#[test]
fn codec_polls_directly() {
    let mut codec = FrameCodec::new();
    assert_eq!(codec.next_frame().map(|r| r.is_some()), Ok(false));
    codec.push_bytes(b"*9QV1".to_vec());
    assert_eq!(codec.next_frame().map(|r| r.is_some()), Ok(false));
    assert_eq!(codec.buffered_len(), 5);
    codec.push_bytes(b"2\r*".to_vec());
    let frame: Option<LssResponse> = codec.next_frame().unwrap();
    assert_eq!(frame.unwrap().separate("QV"), Ok((9, 12)));
    assert_eq!(codec.buffered_len(), 1);
}

#[test]
fn send_writes_one_frame() {
    let mut driver = framed(&[]);
    driver.send(&lss_driver::LssCommand::with_param(2, "LED", 1)).unwrap();
    assert_eq!(driver.transport().sent().clone(), vec![b"#2LED1\r".to_vec()]);
}

#[test]
fn bytes_before_the_marker_are_dropped() {
    let mut driver = framed(&[b"xx*5QV1\r"]);
    assert_eq!(driver.receive().unwrap().raw(), b"5QV1");
}
