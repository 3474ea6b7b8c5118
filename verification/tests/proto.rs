use apollo::proto::{
    read_header, read_message, write_message, FrameError, UnitState, DEFAULT_SOCKET_PATH,
    MAX_MESSAGE_LEN,
};

#[test]
fn a_frame_is_a_length_and_the_payload() {
    assert_eq!(write_message(b"\"ListUnits\"").unwrap(), b"\0\0\0\x0b\"ListUnits\"");
    assert_eq!(write_message(b"").unwrap(), [0, 0, 0, 0]);
}

#[test]
fn the_length_is_most_significant_byte_first() {
    let payload = vec![7u8; 0x01_02_03];
    let frame = write_message(&payload).unwrap();
    assert_eq!(frame[..4], [0, 1, 2, 3]);
    assert_eq!(frame[..4], 0x01_02_03u32.to_be_bytes());
    assert_eq!(frame[4..], payload[..]);
}

#[test]
fn what_was_written_is_read_back() {
    for n in [0usize, 1, 255, 256, 65_536, 70_000] {
        let payload: Vec<u8> = (0..n).map(|i| (i % 251) as u8).collect();
        let mut frame = write_message(&payload).unwrap();
        assert_eq!(read_message(&frame), Ok(&payload[..]));
        frame.extend_from_slice(b"more");
        assert_eq!(read_message(&frame), Ok(&payload[..]));
    }
}

#[test]
fn the_longest_message_is_read() {
    let payload = vec![b' '; MAX_MESSAGE_LEN as usize];
    let frame = write_message(&payload).unwrap();
    assert_eq!(frame[..4], [0, 0xa0, 0, 0]);
    assert_eq!(read_message(&frame), Ok(&payload[..]));
}

#[test]
fn a_longer_message_is_refused() {
    let payload = vec![b' '; MAX_MESSAGE_LEN as usize + 1];
    let frame = write_message(&payload).unwrap();
    let refused = FrameError::LengthExceeded { len: 10_485_761 };
    assert_eq!(read_message(&frame), Err(refused));
    assert_eq!(refused.message(), "message length 10485761 exceeds max 10485760");
    assert_eq!(read_message(&[0xff; 4]), Err(FrameError::LengthExceeded { len: u32::MAX }));
}

#[test]
fn a_cut_frame_is_refused() {
    let frame = write_message(b"abc").unwrap();
    for k in 0..frame.len() {
        assert_eq!(read_message(&frame[..k]), Err(FrameError::UnexpectedEof), "{k}");
    }
    assert_eq!(FrameError::UnexpectedEof.message(), "failed to fill whole buffer");
    assert_eq!(FrameError::TooLarge.message(), "message too large to frame");
}

#[test]
fn a_header_alone_tells_the_length() {
    assert_eq!(read_header(&[0, 0, 1, 2]), Ok(258));
    assert_eq!(read_header(&[0, 0xa0, 0, 0]), Ok(MAX_MESSAGE_LEN));
    assert_eq!(
        read_header(&[0, 0xa0, 0, 1]),
        Err(FrameError::LengthExceeded { len: MAX_MESSAGE_LEN + 1 })
    );
}

#[test]
fn states_have_words() {
    assert_eq!(UnitState::Loaded.as_str(), "loaded");
    assert_eq!(UnitState::Running.as_str(), "running");
    assert_eq!(UnitState::Stopping.as_str(), "stopping");
    assert_eq!(UnitState::Stopped.as_str(), "stopped");
    assert_eq!(UnitState::Failed.as_str(), "failed");
}

#[test]
fn the_socket_has_a_default() {
    assert_eq!(DEFAULT_SOCKET_PATH, "/run/apollo/control.sock");
}
