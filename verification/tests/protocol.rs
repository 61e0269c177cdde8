use fling::protocol::{
    decode_frame_header, exit_code_of, exit_frame, write_json_line, read_frame, read_json_line, write_frame,
    FrameError, LineError, CH_EXIT, CH_STDIN, CH_STDOUT, MAX_FRAME_PAYLOAD, MAX_HANDSHAKE_BYTES,
};

#[test]
fn rejects_oversized_frame_length() {
    // Five bytes of header can claim a 4 GiB payload. The length is chosen by
    // the peer and must be refused before it sizes a buffer.
    let mut header = vec![CH_STDIN];
    header.extend_from_slice(&u32::MAX.to_be_bytes());

    let err = read_frame(&header[..]).unwrap_err();
    assert_eq!(err, FrameError::PayloadTooLarge(u32::MAX));
}

#[test]
fn accepts_frame_within_limit() {
    let buf = write_frame(CH_STDOUT, b"hello");

    let (channel, payload) = read_frame(&buf[..]).unwrap();
    assert_eq!(channel, CH_STDOUT);
    assert_eq!(payload, b"hello");
}

#[test]
fn rejects_unterminated_handshake_line() {
    // A client that connects and streams bytes without ever sending a
    // newline must hit the cap, not exhaust memory.
    let flood = vec![b'x'; MAX_HANDSHAKE_BYTES + 1];

    let err = read_json_line(&flood[..]).unwrap_err();
    assert_eq!(err, LineError::TooLong);
}

#[test]
fn frame_layout_is_channel_length_payload() {
    assert_eq!(write_frame(0x12, b"ab"), vec![0x12, 0, 0, 0, 2, b'a', b'b']);
    assert_eq!(write_frame(0x02, b""), vec![0x02, 0, 0, 0, 0]);
    let big = vec![7u8; 0x1_0203];
    let f = write_frame(0x11, &big);
    assert_eq!(&f[..5], &[0x11, 0x00, 0x01, 0x02, 0x03]);
    assert_eq!(f.len(), 5 + 0x1_0203);
}

#[test]
fn truncated_frames_are_refused() {
    assert_eq!(read_frame(&[0x11, 0, 0]).unwrap_err(), FrameError::Truncated);
    assert_eq!(read_frame(&[0x11, 0, 0, 0, 3, b'a']).unwrap_err(), FrameError::Truncated);
}

#[test]
fn limit_is_inclusive() {
    let mut buf = vec![CH_STDIN];
    buf.extend_from_slice(&(MAX_FRAME_PAYLOAD as u32).to_be_bytes());
    buf.extend(std::iter::repeat(0u8).take(MAX_FRAME_PAYLOAD));
    let (_, payload) = read_frame(&buf).unwrap();
    assert_eq!(payload.len(), MAX_FRAME_PAYLOAD);

    let over = (MAX_FRAME_PAYLOAD as u32 + 1).to_be_bytes();
    let header = [CH_STDIN, over[0], over[1], over[2], over[3]];
    assert_eq!(
        decode_frame_header(header).unwrap_err(),
        FrameError::PayloadTooLarge(MAX_FRAME_PAYLOAD as u32 + 1)
    );
    assert_eq!(decode_frame_header([9, 0, 0, 1, 0]).unwrap(), (9, 256));
}

#[test]
fn extra_bytes_after_a_frame_are_left() {
    let mut buf = write_frame(CH_STDOUT, b"hi");
    buf.extend_from_slice(b"rest");
    assert_eq!(read_frame(&buf).unwrap(), (CH_STDOUT, b"hi".to_vec()));
}

#[test]
fn exit_codes_round_trip() {
    for code in [0, 1, -1, 255, i32::MIN, i32::MAX] {
        let f = exit_frame(code);
        assert_eq!(f[0], CH_EXIT);
        let (channel, payload) = read_frame(&f).unwrap();
        assert_eq!(channel, CH_EXIT);
        assert_eq!(payload, code.to_be_bytes());
        assert_eq!(exit_code_of(&payload), code);
    }
    assert_eq!(exit_code_of(&[0, 0, 1]), 0);
    assert_eq!(exit_code_of(&[0, 0, 0, 2, 9]), 2);
}

#[test]
fn handshake_lines() {
    assert_eq!(read_json_line(b"{\"ok\":true}\nrest").unwrap(), (b"{\"ok\":true}".to_vec(), 12));
    assert_eq!(read_json_line(b"\n").unwrap(), (Vec::new(), 1));
    assert_eq!(read_json_line(b"no newline").unwrap_err(), LineError::Unterminated);
    assert_eq!(read_json_line(b"").unwrap_err(), LineError::Unterminated);

    let mut exact = vec![b'x'; MAX_HANDSHAKE_BYTES];
    exact.push(b'\n');
    let (line, used) = read_json_line(&exact).unwrap();
    assert_eq!(line.len(), MAX_HANDSHAKE_BYTES);
    assert_eq!(used, MAX_HANDSHAKE_BYTES + 1);

    let exact_no_newline = vec![b'x'; MAX_HANDSHAKE_BYTES];
    assert_eq!(read_json_line(&exact_no_newline).unwrap_err(), LineError::Unterminated);
}

#[test]
fn write_json_line_end_with_newline() {
    assert_eq!(write_json_line("{\"ok\":true}"), b"{\"ok\":true}\n".to_vec());
    assert_eq!(write_json_line("é"), "é\n".as_bytes().to_vec());
}

#[test]
fn written_line_reads_back() {
    let text = "{\"cmd\":\"echo\",\"args\":[\"héllo\"]}";
    let mut wire = write_json_line(text);
    let line_len = wire.len();
    wire.extend_from_slice(&[CH_STDIN, 0, 0, 0, 0]);
    let (line, used) = read_json_line(&wire).unwrap();
    assert_eq!(line, text.as_bytes().to_vec());
    assert_eq!(used, line_len);
    assert_eq!(&wire[used..], &[CH_STDIN, 0, 0, 0, 0]);
}

#[test]
fn oversized_handshake_line_is_refused() {
    let long = vec![b'x'; MAX_HANDSHAKE_BYTES + 1];
    assert_eq!(read_json_line(&long).unwrap_err(), LineError::TooLong);
    let mut late = vec![b'x'; MAX_HANDSHAKE_BYTES + 1];
    late.push(b'\n');
    assert_eq!(read_json_line(&late).unwrap_err(), LineError::TooLong);
}
