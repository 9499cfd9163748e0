use microkernelia::logging::{log_read, LogBuffer};
use microkernelia::transport::{
    frame_message, init, read_frame, read_frame_body, u32_from_be, u32_to_be, write_frame,
    MAX_FRAME_LEN,
};

#[test]
fn be_encoding_matches_std() {
    for n in [0u32, 1, 0x0102_0304, 0xdead_beef, u32::MAX] {
        assert_eq!(u32_to_be(n), n.to_be_bytes());
        assert_eq!(u32_from_be(n.to_be_bytes()), n);
    }
}

#[test]
fn frame_message_writes_length_then_body() {
    let mut out = [0xAAu8; 10];
    let r = frame_message(b"{}", &mut out);
    assert_eq!(r, Some(6));
    assert_eq!(out, [0, 0, 0, 2, b'{', b'}', 0xAA, 0xAA, 0xAA, 0xAA]);
}

#[test]
fn frame_message_needs_room_for_header() {
    let mut out = [1u8; 5];
    assert_eq!(frame_message(b"{}", &mut out), None);
    assert_eq!(out, [1u8; 5]);
}

#[test]
fn frame_message_refuses_oversized_body() {
    let body = vec![0u8; MAX_FRAME_LEN + 1];
    let mut out = vec![0u8; MAX_FRAME_LEN + 8];
    assert_eq!(frame_message(&body, &mut out), None);
}

#[test]
fn write_frame_builds_frame() {
    let f = write_frame(b"hello").unwrap();
    assert_eq!(f, vec![0, 0, 0, 5, b'h', b'e', b'l', b'l', b'o']);
}

#[test]
fn write_frame_refuses_oversized_body() {
    let body = vec![0u8; MAX_FRAME_LEN + 1];
    assert_eq!(write_frame(&body), None);
}

#[test]
fn read_frame_accepts_valid_header() {
    assert_eq!(read_frame(Some(4), [0, 0, 1, 0], 4096), Some(256));
}

#[test]
fn read_frame_rejects_short_header() {
    assert_eq!(read_frame(Some(3), [0, 0, 0, 1], 4096), None);
    assert_eq!(read_frame(None, [0, 0, 0, 1], 4096), None);
}

#[test]
fn read_frame_rejects_body_longer_than_buffer() {
    assert_eq!(read_frame(Some(4), [0, 0, 0x10, 0x01], 4096), None);
}

#[test]
fn read_frame_rejects_body_over_limit() {
    assert_eq!(read_frame(Some(4), [0, 0x10, 0, 1], usize::MAX), None);
    assert_eq!(read_frame(Some(4), [0, 0x10, 0, 0], usize::MAX), Some(MAX_FRAME_LEN));
}

#[test]
fn read_frame_body_needs_full_body() {
    assert_eq!(read_frame_body(5, Some(5)), Some(5));
    assert_eq!(read_frame_body(5, Some(4)), None);
    assert_eq!(read_frame_body(5, None), None);
}

#[test]
fn frame_roundtrip() {
    let body = b"{\"method\":\"health\"}";
    let f = write_frame(body).unwrap();
    let header = [f[0], f[1], f[2], f[3]];
    let len = read_frame(Some(4), header, 4096).unwrap();
    assert_eq!(len, body.len());
    assert_eq!(&f[4..], &body[..]);
}

#[test]
fn transport_init_logs() {
    let mut log = LogBuffer::new();
    init(&mut log);
    let mut out = vec![0u8; 256];
    let n = log_read(&mut log, &mut out);
    assert_eq!(&out[..n], "[mcp-vsock] Transporte MCP/vsock inicializado".as_bytes());
}

#[test]
fn write_frame_of_body_past_one_page() {
    let body = vec![b'x'; 5000];
    let frame = microkernelia::transport::write_frame(&body).unwrap();
    assert_eq!(frame.len(), 5004);
    assert_eq!(&frame[..4], &[0, 0, 0x13, 0x88]);
    assert!(frame[4..].iter().all(|&b| b == b'x'));
}
