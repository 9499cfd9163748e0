use microkernelia::logging::{log_line, log_read, log_write, log_write_bytes, LogBuffer, LOG_BUF_SIZE};

fn drain(log: &mut LogBuffer) -> Vec<u8> {
    let mut out = vec![0u8; 8192];
    let n = log_read(log, &mut out);
    out.truncate(n);
    out
}

#[test]
fn write_then_read_gives_back_message() {
    let mut log = LogBuffer::new();
    log_write(&mut log, "[mcp] hola");
    assert_eq!(log.pending_len(), 10);
    assert_eq!(drain(&mut log), b"[mcp] hola".to_vec());
    assert_eq!(log.pending_len(), 0);
}

#[test]
fn two_writes_read_in_order() {
    let mut log = LogBuffer::new();
    log_write(&mut log, "ab");
    log_write(&mut log, "cd");
    assert_eq!(drain(&mut log), b"abcd".to_vec());
}

#[test]
fn read_into_small_buffer_leaves_rest_pending() {
    let mut log = LogBuffer::new();
    log_write(&mut log, "abcdef");
    let mut out = [9u8; 4];
    let n = log_read(&mut log, &mut out[..3]);
    assert_eq!(n, 3);
    assert_eq!(out, [b'a', b'b', b'c', 9]);
    assert_eq!(drain(&mut log), b"def".to_vec());
}

#[test]
fn read_of_empty_log_changes_nothing() {
    let mut log = LogBuffer::new();
    let mut out = [7u8; 3];
    assert_eq!(log_read(&mut log, &mut out), 0);
    assert_eq!(out, [7, 7, 7]);
}

#[test]
fn full_ring_reads_as_empty() {
    let mut log = LogBuffer::new();
    let bytes = vec![b'x'; LOG_BUF_SIZE];
    log_write_bytes(&mut log, &bytes);
    assert_eq!(log.pending_len(), 0);
    assert_eq!(drain(&mut log), Vec::<u8>::new());
}

#[test]
fn overflow_keeps_last_bytes_modulo_capacity() {
    let mut log = LogBuffer::new();
    log_write(&mut log, "abc");
    let mut bytes = vec![b'y'; LOG_BUF_SIZE - 3];
    bytes.push(b'z');
    log_write_bytes(&mut log, &bytes);
    // 3 + 4094 bytes written: 4097 % 4096 = 1 byte pending, the last one.
    assert_eq!(drain(&mut log), b"z".to_vec());
}

#[test]
fn wrap_around_preserves_order() {
    let mut log = LogBuffer::new();
    let first = vec![b'a'; 4000];
    log_write_bytes(&mut log, &first);
    assert_eq!(drain(&mut log).len(), 4000);
    log_write(&mut log, "0123456789abcdefghijklmnopqrstuvwxyz0123456789abcdefghijklmnopqrstuvwxyz0123456789abcdefghijklmnopqrstuvwxyz0123456789");
    let got = drain(&mut log);
    assert_eq!(got, b"0123456789abcdefghijklmnopqrstuvwxyz0123456789abcdefghijklmnopqrstuvwxyz0123456789abcdefghijklmnopqrstuvwxyz0123456789".to_vec());
}

#[test]
fn short_line_logged_whole() {
    let mut log = LogBuffer::new();
    log_line(&mut log, "[virtio-fs] Inicializando driver virtio-fs");
    assert_eq!(drain(&mut log), b"[virtio-fs] Inicializando driver virtio-fs".to_vec());
}

#[test]
fn long_line_cut_to_256_bytes() {
    let mut log = LogBuffer::new();
    let line = "a".repeat(300);
    log_line(&mut log, &line);
    assert_eq!(drain(&mut log), vec![b'a'; 256]);
}

#[test]
fn line_cut_inside_character_logs_placeholder() {
    let mut log = LogBuffer::new();
    // 255 ASCII bytes then a two-byte character straddling the cut.
    let line = format!("{}é{}", "a".repeat(255), "b".repeat(10));
    log_line(&mut log, &line);
    assert_eq!(drain(&mut log), b"<log>".to_vec());
}

#[test]
fn line_cut_on_character_boundary_keeps_prefix() {
    let mut log = LogBuffer::new();
    let line = format!("{}é{}", "a".repeat(254), "b".repeat(10));
    log_line(&mut log, &line);
    let mut expected = vec![b'a'; 254];
    expected.extend_from_slice("é".as_bytes());
    assert_eq!(drain(&mut log), expected);
}
