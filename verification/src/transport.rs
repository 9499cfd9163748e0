use vstd::prelude::*;
use crate::logging::{LogBuffer, log_write, log_after_write};
use vstd::string::StringSliceAdditionalSpecFns;

verus! {

/// Largest message body a frame may carry (1 MiB).
pub const MAX_FRAME_LEN: usize = 1024 * 1024;

/// Big-endian bytes of a `u32`.
pub open spec fn be_bytes(n: u32) -> Seq<u8> {
    seq![
        ((n >> 24u32) & 0xffu32) as u8,
        ((n >> 16u32) & 0xffu32) as u8,
        ((n >> 8u32) & 0xffu32) as u8,
        (n & 0xffu32) as u8,
    ]
}

/// The `u32` whose big-endian bytes are `b[0..4]`.
pub open spec fn be_value(b0: u8, b1: u8, b2: u8, b3: u8) -> u32 {
    ((b0 as u32) << 24u32) | ((b1 as u32) << 16u32) | ((b2 as u32) << 8u32) | (b3 as u32)
}

/// A frame: the body's length as a big-endian `u32`, then the body.
pub open spec fn frame_bytes(body: Seq<u8>) -> Seq<u8> {
    be_bytes(body.len() as u32) + body
}

/// Big-endian bytes of `n` (`u32::to_be_bytes`).
pub fn u32_to_be(n: u32) -> (b: [u8; 4])
    ensures
        b@ == be_bytes(n),
{
    let b = [
        ((n >> 24u32) & 0xffu32) as u8,
        ((n >> 16u32) & 0xffu32) as u8,
        ((n >> 8u32) & 0xffu32) as u8,
        (n & 0xffu32) as u8,
    ];
    assert(b@ =~= be_bytes(n));
    b
}

/// The `u32` with big-endian bytes `b` (`u32::from_be_bytes`).
pub fn u32_from_be(b: [u8; 4]) -> (n: u32)
    ensures
        n == be_value(b[0], b[1], b[2], b[3]),
{
    ((b[0] as u32) << 24u32) | ((b[1] as u32) << 16u32) | ((b[2] as u32) << 8u32) | (b[3] as u32)
}

/// Decoding the big-endian bytes of `n` gives back `n`.
pub proof fn lemma_be_roundtrip(n: u32)
    ensures
        be_value(be_bytes(n)[0], be_bytes(n)[1], be_bytes(n)[2], be_bytes(n)[3]) == n,
{
    let b0 = ((n >> 24u32) & 0xffu32) as u8;
    let b1 = ((n >> 16u32) & 0xffu32) as u8;
    let b2 = ((n >> 8u32) & 0xffu32) as u8;
    let b3 = (n & 0xffu32) as u8;
    assert(((b0 as u32) << 24u32) | ((b1 as u32) << 16u32) | ((b2 as u32) << 8u32) | (b3 as u32)
        == n) by (bit_vector)
        requires
            b0 == ((n >> 24u32) & 0xffu32) as u8,
            b1 == ((n >> 16u32) & 0xffu32) as u8,
            b2 == ((n >> 8u32) & 0xffu32) as u8,
            b3 == (n & 0xffu32) as u8,
    ;
}

/// Logs that the transport is up.
pub fn init(log: &mut LogBuffer)
    requires
        old(log).wf(),
    ensures
        final(log).wf(),
        final(log)@ == log_after_write(
            old(log)@,
            "[mcp-vsock] Transporte MCP/vsock inicializado".spec_bytes(),
        ),
{
    log_write(log, "[mcp-vsock] Transporte MCP/vsock inicializado");
}

/// First step of reading a frame from the socket: given how many header
/// bytes the socket delivered and the header itself, the body length to
/// receive next into a buffer of `buf_len` bytes. `None` (no frame) when
/// the header was not exactly 4 bytes, or the length exceeds the buffer or
/// `MAX_FRAME_LEN`.
pub fn read_frame(header_received: Option<usize>, header: [u8; 4], buf_len: usize) -> (r: Option<
    usize,
>)
    ensures
        ({
            let len = be_value(header[0], header[1], header[2], header[3]);
            if header_received == Some(4usize) && len <= buf_len && len <= MAX_FRAME_LEN {
                r == Some(len as usize)
            } else {
                r is None
            }
        }),
{
    match header_received {
        Some(n) => {
            if n != 4 {
                return None;
            }
        },
        None => {
            return None;
        },
    }
    let len = u32_from_be(header) as usize;
    if len > buf_len || len > MAX_FRAME_LEN {
        return None;
    }
    Some(len)
}

/// Second step of reading a frame: the body of `len` bytes counts only when
/// the socket delivered exactly `len` bytes; the frame is then the first
/// `len` bytes of the buffer.
pub fn read_frame_body(len: usize, body_received: Option<usize>) -> (r: Option<usize>)
    ensures
        r == (if body_received == Some(len) { Some(len) } else { None::<usize> }),
{
    match body_received {
        Some(n) => {
            if n == len {
                Some(len)
            } else {
                None
            }
        },
        None => None,
    }
}

/// The bytes `write_frame` hands to the socket for `json`: its length as a
/// big-endian `u32`, then `json`. `None` (nothing is sent, the caller
/// reports `false`) when `json` is longer than `MAX_FRAME_LEN`.
pub fn write_frame(json: &[u8]) -> (r: Option<Vec<u8>>)
    ensures
        json@.len() > MAX_FRAME_LEN ==> r is None,
        json@.len() <= MAX_FRAME_LEN ==> r is Some && r->0@ == frame_bytes(json@),
{
    if json.len() > MAX_FRAME_LEN {
        return None;
    }
    let len = u32_to_be(json.len() as u32);
    let mut frame: Vec<u8> = Vec::new();
    frame.push(len[0]);
    frame.push(len[1]);
    frame.push(len[2]);
    frame.push(len[3]);
    let mut i: usize = 0;
    while i < json.len()
        invariant
            i <= json@.len(),
            json@.len() <= MAX_FRAME_LEN,
            frame@ =~= be_bytes(json@.len() as u32) + json@.take(i as int),
        decreases json@.len() - i,
    {
        frame.push(json[i]);
        i = i + 1;
    }
    assert(json@.take(i as int) =~= json@);
    Some(frame)
}

/// Writes the frame for `json` (big-endian length, then `json`) at the
/// start of `out` and returns its length. `None`, with `out` untouched, when
/// `json` is longer than `MAX_FRAME_LEN` or `out` cannot hold the frame.
/// Bytes of `out` past the frame are left as they were.
pub fn frame_message(json: &[u8], out: &mut [u8]) -> (r: Option<usize>)
    ensures
        json@.len() > MAX_FRAME_LEN ==> r is None && final(out)@ == old(out)@,
        json@.len() <= MAX_FRAME_LEN && old(out)@.len() < json@.len() + 4 ==> r is None
            && final(out)@ == old(out)@,
        json@.len() <= MAX_FRAME_LEN && old(out)@.len() >= json@.len() + 4 ==> r == Some(
            (json@.len() + 4) as usize,
        ) && final(out)@ == frame_bytes(json@) + old(out)@.skip(json@.len() + 4int),
{
    if json.len() > MAX_FRAME_LEN {
        return None;
    }
    if out.len() < json.len() + 4 {
        return None;
    }
    let ghost o = out@;
    let len = u32_to_be(json.len() as u32);
    out[0] = len[0];
    out[1] = len[1];
    out[2] = len[2];
    out[3] = len[3];
    let mut i: usize = 0;
    while i < json.len()
        invariant
            i <= json@.len(),
            json@.len() <= MAX_FRAME_LEN,
            o.len() >= json@.len() + 4,
            out@.len() == o.len(),
            out@ =~= be_bytes(json@.len() as u32) + json@.take(i as int) + o.skip(i + 4),
        decreases json@.len() - i,
    {
        out[i + 4] = json[i];
        i = i + 1;
    }
    assert(json@.take(i as int) =~= json@);
    Some(json.len() + 4)
}

/// A frame built for a body of at most `MAX_FRAME_LEN` bytes reads
/// back as that body: its header decodes to the body's length, which
/// `read_frame` accepts for any buffer that holds the body, and the bytes
/// after the header are the body itself.
pub proof fn lemma_frame_roundtrip(body: Seq<u8>, buf_len: usize)
    requires
        body.len() <= MAX_FRAME_LEN,
        body.len() <= buf_len,
    ensures
        ({
            let f = frame_bytes(body);
            &&& f.len() == body.len() + 4
            &&& be_value(f[0], f[1], f[2], f[3]) == body.len()
            &&& be_value(f[0], f[1], f[2], f[3]) <= buf_len
            &&& be_value(f[0], f[1], f[2], f[3]) <= MAX_FRAME_LEN
            &&& f.skip(4) == body
        }),
{
    let n = body.len() as u32;
    lemma_be_roundtrip(n);
    let f = frame_bytes(body);
    assert(f.skip(4) =~= body);
}

} // verus!
