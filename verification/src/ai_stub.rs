use vstd::prelude::*;
use vstd::string::StringSliceAdditionalSpecFns;
use vstd::std_specs::iter::IteratorSpec;
use crate::logging::{LogBuffer, log_write, log_after_write};

verus! {

/// An inference request.
pub struct InferRequest {
    pub prompt: String,
    pub params: Option<InferParams>,
}

/// Optional inference parameters; the temperature is kept as the bit
/// pattern of its `f32` value.
pub struct InferParams {
    pub max_tokens: Option<u32>,
    pub temperature_bits: Option<u32>,
}

/// Answer to an inference request.
pub struct InferResponse {
    pub text: String,
    pub tokens: u32,
    pub latency_ms: u32,
}

/// Answer to a health request.
pub struct HealthResponse {
    pub status: String,
    pub details: String,
}

/// Answer to a metadata request.
pub struct MetadataResponse {
    pub model_name: String,
    pub quantization: String,
    pub arch: String,
    pub features: Vec<String>,
    pub build: String,
}

/// Whitespace as `char::is_whitespace` defines it (the Unicode
/// `White_Space` property): tab to carriage return, space, next line,
/// no-break space, ogham space mark, en quad to hair space, line and
/// paragraph separators, narrow no-break space, medium mathematical space
/// and ideographic space.
pub open spec fn is_ws(c: char) -> bool {
    let u = c as u32;
    ||| (0x9 <= u && u <= 0xD)
    ||| u == 0x20
    ||| u == 0x85
    ||| u == 0xA0
    ||| u == 0x1680
    ||| (0x2000 <= u && u <= 0x200A)
    ||| u == 0x2028
    ||| u == 0x2029
    ||| u == 0x202F
    ||| u == 0x205F
    ||| u == 0x3000
}

/// Whether `c` is whitespace (see `is_ws`).
pub fn is_whitespace(c: char) -> (r: bool)
    ensures
        r == is_ws(c),
{
    let u = c as u32;
    (0x9u32 <= u && u <= 0xDu32) || u == 0x20u32 || u == 0x85u32 || u == 0xA0u32 || u == 0x1680u32
        || (0x2000u32 <= u && u <= 0x200Au32) || u == 0x2028u32 || u == 0x2029u32 || u == 0x202Fu32
        || u == 0x205Fu32 || u == 0x3000u32
}

/// Number of words in `s`: maximal runs of characters that are not
/// whitespace, as `str::split_whitespace` yields them.
pub open spec fn word_count(s: Seq<char>) -> nat
    decreases s.len(),
{
    if s.len() == 0 {
        0
    } else {
        let n = s.len() - 1;
        word_count(s.take(n)) + if !is_ws(s[n]) && (n == 0 || is_ws(s[n - 1])) {
            1nat
        } else {
            0nat
        }
    }
}

/// A UTF-8 encoding has at least one byte per character.
proof fn lemma_encoding_at_least_chars(chars: Seq<char>)
    ensures
        vstd::utf8::encode_utf8(chars).len() >= chars.len(),
    decreases chars.len(),
{
    if chars.len() > 0 {
        lemma_encoding_at_least_chars(chars.drop_first());
        let e = vstd::utf8::encode_scalar(chars[0] as u32);
        assert(e.len() >= 1);
    }
}

/// Number of words of `text` (what `text.split_whitespace().count()`
/// counts).
pub fn count_words(text: &str) -> (n: usize)
    ensures
        n == word_count(text@),
{
    broadcast use vstd::string::group_string_axioms;

    let blen = text.as_bytes().len();
    proof {
        lemma_encoding_at_least_chars(text@);
    }
    assert(text@.len() <= blen);
    let mut n: usize = 0;
    let mut prev_ws = true;
    let ghost mut k: int = 0;
    let mut it = text.chars();
    assert(it.remaining() == text@);
    loop
        invariant
            0 <= k <= text@.len(),
            it.remaining() == text@.skip(k),
            n == word_count(text@.take(k)),
            prev_ws == (k == 0 || is_ws(text@[k - 1])),
            n <= k,
            text@.len() <= usize::MAX,
        ensures
            n == word_count(text@),
        decreases text@.len() - k,
    {
        let ghost before = it.remaining();
        match it.next() {
            Some(c) => {
                proof {
                    assert(before.len() > 0);
                    assert(c == text@[k]);
                    assert(text@.take(k + 1).take(k) =~= text@.take(k));
                }
                let ws = is_whitespace(c);
                if !ws && prev_ws {
                    n = n + 1;
                }
                prev_ws = ws;
                proof {
                    k = k + 1;
                    assert(it.remaining() =~= text@.skip(k));
                }
            },
            None => {
                proof {
                    assert(k == text@.len());
                    assert(text@.take(k) =~= text@);
                }
                break;
            },
        }
    }
    n
}

/// Decoding of an inference request body: no request body is decoded, the
/// result is always `None`.
pub fn parse_infer_req(json_bytes: &[u8]) -> (r: Option<InferRequest>)
    ensures
        r is None,
{
    None
}

/// Encoding of an inference answer into `buf`: nothing is written, the
/// encoded length is always 0.
pub fn serialize_infer_response(resp: &InferResponse, buf: &mut [u8]) -> (n: usize)
    ensures
        n == 0,
        final(buf)@ == old(buf)@,
{
    0
}

/// Encoding of a health answer into `buf`: nothing is written, the encoded
/// length is always 0.
pub fn serialize_health_response(resp: &HealthResponse, buf: &mut [u8]) -> (n: usize)
    ensures
        n == 0,
        final(buf)@ == old(buf)@,
{
    0
}

/// Encoding of a metadata answer into `buf`: nothing is written, the
/// encoded length is always 0.
pub fn serialize_metadata_response(resp: &MetadataResponse, buf: &mut [u8]) -> (n: usize)
    ensures
        n == 0,
        final(buf)@ == old(buf)@,
{
    0
}

/// Extraction of the `path` field of a load request: no field is
/// extracted, the result is always `None`.
pub fn parse_path_field(json_bytes: &[u8]) -> (r: Option<&str>)
    ensures
        r is None,
{
    None
}

/// Length of the success status written over a load request: always 0.
pub fn serialize_status_ok(path: &str, buf: &[u8]) -> (n: usize)
    ensures
        n == 0,
{
    0
}

/// Length of the error status written over a load request: always 0.
pub fn serialize_status_error(err: &str, buf: &[u8]) -> (n: usize)
    ensures
        n == 0,
{
    0
}

/// Splitting of a JSON-RPC frame into method and parameters: no frame is
/// decoded, the result is always `None`.
pub fn parse_json_rpc(frame: &[u8]) -> (r: Option<(&str, &[u8])>)
    ensures
        r is None,
{
    None
}

/// Logs the prompt ("[ai] Recibido prompt: " then the prompt) and gives
/// the fixed answer "[ai] Respuesta de ejemplo".
pub fn infer(log: &mut LogBuffer, prompt: &str) -> (r: &'static str)
    requires
        old(log).wf(),
    ensures
        final(log).wf(),
        final(log)@ == log_after_write(
            log_after_write(old(log)@, "[ai] Recibido prompt: ".spec_bytes()),
            prompt.spec_bytes(),
        ),
        r@ == "[ai] Respuesta de ejemplo"@,
{
    log_write(log, "[ai] Recibido prompt: ");
    log_write(log, prompt);
    "[ai] Respuesta de ejemplo"
}

} // verus!
