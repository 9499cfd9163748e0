use vstd::prelude::*;
use vstd::string::StringSliceAdditionalSpecFns;
use crate::logging::{LogBuffer, log_write, log_read, log_after_write};
use crate::ai_runtime::{AiRuntime, load_model, MAX_MODEL_SIZE};
use crate::ai_runtime;
use crate::ai_stub::{
    InferResponse,
    HealthResponse,
    MetadataResponse,
    count_words,
    parse_infer_req,
    serialize_infer_response,
    serialize_health_response,
    serialize_metadata_response,
    parse_path_field,
    serialize_status_ok,
    serialize_status_error,
    parse_json_rpc,
};

verus! {

/// Most bytes of log the `logs` tool returns at once.
pub const LOGS_REPLY_MAX: usize = 1024;

/// The tools the server offers.
#[derive(PartialEq, Eq, Structural, Clone, Copy)]
pub enum ToolKind {
    Infer,
    Health,
    Metadata,
    LoadModel,
    Logs,
}

/// A tool: its name and which handler answers it.
pub struct McpTool {
    pub name: &'static str,
    pub kind: ToolKind,
}

/// The tool a name selects: the first of `infer`, `health`, `metadata`,
/// `load_model`, `logs` it equals.
pub open spec fn tool_kind(name: Seq<char>) -> Option<ToolKind> {
    if name == "infer"@ {
        Some(ToolKind::Infer)
    } else if name == "health"@ {
        Some(ToolKind::Health)
    } else if name == "metadata"@ {
        Some(ToolKind::Metadata)
    } else if name == "load_model"@ {
        Some(ToolKind::LoadModel)
    } else if name == "logs"@ {
        Some(ToolKind::Logs)
    } else {
        None
    }
}

/// The tool table, in lookup order.
pub fn tools() -> (t: Vec<McpTool>)
    ensures
        t@.len() == 5,
        t@[0].name@ == "infer"@ && t@[0].kind == ToolKind::Infer,
        t@[1].name@ == "health"@ && t@[1].kind == ToolKind::Health,
        t@[2].name@ == "metadata"@ && t@[2].kind == ToolKind::Metadata,
        t@[3].name@ == "load_model"@ && t@[3].kind == ToolKind::LoadModel,
        t@[4].name@ == "logs"@ && t@[4].kind == ToolKind::Logs,
{
    let mut t: Vec<McpTool> = Vec::new();
    t.push(McpTool { name: "infer", kind: ToolKind::Infer });
    t.push(McpTool { name: "health", kind: ToolKind::Health });
    t.push(McpTool { name: "metadata", kind: ToolKind::Metadata });
    t.push(McpTool { name: "load_model", kind: ToolKind::LoadModel });
    t.push(McpTool { name: "logs", kind: ToolKind::Logs });
    t
}

/// Whether two strings are equal.
pub fn str_eq(a: &str, b: &str) -> (r: bool)
    ensures
        r == (a@ == b@),
{
    let x = a.to_owned();
    let y = b.to_owned();
    x == y
}

/// Server state: whether it is up, the inference runtime and the log.
pub struct McpServer {
    pub ready: bool,
    pub runtime: AiRuntime,
    pub log: LogBuffer,
}

impl McpServer {
    /// Well-formedness: the log's.
    pub open spec fn wf(&self) -> bool {
        self.log.wf()
    }

    /// A server that is not up yet, with no model and an empty log.
    pub fn new() -> (s: Self)
        ensures
            s.wf(),
            !s.ready,
            s.runtime.model() is None,
            s.log@ == Seq::<u8>::empty(),
    {
        McpServer { ready: false, runtime: AiRuntime::new(), log: LogBuffer::new() }
    }
}

/// Brings the server up and logs it.
pub fn init(srv: &mut McpServer)
    requires
        old(srv).wf(),
    ensures
        final(srv).wf(),
        final(srv).ready,
        final(srv).runtime == old(srv).runtime,
        final(srv).log@ == log_after_write(
            old(srv).log@,
            "[mcp] Servidor MCP inicializado (stub)".spec_bytes(),
        ),
{
    srv.ready = true;
    log_write(&mut srv.log, "[mcp] Servidor MCP inicializado (stub)");
}

/// Whether the server is up.
pub fn is_ready(srv: &McpServer) -> (r: bool)
    ensures
        r == srv.ready,
{
    srv.ready
}

/// What a tool call comes to: a reply (`None` for no reply), or a request
/// to read the named model file and finish with `finish_load_model`.
pub enum ToolReply {
    Reply(Option<Vec<u8>>),
    ReadModel(String),
}

/// The first `n` bytes of `b`.
fn prefix(b: &[u8], n: usize) -> (r: Vec<u8>)
    requires
        n <= b@.len(),
    ensures
        r@ == b@.take(n as int),
{
    let mut r: Vec<u8> = Vec::new();
    let mut i: usize = 0;
    while i < n
        invariant
            i <= n,
            n <= b@.len(),
            r@ == b@.take(i as int),
        decreases n - i,
    {
        r.push(b[i]);
        proof {
            assert(b@.take(i + 1) =~= b@.take(i as int).push(b@[i as int]));
        }
        i = i + 1;
    }
    r
}

/// The `infer` tool: decodes the request, runs inference, counts the
/// answer's words and encodes the answer. Request bodies do not decode, so
/// there is never a reply.
fn handle_infer(srv: &McpServer, input: &[u8]) -> (r: Option<Vec<u8>>)
    ensures
        r is None,
{
    let req = parse_infer_req(input)?;
    let text = ai_runtime::infer(&srv.runtime, req.prompt.as_str());
    let tokens = count_words(text) as u32;
    let resp = InferResponse { text: text.to_owned(), tokens, latency_ms: 1 };
    let mut buf: Vec<u8> = vec![0u8; 256];
    let n = serialize_infer_response(&resp, buf.as_mut_slice());
    Some(prefix(buf.as_slice(), n))
}

/// The `health` tool: status "ok"/"modelo cargado" with a model loaded,
/// "not_loaded"/"sin modelo" without; the encoded answer is empty.
fn handle_health(srv: &McpServer, input: &[u8]) -> (r: Option<Vec<u8>>)
    ensures
        r is Some && r->0@ == Seq::<u8>::empty(),
{
    let loaded = srv.runtime.is_loaded();
    let status = if loaded { "ok" } else { "not_loaded" };
    let details = if loaded { "modelo cargado" } else { "sin modelo" };
    let resp = HealthResponse { status: status.to_owned(), details: details.to_owned() };
    let mut buf: Vec<u8> = vec![0u8; 128];
    let n = serialize_health_response(&resp, buf.as_mut_slice());
    Some(prefix(buf.as_slice(), n))
}

/// The `metadata` tool: model "modelo-bin" with a model loaded,
/// "not_loaded" without, quantization "none", arch "x86_64", features
/// ["SSE2"], build "dev"; the encoded answer is empty.
fn handle_metadata(srv: &McpServer, input: &[u8]) -> (r: Option<Vec<u8>>)
    ensures
        r is Some && r->0@ == Seq::<u8>::empty(),
{
    let model_name = if srv.runtime.is_loaded() { "modelo-bin" } else { "not_loaded" };
    let mut features: Vec<String> = Vec::new();
    features.push("SSE2".to_owned());
    let resp = MetadataResponse {
        model_name: model_name.to_owned(),
        quantization: "none".to_owned(),
        arch: "x86_64".to_owned(),
        features,
        build: "dev".to_owned(),
    };
    let mut buf: Vec<u8> = vec![0u8; 128];
    let n = serialize_metadata_response(&resp, buf.as_mut_slice());
    Some(prefix(buf.as_slice(), n))
}

/// The `load_model` tool: the request names the model file to read. Path
/// fields do not decode, so there is never a reply.
fn handle_load_model(input: &[u8]) -> (r: ToolReply)
    ensures
        r == ToolReply::Reply(None),
{
    match parse_path_field(input) {
        Some(path) => ToolReply::ReadModel(path.to_owned()),
        None => ToolReply::Reply(None),
    }
}

/// Finishes a `load_model` call once the model file was read: the model is
/// loaded (see `load_model`) and the status written over the request is
/// returned, which is empty.
pub fn finish_load_model(srv: &mut McpServer, input: &[u8], path: &str, read: Option<Vec<u8>>) -> (r:
    Option<Vec<u8>>)
    requires
        read matches Some(d) ==> d@.len() <= MAX_MODEL_SIZE,
    ensures
        r is Some && r->0@ == Seq::<u8>::empty(),
        final(srv).log == old(srv).log,
        final(srv).ready == old(srv).ready,
        read is Some ==> final(srv).runtime.model() == Some(
            ai_runtime::Model { data: read->0, size: read->0@.len() as usize },
        ),
        read is None ==> final(srv).runtime.model() == old(srv).runtime.model(),
{
    let res = load_model(&mut srv.runtime, read);
    let n = match res {
        Ok(()) => serialize_status_ok(path, input),
        Err(e) => serialize_status_error(e, input),
    };
    Some(prefix(input, n))
}

/// The `logs` tool: takes up to `LOGS_REPLY_MAX` pending log bytes, oldest
/// first.
fn handle_logs(srv: &mut McpServer, input: &[u8]) -> (r: Option<Vec<u8>>)
    requires
        old(srv).wf(),
    ensures
        final(srv).wf(),
        final(srv).ready == old(srv).ready,
        final(srv).runtime == old(srv).runtime,
        ({
            let p = old(srv).log@;
            let n = if p.len() < LOGS_REPLY_MAX { p.len() as int } else { LOGS_REPLY_MAX as int };
            &&& r is Some
            &&& r->0@ == p.take(n)
            &&& final(srv).log@ == p.skip(n)
        }),
{
    let mut buf: Vec<u8> = vec![0u8; 1024];
    let n = log_read(&mut srv.log, buf.as_mut_slice());
    Some(prefix(buf.as_slice(), n))
}

/// Calls the tool named `tool` on `input`. An unknown name gives no reply.
pub fn dispatch(srv: &mut McpServer, tool: &str, input: &[u8]) -> (r: ToolReply)
    requires
        old(srv).wf(),
    ensures
        final(srv).wf(),
        final(srv).ready == old(srv).ready,
        final(srv).runtime == old(srv).runtime,
        match tool_kind(tool@) {
            Some(ToolKind::Logs) => {
                let p = old(srv).log@;
                let n = if p.len() < LOGS_REPLY_MAX {
                    p.len() as int
                } else {
                    LOGS_REPLY_MAX as int
                };
                &&& r matches ToolReply::Reply(Some(b)) && b@ == p.take(n)
                &&& final(srv).log@ == p.skip(n)
            },
            Some(ToolKind::Health) | Some(ToolKind::Metadata) => {
                &&& r matches ToolReply::Reply(Some(b)) && b@ == Seq::<u8>::empty()
                &&& final(srv).log == old(srv).log
            },
            _ => {
                &&& r == ToolReply::Reply(None)
                &&& final(srv).log == old(srv).log
            },
        },
{
    let table = tools();
    let mut i: usize = 0;
    while i < table.len()
        invariant
            table@.len() == 5,
            table@[0].name@ == "infer"@ && table@[0].kind == ToolKind::Infer,
            table@[1].name@ == "health"@ && table@[1].kind == ToolKind::Health,
            table@[2].name@ == "metadata"@ && table@[2].kind == ToolKind::Metadata,
            table@[3].name@ == "load_model"@ && table@[3].kind == ToolKind::LoadModel,
            table@[4].name@ == "logs"@ && table@[4].kind == ToolKind::Logs,
            i <= 5,
            forall|j: int| 0 <= j < i ==> table@[j].name@ != tool@,
            srv.wf(),
            srv.log == old(srv).log,
            srv.ready == old(srv).ready,
            srv.runtime == old(srv).runtime,
        decreases 5 - i,
    {
        if str_eq(table[i].name, tool) {
            proof {
                assert(tool_kind(tool@) == Some(table@[i as int].kind));
            }
            return match table[i].kind {
                ToolKind::Infer => ToolReply::Reply(handle_infer(srv, input)),
                ToolKind::Health => ToolReply::Reply(handle_health(srv, input)),
                ToolKind::Metadata => ToolReply::Reply(handle_metadata(srv, input)),
                ToolKind::LoadModel => handle_load_model(input),
                ToolKind::Logs => ToolReply::Reply(handle_logs(srv, input)),
            };
        }
        i = i + 1;
    }
    ToolReply::Reply(None)
}

/// What the server loop does after one step.
pub enum ServerAction {
    /// Nothing to send.
    Idle,
    /// Send this reply as a frame.
    Send(Vec<u8>),
    /// Read the named model file, then call `finish_load_model` with these
    /// request parameters and send its reply.
    ReadModel(String, Vec<u8>),
}

/// The methods the server loop accepts.
pub open spec fn accepted_method(m: Seq<char>) -> bool {
    m == "infer"@ || m == "health"@ || m == "metadata"@ || m == "load_model"@ || m == "logs"@
}

/// Logs that the server loop started.
pub fn server_loop_start(srv: &mut McpServer)
    requires
        old(srv).wf(),
    ensures
        final(srv).wf(),
        final(srv).ready == old(srv).ready,
        final(srv).runtime == old(srv).runtime,
        final(srv).log@ == log_after_write(
            old(srv).log@,
            "[mcp] MCP server loop iniciado".spec_bytes(),
        ),
{
    log_write(&mut srv.log, "[mcp] MCP server loop iniciado");
}

/// One turn of the server loop, given the frame read (if any): a frame
/// that is not valid JSON-RPC logs "[mcp] JSON-RPC inválido"; a method
/// other than `infer`, `health`, `metadata`, `load_model` and `logs` logs
/// "[mcp] Método desconocido"; an accepted method is dispatched and its
/// reply, if any, is to be sent. Frames do not decode as JSON-RPC, so every
/// frame is logged as invalid.
pub fn mcp_server_loop(srv: &mut McpServer, frame: Option<&[u8]>) -> (a: ServerAction)
    requires
        old(srv).wf(),
    ensures
        final(srv).wf(),
        final(srv).ready == old(srv).ready,
        final(srv).runtime == old(srv).runtime,
        a == ServerAction::Idle,
        frame is None ==> final(srv).log == old(srv).log,
        frame is Some ==> final(srv).log@ == log_after_write(
            old(srv).log@,
            "[mcp] JSON-RPC inválido".spec_bytes(),
        ),
{
    match frame {
        None => ServerAction::Idle,
        Some(f) => {
            match parse_json_rpc(f) {
                Some((method, params)) => {
                    let accepted = str_eq(method, "infer") || str_eq(method, "health") || str_eq(
                        method,
                        "metadata",
                    ) || str_eq(method, "load_model") || str_eq(method, "logs");
                    if !accepted {
                        log_write(&mut srv.log, "[mcp] Método desconocido");
                        return ServerAction::Idle;
                    }
                    match dispatch(srv, method, params) {
                        ToolReply::Reply(Some(resp)) => ServerAction::Send(resp),
                        ToolReply::Reply(None) => ServerAction::Idle,
                        ToolReply::ReadModel(path) => ServerAction::ReadModel(
                            path,
                            prefix(params, params.len()),
                        ),
                    }
                },
                None => {
                    log_write(&mut srv.log, "[mcp] JSON-RPC inválido");
                    ServerAction::Idle
                },
            }
        },
    }
}

} // verus!
