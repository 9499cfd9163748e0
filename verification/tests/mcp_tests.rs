use microkernelia::ai_runtime::{infer as rt_infer, infer_stub, load_model, AiRuntime};
use microkernelia::ai_stub::{
    count_words, infer, parse_infer_req, parse_json_rpc, parse_path_field, serialize_health_response,
    serialize_infer_response, serialize_metadata_response, serialize_status_error,
    serialize_status_ok, HealthResponse, InferResponse, MetadataResponse,
};
use microkernelia::logging::{log_read, log_write, LogBuffer};
use microkernelia::mcp_server::{
    dispatch, finish_load_model, init, is_ready, mcp_server_loop, server_loop_start, tools,
    McpServer, ServerAction, ToolKind, ToolReply,
};

fn drain(log: &mut LogBuffer) -> Vec<u8> {
    let mut out = vec![0u8; 8192];
    let n = log_read(log, &mut out);
    out.truncate(n);
    out
}

#[test]
fn runtime_without_model() {
    let rt = AiRuntime::new();
    assert!(!rt.is_loaded());
    assert_eq!(rt_infer(&rt, "hola"), "[ai-runtime] No hay modelo cargado");
}

#[test]
fn runtime_with_model() {
    let mut rt = AiRuntime::new();
    assert_eq!(load_model(&mut rt, Some(vec![1, 2, 3])), Ok(()));
    assert_eq!(rt.model_size(), Some(3));
    assert_eq!(rt_infer(&rt, "hola"), "[ai-runtime] Inferencia ejecutada (modelo cargado)");
}

#[test]
fn runtime_with_empty_model() {
    let mut rt = AiRuntime::new();
    assert_eq!(load_model(&mut rt, Some(vec![])), Ok(()));
    assert_eq!(rt_infer(&rt, "hola"), "[ai-runtime] Modelo vacío");
}

#[test]
fn failed_read_keeps_model() {
    let mut rt = AiRuntime::new();
    load_model(&mut rt, Some(vec![9])).unwrap();
    assert_eq!(load_model(&mut rt, None), Err("fs read error"));
    assert_eq!(rt.model_size(), Some(1));
}

#[test]
fn stub_answer() {
    assert_eq!(infer_stub("x"), "[ai-runtime] Respuesta de ejemplo");
}

#[test]
fn stub_infer_logs_prompt() {
    let mut log = LogBuffer::new();
    assert_eq!(infer(&mut log, "hola"), "[ai] Respuesta de ejemplo");
    assert_eq!(drain(&mut log), b"[ai] Recibido prompt: hola".to_vec());
}

#[test]
fn word_counts() {
    assert_eq!(count_words("[ai-runtime] Inferencia ejecutada (modelo cargado)"), 5);
    assert_eq!(count_words("[ai-runtime] Modelo vacío"), 3);
    assert_eq!(count_words("  a \t b\n"), 2);
    assert_eq!(count_words(""), 0);
    assert_eq!(count_words("a\u{00A0}b\u{3000}c d"), 4);
    let s = "x\u{2003}y\u{85}z";
    assert_eq!(count_words(s), s.split_whitespace().count());
}

#[test]
fn decoders_and_encoders_yield_nothing() {
    assert!(parse_infer_req(b"{\"prompt\":\"x\"}").is_none());
    assert!(parse_path_field(b"{\"path\":\"m.bin\"}").is_none());
    assert!(parse_json_rpc(b"{\"method\":\"health\"}").is_none());
    let mut buf = [5u8; 8];
    let r = InferResponse { text: "t".to_string(), tokens: 1, latency_ms: 1 };
    assert_eq!(serialize_infer_response(&r, &mut buf), 0);
    let h = HealthResponse { status: "ok".to_string(), details: "d".to_string() };
    assert_eq!(serialize_health_response(&h, &mut buf), 0);
    let m = MetadataResponse {
        model_name: "m".to_string(),
        quantization: "none".to_string(),
        arch: "x86_64".to_string(),
        features: vec!["SSE2".to_string()],
        build: "dev".to_string(),
    };
    assert_eq!(serialize_metadata_response(&m, &mut buf), 0);
    assert_eq!(buf, [5u8; 8]);
    assert_eq!(serialize_status_ok("p", &buf), 0);
    assert_eq!(serialize_status_error("e", &buf), 0);
}

#[test]
fn tool_table_order() {
    let t = tools();
    let names: Vec<&str> = t.iter().map(|x| x.name).collect();
    assert_eq!(names, vec!["infer", "health", "metadata", "load_model", "logs"]);
    assert!(t[4].kind == ToolKind::Logs);
}

#[test]
fn server_init_and_ready() {
    let mut srv = McpServer::new();
    assert!(!is_ready(&srv));
    init(&mut srv);
    assert!(is_ready(&srv));
    assert_eq!(drain(&mut srv.log), b"[mcp] Servidor MCP inicializado (stub)".to_vec());
}

fn reply(r: ToolReply) -> Option<Vec<u8>> {
    match r {
        ToolReply::Reply(x) => x,
        ToolReply::ReadModel(_) => panic!("unexpected model read"),
    }
}

#[test]
fn dispatch_each_tool() {
    let mut srv = McpServer::new();
    assert_eq!(reply(dispatch(&mut srv, "infer", b"{}")), None);
    assert_eq!(reply(dispatch(&mut srv, "health", b"{}")), Some(vec![]));
    assert_eq!(reply(dispatch(&mut srv, "metadata", b"{}")), Some(vec![]));
    assert_eq!(reply(dispatch(&mut srv, "load_model", b"{}")), None);
    assert_eq!(reply(dispatch(&mut srv, "unknown", b"{}")), None);
}

#[test]
fn dispatch_logs_tool_returns_log() {
    let mut srv = McpServer::new();
    log_write(&mut srv.log, "linea");
    assert_eq!(reply(dispatch(&mut srv, "logs", b"")), Some(b"linea".to_vec()));
    assert_eq!(reply(dispatch(&mut srv, "logs", b"")), Some(vec![]));
}

#[test]
fn logs_tool_returns_at_most_1024_bytes() {
    let mut srv = McpServer::new();
    log_write(&mut srv.log, &"z".repeat(1500));
    assert_eq!(reply(dispatch(&mut srv, "logs", b"")).unwrap().len(), 1024);
    assert_eq!(reply(dispatch(&mut srv, "logs", b"")).unwrap().len(), 476);
}

#[test]
fn finish_load_model_loads() {
    let mut srv = McpServer::new();
    assert_eq!(finish_load_model(&mut srv, b"{}", "m.bin", Some(vec![1, 2])), Some(vec![]));
    assert!(srv.runtime.is_loaded());
    assert_eq!(finish_load_model(&mut srv, b"{}", "m.bin", None), Some(vec![]));
    assert_eq!(srv.runtime.model_size(), Some(2));
}

#[test]
fn server_loop_logs_invalid_frames() {
    let mut srv = McpServer::new();
    server_loop_start(&mut srv);
    assert!(matches!(mcp_server_loop(&mut srv, None), ServerAction::Idle));
    assert!(matches!(mcp_server_loop(&mut srv, Some(b"{\"method\":\"health\"}")), ServerAction::Idle));
    let mut expected = b"[mcp] MCP server loop iniciado".to_vec();
    expected.extend_from_slice("[mcp] JSON-RPC inválido".as_bytes());
    assert_eq!(drain(&mut srv.log), expected);
}

#[test]
fn serial_stub_infer_logs_one_line() {
    let mut log = LogBuffer::new();
    let r = microkernelia::serial_stub::infer(&mut log, "hola");
    assert_eq!(r, "[ai] Respuesta de ejemplo");
    assert_eq!(drain(&mut log), b"[ai] Recibido prompt: hola".to_vec());
}

#[test]
fn serial_stub_infer_cuts_long_prompt() {
    let mut log = LogBuffer::new();
    let prompt = "x".repeat(400);
    microkernelia::serial_stub::infer(&mut log, &prompt);
    let got = drain(&mut log);
    assert_eq!(got.len(), 256);
    assert!(got.starts_with(b"[ai] Recibido prompt: xxx"));
}

#[test]
fn serial_stub_infer_cut_inside_character() {
    let mut log = LogBuffer::new();
    // the prefix is 22 bytes and "x" one more; the 117th two-byte character
    // then takes bytes 255 and 256, across the cut.
    let prompt = "x".to_string() + &"é".repeat(126);
    microkernelia::serial_stub::infer(&mut log, &prompt);
    assert_eq!(drain(&mut log), b"<log>".to_vec());
}
