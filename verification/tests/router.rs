use base64::{engine::general_purpose::STANDARD, Engine as _};
use cpa_stg::config::Config;
use cpa_stg::error_mapping::{ErrorMapping, ErrorMatch, ErrorRule, RetryableError};
use cpa_stg::host::Fault;
use cpa_stg::json::Json;
use cpa_stg::protocol::{error, ok};
use cpa_stg::pump::{
    close_request, emit_request, fail_start, read_chunk, start, stream_request, Chunk, Pump,
    Startup,
};
use cpa_stg::router::{answer_execution, document, Router, RouterStep};

fn mapping() -> ErrorMapping {
    ErrorMapping {
        enabled: true,
        rules: vec![
            ErrorRule {
                name: "quota".to_string(),
                matcher: ErrorMatch {
                    codes: vec!["insufficient_quota".to_string()],
                    ..ErrorMatch::default()
                },
                retryable: RetryableError {
                    message: "later".to_string(),
                    delay: None,
                },
            },
            ErrorRule {
                name: "status".to_string(),
                matcher: ErrorMatch {
                    http_statuses: vec![503],
                    ..ErrorMatch::default()
                },
                retryable: RetryableError {
                    message: "busy".to_string(),
                    delay: None,
                },
            },
        ],
    }
}

fn configured() -> Config {
    Config {
        max_tracked_requests: 1,
        error_mapping: mapping(),
        ..Config::default()
    }
}

fn running() -> Router {
    let mut router = Router::default();
    let reply = router.register(b"x", Some(configured()));
    assert!(reply.is_true_at("ok"));
    router
}

const EXECUTION: &str = r#"{"SourceFormat":"openai-response","Stream":true,"stream_id":"down","host_callback_id":"scope","Model":"m","Payload":"cA==","Headers":{"h":["v"]},"Query":null}"#;

fn reply_to(router: &mut Router, method: &str, raw: &str) -> Json {
    match router.handle(method, raw.as_bytes()) {
        RouterStep::Reply(reply) => reply,
        other => panic!("no reply: {other:?}"),
    }
}

#[test]
fn the_router_registers() {
    let mut router = Router::default();
    assert_eq!(
        reply_to(&mut router, "plugin.register", "{"),
        error("Invalid router payload")
    );
    assert_eq!(
        reply_to(&mut router, "plugin.register", r#"{"schema_version":1}"#),
        error("CPA schema >= 2 required")
    );
    assert_eq!(
        reply_to(&mut router, "plugin.register", "{}"),
        error("CPA schema >= 2 required")
    );
    assert_eq!(
        reply_to(
            &mut router,
            "plugin.reconfigure",
            r#"{"schema_version":2,"config_yaml":"*"}"#
        ),
        error("Invalid config encoding")
    );
    match router.handle(
        "plugin.register",
        br#"{"schema_version":2,"config_yaml":"YTogYg=="}"#,
    ) {
        RouterStep::Decode(bytes) => assert_eq!(bytes, b"a: b"),
        other => panic!("{other:?}"),
    }
    for raw in [
        r#"{"schema_version":2}"#,
        r#"{"schema_version":2,"config_yaml":""}"#,
        r#"{"schema_version":2,"config_yaml":null}"#,
    ] {
        match router.handle("plugin.register", raw.as_bytes()) {
            RouterStep::Decode(bytes) => assert!(bytes.is_empty()),
            other => panic!("{other:?}"),
        }
    }
    assert!(document(&Json::Null, None).is_err());
    assert_eq!(
        router.register(b"x", None),
        error("invalid policy YAML")
    );
    assert_eq!(
        router.register(b"x", Some(configured())).render(),
        r#"{"ok":true,"result":{"capabilities":{"executor":true,"executor_input_formats":["openai-response"],"executor_model_scope":"static","executor_output_formats":["openai-response"],"model_router":true},"metadata":{"Author":"csbxd","ConfigFields":[{"Description":"Ordered Codex Responses retryable error rules","Name":"error_mapping","Type":"object"}],"GitHubRepository":"https://github.com/csbxd/cpa-stg","Name":"cpa-stg-router","Version":"0.2.0"},"schema_version":2}}"#
    );
    assert_eq!(
        reply_to(&mut router, "executor.identifier", "null"),
        ok(Json::object().with("identifier", Json::string("cpa-stg-router")))
    );
    assert_eq!(
        reply_to(&mut router, "plugin.unknown", "null"),
        error("Unsupported router method")
    );
}

#[test]
fn only_streaming_responses_are_routed() {
    let handled = |handled: bool| {
        ok(Json::object()
            .with("Handled", Json::Bool(handled))
            .with("TargetKind", Json::string("self")))
    };
    let request = r#"{"SourceFormat":"openai-response","Stream":true}"#;
    let mut router = Router::default();
    assert_eq!(
        reply_to(&mut router, "model.route", request),
        handled(false)
    );
    let mut router = running();
    assert_eq!(reply_to(&mut router, "model.route", request), handled(true));
    for other in [
        r#"{"SourceFormat":"openai-response","Stream":false}"#,
        r#"{"SourceFormat":"openai","Stream":true}"#,
        "{}",
    ] {
        assert_eq!(reply_to(&mut router, "model.route", other), handled(false));
    }
    router.shutdown();
    assert_eq!(
        reply_to(&mut router, "model.route", request),
        handled(false)
    );
}

#[test]
fn executions_start_within_the_limit() {
    let mut router = running();
    let fault = |message: &str| Fault::new(message).envelope();
    let method = "executor.execute_stream";
    assert_eq!(
        reply_to(&mut router, method, "{}"),
        fault("Router only accepts streaming Codex Responses")
    );
    assert_eq!(
        reply_to(
            &mut router,
            method,
            r#"{"SourceFormat":"openai-response","Stream":true,"stream_id":""}"#
        ),
        fault("Missing output stream id")
    );
    assert_eq!(
        reply_to(
            &mut router,
            method,
            r#"{"SourceFormat":"openai-response","Stream":true,"stream_id":"d"}"#
        ),
        fault("Missing callback scope")
    );
    match router.handle(method, EXECUTION.as_bytes()) {
        RouterStep::Execute(start) => {
            assert_eq!(start.downstream, "down");
            assert_eq!(start.mapping.rules.len(), 2);
            assert_eq!(
                start.request.render(),
                r#"{"alt":null,"body":"cA==","entry_protocol":"openai-response","exit_protocol":"openai-response","headers":{"h":["v"]},"host_callback_id":"scope","model":"m","query":null,"stream":true}"#
            );
        }
        other => panic!("{other:?}"),
    }
    assert_eq!(
        reply_to(&mut router, method, EXECUTION),
        fault("Router execution capacity reached")
    );
    router.release();
    assert!(matches!(
        router.handle(method, EXECUTION.as_bytes()),
        RouterStep::Execute(_)
    ));
    assert!(router.may_open().is_ok());
    assert!(router.stream_end().is_none());
    match router.handle("plugin.shutdown", b"null") {
        RouterStep::Close(reply) => assert_eq!(reply, ok(Json::object())),
        other => panic!("{other:?}"),
    }
    assert_eq!(
        router.may_open().unwrap_err().message,
        "Router is stopping"
    );
    assert!(matches!(router.stream_end(), Some(Ok(()))));
    assert_eq!(
        reply_to(&mut router, method, EXECUTION),
        fault("Router is stopping")
    );
    assert_eq!(
        router.register(b"", None),
        error("Router is stopping")
    );
    router.release();
    router.release();
}

#[test]
fn failures_at_the_start_are_mapped_or_passed() {
    let fault = Fault {
        status: 503,
        message: "boom".to_string(),
    };
    match start(&mapping(), Err(fault)) {
        Startup::Mapped(answer) => {
            let payload = answer
                .get("chunks")
                .and_then(Json::first)
                .and_then(|chunk| chunk.text_at("Payload"))
                .unwrap();
            assert_eq!(
                String::from_utf8(STANDARD.decode(payload).unwrap()).unwrap(),
                "event: response.failed\ndata: {\"response\":{\"error\":{\"code\":\"cpa_retryable\",\"message\":\"busy\",\"type\":\"server_error\"},\"status\":\"failed\"},\"type\":\"response.failed\"}\n\n"
            );
            assert_eq!(
                answer.get("headers").unwrap().render(),
                r#"{"Cache-Control":["no-cache"],"Content-Type":["text/event-stream"]}"#
            );
        }
        other => panic!("{other:?}"),
    }
    let fault = Fault {
        status: 500,
        message: "boom".to_string(),
    };
    match start(&mapping(), Err(fault)) {
        Startup::Failed(fault) => {
            assert_eq!((fault.status, fault.message.as_str()), (500, "boom"))
        }
        other => panic!("{other:?}"),
    }
    let failure = Json::parse(
        r#"{"type":"response.failed","response":{"error":{"code":"insufficient_quota"}}}"#,
    )
    .unwrap();
    assert!(matches!(
        fail_start(&mapping(), Fault::new("x"), failure),
        Startup::Mapped(_)
    ));
    match start(
        &mapping(),
        Ok(Json::parse(r#"{"stream_id":"up","headers":{"a":["b"]}}"#).unwrap()),
    ) {
        Startup::Stream { nested, answer } => {
            assert_eq!(nested, "up");
            assert_eq!(answer.render(), r#"{"headers":{"a":["b"]}}"#);
        }
        other => panic!("{other:?}"),
    }
    for missing in ["{}", r#"{"stream_id":""}"#] {
        match start(&mapping(), Ok(Json::parse(missing).unwrap())) {
            Startup::Failed(fault) => assert_eq!(fault.message, "Missing host model stream id"),
            other => panic!("{other:?}"),
        }
    }
}

fn piece(text: &str, done: bool) -> Chunk {
    let mut chunk = Json::object().with("payload", Json::string(&STANDARD.encode(text)));
    if done {
        chunk = chunk.with("done", Json::Bool(true));
    }
    read_chunk(Ok(chunk))
}

#[test]
fn a_stream_is_passed_on_and_flushed() {
    let mut pump = Pump::new(mapping());
    let progress = pump.advance(piece("data: {\"a\":1}", false));
    assert_eq!(progress.emissions, vec![b"data: {\"a\":1}\n\n".to_vec()]);
    assert!(progress.end.is_none());
    let progress = pump.advance(piece("half", false));
    assert!(progress.emissions.is_empty());
    let progress = pump.advance(piece(" a line\n\nrest", true));
    assert_eq!(
        progress.emissions,
        vec![b"half a line\n\n".to_vec(), b"rest".to_vec()]
    );
    assert!(matches!(progress.end, Some(Ok(()))));
    let progress = pump.advance(read_chunk(Ok(
        Json::object().with("done", Json::Bool(true))
    )));
    assert!(progress.emissions.is_empty());
    assert!(matches!(progress.end, Some(Ok(()))));
}

#[test]
fn errors_end_a_stream_mapped_or_not() {
    let mut pump = Pump::new(mapping());
    pump.advance(piece("half", false));
    let message = r#"{"error":{"code":"insufficient_quota"}}"#;
    let progress = pump.advance(read_chunk(Ok(
        Json::object().with("error", Json::string(message))
    )));
    assert_eq!(progress.emissions.len(), 2);
    assert_eq!(progress.emissions[0], b"half");
    assert!(String::from_utf8(progress.emissions[1].clone())
        .unwrap()
        .contains("\"message\":\"later\""));
    assert!(matches!(progress.end, Some(Ok(()))));
    // The status of such an error is unknown: no rule on a status matches.
    let mut pump = Pump::new(mapping());
    let progress = pump.advance(read_chunk(Ok(
        Json::object().with("error", Json::string("503 boom"))
    )));
    assert!(progress.emissions.is_empty());
    match progress.end {
        Some(Err(fault)) => assert_eq!((fault.status, fault.message.as_str()), (502, "503 boom")),
        other => panic!("{other:?}"),
    }
    let lost = Fault {
        status: 0,
        message: "lost".to_string(),
    };
    match pump.advance(read_chunk(Err(lost))).end {
        Some(Err(fault)) => assert_eq!((fault.status, fault.message.as_str()), (0, "lost")),
        other => panic!("{other:?}"),
    }
    let broken = Json::object().with("payload", Json::string("*"));
    match pump.advance(read_chunk(Ok(broken))).end {
        Some(Err(fault)) => assert_eq!(fault.message, "Invalid host stream encoding"),
        other => panic!("{other:?}"),
    }
    let empty = read_chunk(Ok(Json::object().with("error", Json::string(""))));
    assert!(pump.advance(empty).end.is_none());
}

#[test]
fn requests_about_streams_have_their_shape() {
    assert_eq!(stream_request("s").render(), r#"{"stream_id":"s"}"#);
    assert_eq!(
        emit_request("s", b"hi").render(),
        r#"{"payload":"aGk=","stream_id":"s"}"#
    );
    assert_eq!(
        close_request("s", Some(Ok(()))).render(),
        r#"{"error":"","stream_id":"s"}"#
    );
    assert_eq!(
        close_request("s", Some(Err(Fault::new("boom")))).render(),
        r#"{"error":"boom","stream_id":"s"}"#
    );
    assert_eq!(
        close_request("s", None).render(),
        r#"{"error":"Error mapping worker failed","stream_id":"s"}"#
    );
    assert_eq!(
        answer_execution(Ok(Json::Null)),
        ok(Json::Null)
    );
    assert_eq!(
        answer_execution(Err(Fault::new("boom"))),
        Fault::new("boom").envelope()
    );
}
