use cpa_stg::abi::{is_interception, payload_fits, refuse_payload, report_breakdown};
use cpa_stg::clock::{Duration, Instant};
use cpa_stg::config::Config;
use cpa_stg::engine::Rejection;
use cpa_stg::host::{outcome, readable, reply, request_bytes, Fault};
use cpa_stg::json::Json;
use cpa_stg::protocol::{
    document_from, error, handle, ok, register, registration, rejected, resume, shape, terminate,
    Payload, Registration, Request, Shape, Step, PARENT_HEADER,
};
use cpa_stg::runtime::Runtime;

fn now() -> Instant {
    Instant { nanos: 1_000 }
}

fn at<'a>(value: &'a Json, path: &[&str]) -> Option<&'a Json> {
    path.iter().try_fold(value, |value, key| value.get(key))
}

fn request(id: &str) -> Request {
    Request {
        id: id.to_string(),
        metadata: Json::Null,
        source_format: String::new(),
        stream: false,
        headers: Json::Null,
    }
}

fn attempt_on(id: &str, credential: &str) -> Request {
    Request {
        metadata: Json::object().with("selected_auth_id", Json::string(credential)),
        ..request(id)
    }
}

fn reply_to(runtime: &mut Runtime, method: &str, payload: Payload) -> Json {
    match handle(runtime, method, payload, now()) {
        Step::Reply(reply) => reply,
        other => panic!("no reply: {other:?}"),
    }
}

fn single() -> Config {
    let mut config = Config::default();
    config.credentials.default.requests_per_minute = 0;
    config.credentials.default.max_concurrency = 1;
    config
}

#[test]
fn replies_have_their_shape() {
    assert_eq!(
        ok(Json::object()).render(),
        r#"{"ok":true,"result":{}}"#
    );
    assert_eq!(
        error("boom").render(),
        r#"{"error":{"code":"cpa_stg_error","message":"boom"},"ok":false}"#
    );
    let reply = terminate(429, "code", "message");
    assert_eq!(
        reply.render(),
        r#"{"ok":true,"result":{"ResponseBody":"eyJlcnJvciI6eyJjb2RlIjoiY29kZSIsIm1lc3NhZ2UiOiJtZXNzYWdlIiwidHlwZSI6InJhdGVfbGltaXRfZXJyb3IifX0=","ResponseHeaders":{"Content-Type":["application/json"],"Retry-After":["1"]},"StatusCode":429,"Terminate":true}}"#
    );
    let reply = terminate(503, "code", "message");
    assert!(at(&reply, &["result", "ResponseHeaders", "Retry-After"]).is_none());
}

#[test]
fn every_refusal_has_its_status_and_code() {
    let table = [
        (Rejection::QueueFull, 429, "cpa_queue_full"),
        (Rejection::QueueTimeout, 429, "cpa_queue_timeout"),
        (Rejection::RequestEnded, 499, "cpa_request_ended"),
        (Rejection::DuplicateWait, 409, "cpa_duplicate_wait"),
        (Rejection::Capacity, 503, "cpa_capacity"),
        (Rejection::Stopping, 503, "cpa_stopping"),
    ];
    for (reason, status, code) in table {
        let reply = rejected(reason);
        assert!(reply.is_true_at("ok"));
        assert_eq!(
            at(&reply, &["result", "StatusCode"]),
            Some(&Json::Unsigned(status))
        );
        let body = at(&reply, &["result", "ResponseBody"]).unwrap().text();
        let bytes = base64::Engine::decode(
            &base64::engine::general_purpose::STANDARD,
            body.unwrap(),
        )
        .unwrap();
        let body = Json::parse_bytes(&bytes).unwrap();
        assert_eq!(at(&body, &["error", "code"]), Some(&Json::string(code)));
        let kind = if status == 429 {
            "rate_limit_error"
        } else {
            "server_error"
        };
        assert_eq!(at(&body, &["error", "type"]), Some(&Json::string(kind)));
        assert_eq!(
            at(&reply, &["result", "ResponseHeaders", "Retry-After"]).is_some(),
            status == 429
        );
    }
}

#[test]
fn a_registration_is_announced() {
    assert_eq!(
        registration(2).render(),
        r#"{"ok":true,"result":{"capabilities":{"request_interceptor":true,"request_lifecycle_plugin":true},"metadata":{"Author":"csbxd","ConfigFields":[{"Description":"Maximum tracked model executions","Name":"max_tracked_requests","Type":"integer"},{"Description":"Maximum credential buckets","Name":"max_credentials","Type":"integer"},{"Description":"Configure error mapping on cpa-stg-router","Name":"error_mapping","Type":"object"}],"GitHubRepository":"https://github.com/csbxd/cpa-stg","Name":"cpa-stg","Version":"0.2.0"},"schema_version":2}}"#
    );
}

#[test]
fn registrations_decode_their_document() {
    let mut runtime = Runtime::default();
    let call = |runtime: &mut Runtime, version: u32, yaml: Option<&str>| {
        handle(
            runtime,
            "plugin.reconfigure",
            Payload::Registration(Some(Registration {
                schema_version: version,
                config_yaml: yaml.map(str::to_string),
            })),
            now(),
        )
    };
    match call(&mut runtime, 2, Some("YTogYg==")) {
        Step::Decode(bytes) => assert_eq!(bytes, b"a: b"),
        other => panic!("{other:?}"),
    }
    match call(&mut runtime, 2, None) {
        Step::Decode(bytes) => assert!(bytes.is_empty()),
        other => panic!("{other:?}"),
    }
    match call(&mut runtime, 2, Some("")) {
        Step::Decode(bytes) => assert!(bytes.is_empty()),
        other => panic!("{other:?}"),
    }
    match call(&mut runtime, 2, Some("a: b")) {
        Step::Reply(reply) => assert_eq!(reply, error("Invalid base64 config_yaml")),
        other => panic!("{other:?}"),
    }
    assert_eq!(
        document_from(1, None),
        Err("Host schema version 2 or newer is required".to_string())
    );
    assert_eq!(
        reply_to(&mut runtime, "plugin.register", Payload::Registration(None)),
        error("Invalid registration payload")
    );
    assert_eq!(
        register(&mut runtime, b"", None, now()),
        registration(2)
    );
    assert_eq!(
        register(&mut runtime, b"{", None, now()),
        error("invalid policy YAML")
    );
    let mut mapping = Config::default();
    mapping.error_mapping.enabled = true;
    mapping
        .error_mapping
        .rules
        .push(cpa_stg::error_mapping::ErrorRule {
            name: "a".to_string(),
            matcher: cpa_stg::error_mapping::ErrorMatch {
                codes: vec!["x".to_string()],
                ..cpa_stg::error_mapping::ErrorMatch::default()
            },
            retryable: cpa_stg::error_mapping::RetryableError {
                message: "m".to_string(),
                delay: None,
            },
        });
    assert_eq!(
        register(&mut runtime, b"x", Some(mapping), now()),
        error("configure error_mapping on cpa-stg-router, not cpa-stg")
    );
    runtime.stop();
    assert_eq!(
        register(&mut runtime, b"", None, now()),
        error("plugin is stopping")
    );
}

#[test]
fn payloads_are_read_by_method() {
    assert_eq!(shape("plugin.register"), Shape::Registration);
    assert_eq!(shape("plugin.reconfigure"), Shape::Registration);
    assert_eq!(shape("request.intercept_before"), Shape::Request);
    assert_eq!(shape("request.intercept_after"), Shape::Request);
    assert_eq!(shape("request.complete"), Shape::Request);
    assert_eq!(shape("plugin.quiesce"), Shape::Ignored);
    assert_eq!(shape("anything"), Shape::Ignored);
}

#[test]
fn unreadable_calls_are_answered() {
    let mut runtime = Runtime::default();
    for method in ["request.intercept_before", "request.intercept_after"] {
        let reply = reply_to(&mut runtime, method, Payload::Request(None));
        assert_eq!(
            reply,
            terminate(
                400,
                "cpa_invalid_request",
                "Invalid request interception payload"
            )
        );
        for id in ["".to_string(), "x".repeat(1025)] {
            let reply = reply_to(&mut runtime, method, Payload::Request(Some(request(&id))));
            assert_eq!(
                reply,
                terminate(400, "cpa_invalid_request_id", "A valid RequestID is required")
            );
        }
    }
    assert_eq!(
        reply_to(&mut runtime, "request.complete", Payload::Request(None)),
        error("Invalid completion payload")
    );
    assert_eq!(
        reply_to(&mut runtime, "plugin.unknown", Payload::Ignored),
        error("Unsupported plugin method")
    );
    assert_eq!(runtime.counts(), (0, 0, 0));
}

#[test]
fn malformed_credentials_are_refused() {
    let mut runtime = Runtime::default();
    reply_to(
        &mut runtime,
        "request.intercept_before",
        Payload::Request(Some(request("a"))),
    );
    let refused = terminate(503, "cpa_invalid_credential", "Invalid selected_auth_id");
    for credential in ["", " x", "x ", &"x".repeat(1025)] {
        let reply = reply_to(
            &mut runtime,
            "request.intercept_after",
            Payload::Request(Some(attempt_on("a", credential))),
        );
        assert_eq!(reply, refused);
    }
    let numeric = Request {
        metadata: Json::object().with("selected_auth_id", Json::Unsigned(1)),
        ..request("a")
    };
    assert_eq!(
        reply_to(
            &mut runtime,
            "request.intercept_after",
            Payload::Request(Some(numeric))
        ),
        refused
    );
    assert_eq!(runtime.counts(), (1, 0, 0));
}

fn streaming(id: &str, headers: Json) -> Request {
    Request {
        id: id.to_string(),
        metadata: Json::object().with("source", Json::string("plugin_host_model_callback")),
        source_format: "openai-response".to_string(),
        stream: true,
        headers,
    }
}

#[test]
fn nested_requests_follow_the_header_of_their_outer_one() {
    let mut runtime = Runtime::default();
    let outer = Request {
        metadata: Json::Null,
        ..streaming("outer", Json::Null)
    };
    let reply = reply_to(
        &mut runtime,
        "request.intercept_before",
        Payload::Request(Some(outer)),
    );
    let headers = at(&reply, &["result", "Headers"]).unwrap().clone();
    assert_eq!(
        headers.render(),
        r#"{"X-Cpa-Stg-Parent":["outer"]}"#
    );
    reply_to(
        &mut runtime,
        "request.intercept_before",
        Payload::Request(Some(streaming("nested", headers))),
    );
    assert_eq!(runtime.counts(), (2, 0, 0));
    let mut attempt = streaming(
        "nested",
        Json::object().with("x-cpa-stg-parent", Json::single(Json::string("outer"))),
    );
    attempt.metadata = attempt
        .metadata
        .with("selected_auth_id", Json::string("one"));
    assert_eq!(
        reply_to(
            &mut runtime,
            "request.intercept_after",
            Payload::Request(Some(attempt))
        ),
        ok(Json::object().with("ClearHeaders", Json::single(Json::string(PARENT_HEADER))))
    );
    reply_to(
        &mut runtime,
        "request.complete",
        Payload::Request(Some(request("outer"))),
    );
    assert_eq!(runtime.counts(), (0, 0, 0));
    // The outer request is over: a late callback is turned away.
    let late = streaming(
        "late",
        Json::object().with("X-CPA-STG-PARENT", Json::single(Json::string("outer"))),
    );
    assert_eq!(
        reply_to(
            &mut runtime,
            "request.intercept_before",
            Payload::Request(Some(late))
        ),
        rejected(Rejection::RequestEnded)
    );
}

#[test]
fn only_the_host_can_name_an_outer_request() {
    let mut runtime = Runtime::default();
    let headers = Json::object().with(PARENT_HEADER, Json::single(Json::string("gone")));
    let foreign = Request {
        metadata: Json::object().with("source", Json::string("client")),
        ..streaming("a", headers.clone())
    };
    let reply = reply_to(
        &mut runtime,
        "request.intercept_before",
        Payload::Request(Some(foreign)),
    );
    assert!(at(&reply, &["result", "Headers"]).is_some());
    let plain = Request {
        stream: false,
        ..streaming("b", headers)
    };
    let reply = reply_to(
        &mut runtime,
        "request.intercept_before",
        Payload::Request(Some(plain)),
    );
    assert_eq!(reply, ok(Json::object()));
    assert_eq!(runtime.counts(), (2, 0, 0));
}

#[test]
fn of_several_spellings_of_a_header_the_first_in_order_counts() {
    let headers = Json::object()
        .with("x-cpa-stg-parent", Json::single(Json::string("small")))
        .with("X-CPA-STG-PARENT", Json::single(Json::string("large")))
        .with("X-Cpa-Stg-Parent", Json::single(Json::string("mixed")))
        .with("Other", Json::Null);
    assert_eq!(headers.key_like(PARENT_HEADER), Some("X-CPA-STG-PARENT"));
    assert_eq!(headers.key_like("another"), None);
    assert_eq!(Json::Null.key_like(PARENT_HEADER), None);
    let mut runtime = Runtime::default();
    runtime.begin("large").unwrap();
    let reply = reply_to(
        &mut runtime,
        "request.intercept_before",
        Payload::Request(Some(streaming("a", headers))),
    );
    assert!(at(&reply, &["result", "Headers"]).is_some());
    runtime.complete("large");
    assert_eq!(runtime.counts(), (0, 0, 0));
}

#[test]
fn waiting_calls_are_resumed() {
    let mut runtime = Runtime::default();
    runtime.configure(single(), now()).unwrap();
    for id in ["a", "b", "c"] {
        reply_to(
            &mut runtime,
            "request.intercept_before",
            Payload::Request(Some(request(id))),
        );
    }
    assert_eq!(
        reply_to(
            &mut runtime,
            "request.intercept_after",
            Payload::Request(Some(attempt_on("a", "one")))
        ),
        ok(Json::object())
    );
    let deadline = now().plus(Duration::from_millis(30_000));
    match handle(
        &mut runtime,
        "request.intercept_after",
        Payload::Request(Some(attempt_on("b", "one"))),
        now(),
    ) {
        Step::Wait { id, until, clear } => {
            assert_eq!((id.as_str(), until, clear), ("b", deadline, false));
        }
        other => panic!("{other:?}"),
    }
    assert!(matches!(
        resume(&mut runtime, "b".to_string(), false, now()),
        Step::Wait { .. }
    ));
    reply_to(
        &mut runtime,
        "request.complete",
        Payload::Request(Some(request("a"))),
    );
    match resume(&mut runtime, "b".to_string(), false, now()) {
        Step::Reply(reply) => assert_eq!(reply, ok(Json::object())),
        other => panic!("{other:?}"),
    }
    handle(
        &mut runtime,
        "request.intercept_after",
        Payload::Request(Some(attempt_on("c", "one"))),
        now(),
    );
    match resume(&mut runtime, "c".to_string(), true, deadline) {
        Step::Reply(reply) => assert_eq!(reply, rejected(Rejection::QueueTimeout)),
        other => panic!("{other:?}"),
    }
    assert_eq!(
        reply_to(&mut runtime, "plugin.quiesce", Payload::Ignored),
        ok(Json::object())
    );
    assert_eq!(
        reply_to(
            &mut runtime,
            "request.intercept_before",
            Payload::Request(Some(request("d")))
        ),
        rejected(Rejection::Stopping)
    );
}

#[test]
fn the_native_boundary_answers_for_itself() {
    assert!(is_interception("request.intercept_before"));
    assert!(is_interception("request.intercept_"));
    assert!(!is_interception("request.intercept"));
    assert!(!is_interception("xrequest.intercept_after"));
    assert!(payload_fits(false, 0));
    assert!(!payload_fits(false, 1));
    assert!(payload_fits(true, 64 * 1024 * 1024));
    assert!(!payload_fits(true, 64 * 1024 * 1024 + 1));
    let message = "Plugin payload exceeds the 64 MiB limit or is invalid";
    assert_eq!(
        refuse_payload("request.intercept_after"),
        terminate(413, "cpa_payload_limit", message)
    );
    assert_eq!(
        refuse_payload("executor.execute_stream").render(),
        r#"{"error":{"code":"cpa_payload_limit","http_status":413,"message":"Plugin payload exceeds the 64 MiB limit or is invalid"},"ok":false}"#
    );
    assert_eq!(
        report_breakdown("request.intercept_before"),
        terminate(
            503,
            "cpa_internal_error",
            "Policy plugin stopped after an internal failure"
        )
    );
    assert_eq!(
        report_breakdown("plugin.register").render(),
        r#"{"error":{"code":"cpa_internal_error","message":"Policy plugin stopped"},"ok":false}"#
    );
}

#[test]
fn answers_of_the_host_are_read() {
    assert!(readable(0, true, 64 * 1024 * 1024));
    assert!(!readable(1, true, 1));
    assert!(!readable(0, false, 0));
    assert!(!readable(0, true, 64 * 1024 * 1024 + 1));
    let fault = reply(None).unwrap_err();
    assert_eq!(
        (fault.status, fault.message.as_str()),
        (502, "Invalid host callback response")
    );
    assert_eq!(
        reply(Some(b"{")).unwrap_err().message,
        "Invalid host response JSON"
    );
    assert_eq!(
        reply(Some(br#"{"ok":true,"result":{"a":[1,-2]}}"#))
            .unwrap()
            .render(),
        r#"{"a":[1,-2]}"#
    );
    assert_eq!(reply(Some(br#"{"ok":true}"#)).unwrap(), Json::Null);
    let fault = reply(Some(
        br#"{"ok":false,"error":{"http_status":429,"message":"slow down"}}"#,
    ))
    .unwrap_err();
    assert_eq!((fault.status, fault.message.as_str()), (429, "slow down"));
    for status in ["399", "600", "-1", "\"500\""] {
        let text = format!(r#"{{"error":{{"http_status":{status}}}}}"#);
        let fault = outcome(Json::parse(&text).unwrap()).unwrap_err();
        assert_eq!(
            (fault.status, fault.message.as_str()),
            (0, "Host execution failed")
        );
        assert_eq!(
            at(&fault.envelope(), &["error", "http_status"]),
            Some(&Json::Unsigned(502))
        );
    }
    assert_eq!(
        Fault::new("boom").envelope().render(),
        r#"{"error":{"code":"cpa_execution_error","http_status":502,"message":"boom"},"ok":false}"#
    );
    assert_eq!(
        request_bytes(&Json::object().with("a", Json::string("\u{e9}"))),
        "{\"a\":\"\u{e9}\"}".as_bytes()
    );
}

#[test]
fn numbers_keep_what_they_are() {
    let parsed = Json::parse(r#"{"u":18446744073709551615,"i":-3,"f":2.5}"#).unwrap();
    assert_eq!(parsed.unsigned_at("u"), Some(u64::MAX));
    assert_eq!(parsed.unsigned_at("i"), None);
    assert_eq!(parsed.unsigned_at("f"), None);
    assert_eq!(
        parsed.clone().render(),
        r#"{"f":2.5,"i":-3,"u":18446744073709551615}"#
    );
    let carried = Json::object().with("n", Json::Number(serde_json::Number::from(7u64)));
    assert_eq!(carried.unsigned_at("n"), Some(7));
    assert_eq!(carried.take("n").render(), "7");
    assert_eq!(parsed.get("i"), Some(&Json::Signed(-3)));
    assert_eq!(Json::Signed(i64::MIN).render(), "-9223372036854775808");
    assert_eq!(
        Json::parse("-9223372036854775808"),
        Some(Json::Signed(i64::MIN))
    );
    assert!(Json::parse("{").is_none());
    assert!(Json::parse_bytes(&[0xff]).is_none());
}

#[test]
fn of_equal_keys_the_last_one_counts() {
    let parsed = Json::parse(r#"{"a":1,"a":2}"#).unwrap();
    assert_eq!(parsed.unsigned_at("a"), Some(2));
    let built = Json::Object(vec![
        ("a".to_string(), Json::Unsigned(1)),
        ("a".to_string(), Json::Unsigned(2)),
    ]);
    assert_eq!(built.unsigned_at("a"), Some(2));
    assert_eq!(built.render(), r#"{"a":2}"#);
    assert_eq!(built.with("a", Json::Null).render(), r#"{"a":null}"#);
}
