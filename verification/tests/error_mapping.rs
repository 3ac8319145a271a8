use cpa_stg::clock::Duration;
use cpa_stg::config::Config;
use cpa_stg::error_mapping::{
    failure_from, failure_from_message, parse_delay, record_of, sse, ErrorMapping, ErrorMatch,
    ErrorRule, RetryableError, SseMapper,
};
use cpa_stg::json::Json;
use serde_yaml::Value;

fn strings(value: &Value) -> Option<Vec<String>> {
    value
        .as_sequence()?
        .iter()
        .map(|item| item.as_str().map(str::to_string))
        .collect()
}

fn matcher(value: &Value) -> Option<ErrorMatch> {
    let mut matcher = ErrorMatch::default();
    for (key, value) in value.as_mapping()? {
        match key.as_str()? {
            "codes" => matcher.codes = strings(value)?,
            "types" => matcher.types = strings(value)?,
            "http_statuses" => {
                matcher.http_statuses = value
                    .as_sequence()?
                    .iter()
                    .map(|item| item.as_u64().and_then(|status| u16::try_from(status).ok()))
                    .collect::<Option<Vec<u16>>>()?
            }
            "message_contains" => matcher.message_contains = Some(value.as_str()?.to_string()),
            _ => return None,
        }
    }
    Some(matcher)
}

fn retryable(value: &Value) -> Option<RetryableError> {
    let mut message = None;
    let mut delay = None;
    for (key, value) in value.as_mapping()? {
        match key.as_str()? {
            "message" => message = Some(value.as_str()?.to_string()),
            "delay" => {
                let text = match value {
                    Value::Number(number) => number.to_string(),
                    other => other.as_str()?.to_string(),
                };
                delay = parse_delay(Some(&text)).ok()?;
            }
            _ => return None,
        }
    }
    Some(RetryableError {
        message: message?,
        delay,
    })
}

fn rule(value: &Value) -> Option<ErrorRule> {
    Some(ErrorRule {
        name: value.get("name")?.as_str()?.to_string(),
        matcher: matcher(value.get("match")?)?,
        retryable: retryable(value.get("retryable")?)?,
    })
}

fn decode(yaml: &[u8]) -> Option<Config> {
    let value: Value = serde_yaml::from_slice(yaml).ok()?;
    let mut config = Config::default();
    for (key, value) in value.get("error_mapping")?.as_mapping()? {
        match key.as_str()? {
            "enabled" => config.error_mapping.enabled = value.as_bool()?,
            "rules" => {
                config.error_mapping.rules = value
                    .as_sequence()?
                    .iter()
                    .map(rule)
                    .collect::<Option<Vec<ErrorRule>>>()?
            }
            _ => return None,
        }
    }
    Some(config)
}

fn parse(yaml: &[u8]) -> Result<Config, String> {
    Config::parse(yaml, decode(yaml))
}

fn config() -> Config {
    parse(
        br#"
error_mapping:
  enabled: true
  rules:
    - name: specific
      match:
        codes: [context_length_exceeded, insufficient_quota]
        message_contains: retry
      retryable: {message: configured, delay: 1500ms}
    - name: status
      match: {http_statuses: [429, 503]}
      retryable: {message: busy}
"#,
    )
    .unwrap()
}

fn at<'a>(value: &'a Json, path: &[&str]) -> Option<&'a Json> {
    path.iter().try_fold(value, |value, key| value.get(key))
}

#[test]
fn ordered_matching_requires_all_fields_and_preserves_optional_delay() {
    let cfg = config();
    let failure = failure_from_message(
        r#"{"error":{"code":"context_length_exceeded","message":"retry this"}}"#,
    );
    let mapped = cfg.error_mapping.map(429, &failure).unwrap();
    assert_eq!(mapped.message, "configured");
    assert_eq!(mapped.delay, Some(Duration::from_millis(1500)));
    let result = mapped.rewrite(failure);
    assert_eq!(
        at(&result, &["response", "error", "code"]),
        Some(&Json::string("cpa_retryable"))
    );
    assert_eq!(
        at(&result, &["response", "error", "retry_after_ms"]),
        Some(&Json::Unsigned(1500))
    );
    assert!(cfg.error_mapping.map(429, &result).is_none());
    let generic = failure_from_message("retry this");
    assert!(cfg.error_mapping.map(0, &generic).is_none());
    let mapped = cfg.error_mapping.map(503, &generic).unwrap();
    assert_eq!(mapped.delay, None);
    assert!(at(&mapped.rewrite(generic), &["response", "error", "retry_after_ms"]).is_none());
}

#[test]
fn sse_fragmentation_unmatched_frames_and_bounded_buffer() {
    let failure =
        failure_from_message(r#"{"error":{"code":"insufficient_quota","message":"retry now"}}"#);
    let wire = [
        b":keepalive\r\n\r\n".to_vec(),
        sse(&failure),
        b"data: [DONE]\n\n".to_vec(),
    ]
    .concat();
    let mut mapper = SseMapper::new(config().error_mapping);
    let mut output = Vec::new();
    for byte in wire {
        output.extend(mapper.push(&[byte]));
    }
    output.extend(mapper.finish());
    assert!(output.starts_with(b":keepalive\r\n\r\n"));
    assert!(output.ends_with(b"data: [DONE]\n\n"));
    assert!(String::from_utf8(output).unwrap().contains("cpa_retryable"));
    let huge = vec![b'x'; 1024 * 1024 + 1];
    assert_eq!(mapper.push(&huge), huge);
    assert_eq!(mapper.push(b"tail"), b"tail");
}

#[test]
fn invalid_rules_rejected_and_zero_delay_retained() {
    for setting in ["-1s", "1.5s", "301s", "100", "1h"] {
        let yaml = format!("error_mapping:\n  rules:\n    - name: a\n      match: {{codes: [x]}}\n      retryable: {{message: m, delay: {setting}}}");
        assert!(parse(yaml.as_bytes()).is_err(), "{setting}");
    }
    let cfg = parse(b"error_mapping:\n  enabled: true\n  rules:\n    - name: zero\n      match: {types: [server_error]}\n      retryable: {message: m, delay: 0ms}").unwrap();
    let event = failure_from_message(r#"{"error":{"type":"server_error"}}"#);
    assert_eq!(
        cfg.error_mapping.map(0, &event).unwrap().delay,
        Some(Duration::from_millis(0))
    );
    assert!(parse(b"error_mapping: {enabled: true}").is_err());
    assert!(parse(
        b"error_mapping:\n  rules:\n    - name: a\n      match: {}\n      retryable: {message: x}"
    )
    .is_err());
    assert!(cfg
        .error_mapping
        .map(503, &Json::object().with("type", Json::string("response.completed")))
        .is_none());
}

#[test]
fn codex_host_records_are_reframed_without_waiting_for_stream_end() {
    let mut mapper = SseMapper::new(config().error_mapping);
    assert!(mapper
        .push_host_chunk(b"event: response.created")
        .is_empty());
    let created =
        mapper.push_host_chunk(br#"data: {"type":"response.created","response":{"id":"r"}}"#);
    assert!(created.ends_with(b"\n\n"));
    assert!(String::from_utf8(created)
        .unwrap()
        .contains("response.created\ndata:"));
    assert!(mapper.push_host_chunk(b"event: response.failed").is_empty());
    let failed = mapper.push_host_chunk(br#"data: {"type":"response.failed","response":{"error":{"code":"insufficient_quota","message":"retry now"}}}"#);
    assert!(String::from_utf8(failed).unwrap().contains("cpa_retryable"));
    assert!(mapper.finish().is_empty());
}

fn one_rule(name: &str) -> ErrorRule {
    ErrorRule {
        name: name.to_string(),
        matcher: ErrorMatch {
            codes: vec!["x".to_string()],
            ..ErrorMatch::default()
        },
        retryable: RetryableError {
            message: "m".to_string(),
            delay: None,
        },
    }
}

fn mapping(rules: Vec<ErrorRule>) -> ErrorMapping {
    ErrorMapping {
        enabled: true,
        rules,
    }
}

#[test]
fn every_fault_of_a_rule_has_its_message() {
    assert!(mapping(vec![one_rule("a"), one_rule("b")]).validate().is_ok());
    assert!(mapping(Vec::new()).validate().is_err());
    assert!(ErrorMapping::default().validate().is_ok());
    assert!(mapping(vec![one_rule("a"), one_rule("a")])
        .validate()
        .is_err());
    assert!(mapping(vec![one_rule(" ")]).validate().is_err());
    let mut rule = one_rule("a");
    rule.retryable.message = " ".to_string();
    assert!(mapping(vec![rule]).validate().is_err());
    let mut rule = one_rule("a");
    rule.matcher.codes = vec!["c".repeat(257)];
    assert!(mapping(vec![rule]).validate().is_err());
    let mut rule = one_rule("a");
    rule.matcher.http_statuses = vec![399];
    assert!(mapping(vec![rule]).validate().is_err());
    let mut rule = one_rule("a");
    rule.retryable.delay = Some(Duration::from_millis(300_001));
    assert!(mapping(vec![rule]).validate().is_err());
    let mut rule = one_rule("a");
    rule.retryable.delay = Some(Duration::from_millis(300_000));
    assert!(mapping(vec![rule]).validate().is_ok());
}

#[test]
fn delays_are_whole_numbers_of_a_unit() {
    assert_eq!(parse_delay(None), Ok(None));
    assert_eq!(
        parse_delay(Some("250ms")),
        Ok(Some(Duration::from_millis(250)))
    );
    assert_eq!(
        parse_delay(Some("2s")),
        Ok(Some(Duration::from_millis(2000)))
    );
    assert_eq!(
        parse_delay(Some("5m")),
        Ok(Some(Duration::from_millis(300_000)))
    );
    for text in ["", "ms", "6m", "99999999999999999999s", "1 s"] {
        assert!(parse_delay(Some(text)).is_err(), "{text}");
    }
}

#[test]
fn the_first_matching_rule_decides() {
    let mut first = one_rule("first");
    first.matcher.message_contains = Some("busy".to_string());
    first.retryable.message = "one".to_string();
    let mut second = one_rule("second");
    second.retryable.message = "two".to_string();
    let rules = mapping(vec![first, second]);
    let busy = failure_from_message(r#"{"error":{"code":"x","message":"so busy now"}}"#);
    assert_eq!(rules.map(0, &busy).unwrap().message, "one");
    let idle = failure_from_message(r#"{"error":{"code":"x","message":"idle"}}"#);
    assert_eq!(rules.map(0, &idle).unwrap().message, "two");
    let other = failure_from_message(r#"{"error":{"code":"y","message":"so busy"}}"#);
    assert!(rules.map(0, &other).is_none());
    let disabled = ErrorMapping {
        enabled: false,
        rules: rules.rules,
    };
    assert!(disabled.map(0, &busy).is_none());
}

#[test]
fn a_rewrite_replaces_the_whole_error_and_keeps_the_rest() {
    let failure = Json::parse(
        r#"{"type":"response.failed","n":-1.5,"response":{"id":"r","error":{"code":"x","param":"p"}}}"#,
    )
    .unwrap();
    let retryable = RetryableError {
        message: "again".to_string(),
        delay: None,
    };
    let result = retryable.rewrite(failure);
    assert_eq!(at(&result, &["response", "id"]), Some(&Json::string("r")));
    assert_eq!(
        at(&result, &["response", "status"]),
        Some(&Json::string("failed"))
    );
    assert_eq!(
        at(&result, &["response", "error", "type"]),
        Some(&Json::string("server_error"))
    );
    assert_eq!(
        at(&result, &["response", "error", "message"]),
        Some(&Json::string("again"))
    );
    assert!(at(&result, &["response", "error", "param"]).is_none());
    assert_eq!(
        result.render(),
        r#"{"n":-1.5,"response":{"error":{"code":"cpa_retryable","message":"again","type":"server_error"},"id":"r","status":"failed"},"type":"response.failed"}"#
    );
}

#[test]
fn failures_come_from_json_or_from_the_plain_message() {
    let plain = failure_from(None, "boom");
    assert_eq!(
        plain.render(),
        r#"{"response":{"error":{"message":"boom"},"status":"failed"},"type":"response.failed"}"#
    );
    let whole = r#"{"response":{"error":{"code":"c"}},"type":"response.failed"}"#;
    assert_eq!(failure_from_message(whole).render(), whole);
    let listed = failure_from_message(r#"{"error":["x"]}"#);
    assert_eq!(
        at(&listed, &["response", "error", "message"]),
        Some(&Json::string(r#"{"error":["x"]}"#))
    );
    assert_eq!(
        String::from_utf8(record_of("{}")).unwrap(),
        "event: response.failed\ndata: {}\n\n"
    );
}

#[test]
fn a_stream_without_matches_passes_unchanged_however_it_is_cut() {
    let wire =
        b"event: a\ndata: {\"x\":1}\n\ndata: {\"type\":\"response.failed\"}\r\n\r\nrest".to_vec();
    for step in [1, 3, 7, wire.len()] {
        let mut mapper = SseMapper::new(config().error_mapping);
        let mut output = Vec::new();
        for piece in wire.chunks(step) {
            output.extend(mapper.push(piece));
        }
        output.extend(mapper.finish());
        assert_eq!(output, wire);
    }
}

#[test]
fn records_over_several_data_lines_are_mapped() {
    let wire = b"event: response.failed\ndata: {\"type\":\"response.failed\",\ndata: \"response\":{\"error\":{\"code\":\"insufficient_quota\",\"message\":\"retry\"}}}\n\n";
    let mut mapper = SseMapper::new(config().error_mapping);
    let output = String::from_utf8(mapper.push(wire)).unwrap();
    assert!(output.starts_with("event: response.failed\ndata: {"));
    assert!(output.ends_with("}\n\n"));
    assert!(output.contains("\"code\":\"cpa_retryable\""));
    assert!(output.contains("\"retry_after_ms\":1500"));
}

#[test]
fn host_chunks_that_are_no_record_are_taken_as_they_are() {
    let mut mapper = SseMapper::new(ErrorMapping::default());
    assert_eq!(mapper.push_host_chunk(b"data: [DONE] "), b"data: [DONE] \n\n");
    assert!(mapper.push_host_chunk(b"data: {broken").is_empty());
    assert_eq!(mapper.finish(), b"data: {broken");
    assert_eq!(mapper.push_host_chunk(b"a\n\nb"), b"a\n\n");
    assert_eq!(mapper.push_record(b"data: x", true), b"bdata: x\n\n");
}
