use cpa_stg::clock::{Duration, Instant};
use cpa_stg::config::Config;
use cpa_stg::engine::{Decision, Engine, Rejection};
use cpa_stg::error_mapping::{
    failure_from_message, sse, ErrorMapping, ErrorMatch, ErrorRule, RetryableError, SseMapper,
};
use cpa_stg::json::Json;
use cpa_stg::probe::{cases, is_local, request, Expected, Finding, Seen, Watch};
use cpa_stg::router::Router;
use cpa_stg::table::Table;

fn mapping(message: &str) -> ErrorMapping {
    ErrorMapping {
        enabled: true,
        rules: vec![ErrorRule {
            name: "all".to_string(),
            matcher: ErrorMatch {
                message_contains: Some("boom".to_string()),
                ..ErrorMatch::default()
            },
            retryable: RetryableError {
                message: message.to_string(),
                delay: Some(Duration::from_millis(250)),
            },
        }],
    }
}

#[test]
fn a_rewritten_record_passes_every_mapper_unchanged() {
    let failure = failure_from_message("line one\r\n\r\nboom \u{1F4A5}");
    let mut first = SseMapper::new(mapping("boom again\n\n"));
    let record = first.push(&sse(&failure));
    assert!(record.starts_with(b"event: response.failed\ndata: {"));
    assert!(record.ends_with(b"}\n\n"));
    assert_eq!(record.iter().filter(|byte| **byte == b'\n').count(), 3);
    let mut second = SseMapper::new(mapping("another"));
    assert_eq!(second.push(&record), record);
    assert!(second.finish().is_empty());
    let text = String::from_utf8(record).unwrap();
    let data = text
        .strip_prefix("event: response.failed\ndata: ")
        .unwrap()
        .trim_end();
    let event = Json::parse(data).unwrap();
    let error = event.get("response").unwrap().get("error").unwrap();
    assert_eq!(error.text_at("message"), Some("boom again\n\n"));
    assert_eq!(error.unsigned_at("retry_after_ms"), Some(250));
}

#[test]
fn a_rate_limit_holds_over_a_long_span() {
    let mut config = Config::default();
    config.credentials.default.requests_per_minute = 90;
    config.credentials.default.burst = 5;
    config.credentials.default.max_concurrency = 0;
    config.credentials.default.max_queue = 0;
    let mut engine = Engine::new(config);
    let mut admitted = 0;
    for step in 0..6_000u64 {
        let now = Instant { nanos: 7 }.plus(Duration::from_millis(step * 10));
        let id = step.to_string();
        engine.begin(&id).unwrap();
        if engine.start_attempt(&id, "one", now) == Decision::Admit {
            admitted += 1;
        }
        engine.complete(&id);
    }
    // The burst, and what flows in during 59.99 seconds.
    assert_eq!(admitted, 5 + 89);
}

#[test]
fn counts_stay_within_the_limits_of_a_credential() {
    let mut config = Config::default();
    config.max_tracked_requests = 9;
    config.credentials.default.requests_per_minute = 0;
    config.credentials.default.max_concurrency = 3;
    config.credentials.default.max_queue = 2;
    let mut engine = Engine::new(config);
    let mut most = (0, 0, 0);
    for step in 0..500u64 {
        let now = Instant { nanos: 0 }.plus(Duration::from_millis(step));
        let id = (step * 7 % 13).to_string();
        let outer = (step * 5 % 13).to_string();
        match step % 4 {
            0 => drop(engine.begin(&id)),
            1 => drop(engine.begin_child(&id, &outer)),
            2 => {
                engine.begin(&id).ok();
                engine.start_attempt(&id, "one", now);
            }
            _ => {
                engine.poll(&id, now);
                if step % 3 == 0 {
                    engine.complete(&outer);
                }
            }
        }
        let (live, active, waiting) = engine.counts();
        assert!(active <= 3 && waiting <= 2);
        assert!(active + waiting <= live && live <= 9);
        most = (most.0.max(live), most.1.max(active), most.2.max(waiting));
    }
    assert_eq!(most, (9, 3, 2));
}

#[test]
fn the_end_of_an_attempt_lets_the_next_one_run() {
    let mut config = Config::default();
    config.credentials.default.requests_per_minute = 0;
    config.credentials.default.max_concurrency = 1;
    let mut engine = Engine::new(config);
    let now = Instant { nanos: 5 };
    for id in ["a", "b", "c", "d"] {
        engine.begin(id).unwrap();
    }
    assert_eq!(engine.start_attempt("a", "one", now), Decision::Admit);
    for id in ["b", "c", "d"] {
        assert!(matches!(
            engine.start_attempt(id, "one", now),
            Decision::WaitUntil(_)
        ));
    }
    engine.complete("c");
    assert_eq!(
        engine.poll("c", now),
        Decision::Reject(Rejection::RequestEnded)
    );
    engine.complete("a");
    assert!(matches!(engine.poll("d", now), Decision::WaitUntil(_)));
    assert_eq!(engine.poll("b", now), Decision::Admit);
    assert_eq!(engine.counts(), (2, 1, 1));
    engine.stop();
    assert_eq!(engine.poll("d", now), Decision::Reject(Rejection::Stopping));
    assert_eq!(engine.counts(), (2, 1, 0));
    engine.complete("d");
    engine.complete("b");
    assert_eq!(engine.counts(), (0, 0, 0));
}

#[test]
fn a_failure_is_read_back_from_its_text() {
    for message in [
        "no JSON at all: \"quoted\"\n\u{1F4A5}",
        "",
        "null",
        r#"{"error":{"code":"rate","retry":-3,"n":18446744073709551615}}"#,
        r#"{"error":"not an object"}"#,
        r#"{"type":"response.failed","response":{"error":{"message":"m"},"id":"r"},"sequence":-1}"#,
    ] {
        let failure = failure_from_message(message);
        let text = failure.render();
        assert_eq!(failure_from_message(&text).render(), text);
        assert!(failure.is_text_at("type", "response.failed"));
    }
    assert_eq!(
        failure_from_message(r#"{"error":{"retry":-3}}"#).render(),
        r#"{"response":{"error":{"retry":-3},"status":"failed"},"type":"response.failed"}"#
    );
}

#[test]
fn refilling_on_the_way_changes_nothing() {
    let config = || {
        let mut config = Config::default();
        config.credentials.default.requests_per_minute = 7;
        config.credentials.default.max_concurrency = 0;
        config
    };
    let start = Instant { nanos: 0 };
    let end = Instant {
        nanos: 8_571_428_572,
    };
    let mut watched = Engine::new(config());
    let mut quiet = Engine::new(config());
    for engine in [&mut watched, &mut quiet] {
        engine.begin("a").unwrap();
        engine.begin("b").unwrap();
        assert_eq!(engine.start_attempt("a", "one", start), Decision::Admit);
        assert!(matches!(
            engine.start_attempt("b", "one", start),
            Decision::WaitUntil(_)
        ));
    }
    for step in 1..1_000u128 {
        let now = Instant {
            nanos: step * 8_571_428,
        };
        assert!(matches!(watched.poll("b", now), Decision::WaitUntil(_)));
    }
    assert_eq!(watched.poll("b", end), Decision::Admit);
    assert_eq!(quiet.poll("b", end), Decision::Admit);
}

#[test]
fn attempts_on_one_credential_leave_another_alone() {
    let mut config = Config::default();
    config.credentials.default.max_concurrency = 1;
    config.max_credentials = 2;
    let mut engine = Engine::new(config);
    let now = Instant { nanos: 0 };
    for id in ["a", "b", "c", "d"] {
        engine.begin(id).unwrap();
    }
    assert_eq!(engine.start_attempt("a", "one", now), Decision::Admit);
    assert_eq!(engine.start_attempt("b", "two", now), Decision::Admit);
    let later = now.plus(Duration::from_millis(400));
    assert!(matches!(
        engine.start_attempt("c", "one", later),
        Decision::WaitUntil(_)
    ));
    // "two" owes 0.6 of a token, whatever happened to "one" meanwhile.
    engine.complete("b");
    assert_eq!(
        engine.start_attempt("d", "two", later),
        Decision::WaitUntil(now.plus(Duration::from_millis(1000)))
    );
}

#[test]
fn a_reload_leaves_started_executions_alone() {
    let mut router = Router::default();
    let config = Config {
        error_mapping: mapping("old"),
        ..Config::default()
    };
    router.register(b"x", Some(config));
    let request = Json::parse(
        r#"{"SourceFormat":"openai-response","Stream":true,"stream_id":"d","host_callback_id":"c"}"#,
    )
    .unwrap();
    let start = router.execute(&request).unwrap();
    let config = Config {
        error_mapping: mapping("new"),
        ..Config::default()
    };
    router.register(b"x", Some(config));
    assert_eq!(start.mapping.rules[0].retryable.message, "old");
    let start = router.execute(&request).unwrap();
    assert_eq!(start.mapping.rules[0].retryable.message, "new");
}

#[test]
fn tables_keep_one_value_under_each_key() {
    let mut table = Table::new();
    table.insert("a".to_string(), 1);
    table.insert("b".to_string(), 2);
    table.insert("a".to_string(), 3);
    assert_eq!(table.len(), 2);
    assert_eq!(table.get("a"), Some(&3));
    assert_eq!(table.position("c"), None);
    table.remove_at(0);
    assert_eq!(table.key_at(0), "b");
    assert_eq!(table.value_at(0), &2);
    *table.value_at_mut(0) = 5;
    assert_eq!(table.clone().get("b"), Some(&5));
}

#[test]
fn the_probe_expects_what_the_rules_give() {
    assert!(is_local("http://127.0.0.1:8317"));
    assert!(!is_local("http://127.0.0.2:8317"));
    assert!(!is_local("https://127.0.0.1:8317"));
    let list = cases();
    assert_eq!(list.len(), 4);
    assert_eq!(
        list[3],
        ("streamboom".to_string(), "configured text".to_string())
    );
    assert_eq!(
        request("quota").render(),
        r#"{"input":"quota","model":"a/test-model","stream":true}"#
    );
    let retryable = |message: &str, delayed: bool| Seen::Retryable {
        message: message.to_string(),
        delayed,
    };
    let mut watch = Watch::new(Expected::Retryable("busy".to_string()));
    assert_eq!(watch.observe(Seen::Other), Ok(true));
    assert_eq!(watch.verdict(), Err(Finding::Missing));
    assert_eq!(
        watch.observe(retryable("other", false)),
        Err(Finding::Misread)
    );
    assert_eq!(
        watch.observe(retryable("busy", true)),
        Err(Finding::Misread)
    );
    assert_eq!(watch.observe(Seen::Failed), Err(Finding::Misclassified));
    assert_eq!(watch.observe(retryable("busy", false)), Ok(false));
    assert_eq!(watch.verdict(), Ok(()));
    let mut watch = Watch::new(Expected::Completed);
    assert_eq!(
        watch.observe(retryable("busy", false)),
        Err(Finding::Misclassified)
    );
    assert_eq!(watch.observe(Seen::Completed), Ok(true));
    assert_eq!(watch.verdict(), Ok(()));
}
