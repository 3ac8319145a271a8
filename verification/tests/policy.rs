use base64::{engine::general_purpose::STANDARD, Engine as _};
use cpa_stg::clock::{Duration, Instant};
use cpa_stg::config::{Config, Policy};
use cpa_stg::engine::{Decision, Engine, Rejection, ScopeKey};
use cpa_stg::json::Json;
use cpa_stg::protocol::{handle, register, shape, Payload, Registration, Request, Shape, Step};
use cpa_stg::runtime::{Admission, Runtime};
use cpa_stg::table::Table;
use serde_json::Value;

fn start() -> Instant {
    Instant {
        nanos: 5_000_000_000,
    }
}

fn after(now: Instant, millis: u64) -> Instant {
    now.plus(Duration::from_millis(millis))
}

fn unlimited_rate() -> Config {
    let mut config = Config::default();
    config.credentials.default.requests_per_minute = 0;
    config.credentials.default.max_concurrency = 1;
    config
}

fn attempt(engine: &mut Engine, id: &str, credential: &str, now: Instant) -> Decision {
    engine.begin(id).unwrap();
    engine.start_attempt(id, credential, now)
}

#[test]
fn token_bucket_refills_without_refunding_completed_requests() {
    let now = start();
    let mut engine = Engine::new(Config::default());
    assert_eq!(attempt(&mut engine, "a", "channel", now), Decision::Admit);
    engine.complete("a");
    assert_eq!(
        attempt(&mut engine, "b", "channel", now),
        Decision::WaitUntil(after(now, 1000))
    );
    assert!(matches!(
        engine.poll("b", after(now, 999)),
        Decision::WaitUntil(_)
    ));
    assert_eq!(engine.poll("b", after(now, 1000)), Decision::Admit);
}

#[test]
fn credentials_have_independent_limits_and_queues() {
    let now = start();
    let mut engine = Engine::new(unlimited_rate());
    assert_eq!(attempt(&mut engine, "a", "one", now), Decision::Admit);
    assert!(matches!(
        attempt(&mut engine, "b", "one", now),
        Decision::WaitUntil(_)
    ));
    assert_eq!(attempt(&mut engine, "c", "two", now), Decision::Admit);
    assert_eq!(engine.counts(), (3, 2, 1));
}

#[test]
fn fifo_prevents_new_requests_from_barging() {
    let now = start();
    let mut engine = Engine::new(unlimited_rate());
    attempt(&mut engine, "a", "one", now);
    attempt(&mut engine, "b", "one", now);
    attempt(&mut engine, "c", "one", now);
    engine.complete("a");
    assert!(matches!(
        attempt(&mut engine, "d", "one", now),
        Decision::WaitUntil(_)
    ));
    assert!(matches!(engine.poll("c", now), Decision::WaitUntil(_)));
    assert_eq!(engine.poll("b", now), Decision::Admit);
    engine.complete("b");
    assert_eq!(engine.poll("c", now), Decision::Admit);
}

#[test]
fn queue_bound_timeout_and_duplicate_completion_do_not_leak() {
    let now = start();
    let mut cfg = unlimited_rate();
    cfg.credentials.default.max_queue = 1;
    cfg.credentials.default.queue_timeout_ms = 50;
    let mut engine = Engine::new(cfg);
    attempt(&mut engine, "a", "one", now);
    attempt(&mut engine, "b", "one", now);
    assert_eq!(
        attempt(&mut engine, "c", "one", now),
        Decision::Reject(Rejection::QueueFull)
    );
    assert_eq!(
        engine.poll("b", after(now, 50)),
        Decision::Reject(Rejection::QueueTimeout)
    );
    engine.complete("a");
    engine.complete("a");
    engine.complete("b");
    engine.complete("c");
    assert_eq!(engine.counts(), (0, 0, 0));
}

#[test]
fn cancellation_removes_head_and_cannot_resurrect_request() {
    let now = start();
    let mut engine = Engine::new(unlimited_rate());
    attempt(&mut engine, "a", "one", now);
    attempt(&mut engine, "b", "one", now);
    attempt(&mut engine, "c", "one", now);
    engine.complete("b");
    engine.complete("a");
    assert_eq!(
        engine.poll("b", now),
        Decision::Reject(Rejection::RequestEnded)
    );
    assert_eq!(
        engine.start_attempt("b", "two", now),
        Decision::Reject(Rejection::RequestEnded)
    );
    assert_eq!(engine.poll("c", now), Decision::Admit);
}

#[test]
fn retries_charge_again_even_when_credential_is_unchanged() {
    let now = start();
    let mut engine = Engine::new(Config::default());
    assert_eq!(attempt(&mut engine, "a", "one", now), Decision::Admit);
    assert!(matches!(
        engine.start_attempt("a", "one", now),
        Decision::WaitUntil(_)
    ));
    assert_eq!(engine.counts(), (1, 0, 1));
    assert_eq!(engine.poll("a", after(now, 1000)), Decision::Admit);
    assert_eq!(
        engine.start_attempt("a", "two", after(now, 1000)),
        Decision::Admit
    );
    assert_eq!(engine.counts(), (1, 1, 0));
    engine.complete("a");
    assert_eq!(engine.counts(), (0, 0, 0));
}

#[test]
fn concurrent_duplicate_wait_does_not_replace_queue_position() {
    let now = start();
    let mut engine = Engine::new(unlimited_rate());
    attempt(&mut engine, "a", "one", now);
    attempt(&mut engine, "b", "one", now);
    assert_eq!(
        engine.start_attempt("b", "two", now),
        Decision::Reject(Rejection::DuplicateWait)
    );
    assert_eq!(engine.counts(), (2, 1, 1));
}

#[test]
fn reconfigure_preserves_debt_active_slots_and_original_queue_deadline() {
    let now = start();
    let mut cfg = Config::default();
    let mut engine = Engine::new(cfg.clone());
    attempt(&mut engine, "a", "one", now);
    attempt(&mut engine, "b", "one", now);
    cfg.credentials.default.max_concurrency = 1;
    cfg.credentials.default.queue_timeout_ms = 300_000;
    engine.reconfigure(cfg, now).unwrap();
    assert!(matches!(engine.poll("b", now), Decision::WaitUntil(_)));
    engine.complete("a");
    assert!(matches!(engine.poll("b", now), Decision::WaitUntil(_)));
    assert_eq!(
        engine.poll("b", after(now, 30_000)),
        Decision::Reject(Rejection::QueueTimeout)
    );
}

#[test]
fn disabling_policy_releases_waiters_without_resetting_active_accounting() {
    let now = start();
    let mut cfg = unlimited_rate();
    let mut engine = Engine::new(cfg.clone());
    attempt(&mut engine, "a", "one", now);
    attempt(&mut engine, "b", "one", now);
    cfg.credentials.default.enabled = false;
    engine.reconfigure(cfg, now).unwrap();
    assert_eq!(engine.poll("b", now), Decision::Admit);
    assert_eq!(engine.counts(), (2, 1, 0));
    engine.complete("a");
    engine.complete("b");
    assert_eq!(engine.counts(), (0, 0, 0));
}

#[test]
fn bucket_eviction_never_resets_rate_debt() {
    let now = start();
    let cfg = Config {
        max_credentials: 1,
        ..Config::default()
    };
    let mut engine = Engine::new(cfg);
    attempt(&mut engine, "a", "one", now);
    engine.complete("a");
    assert_eq!(
        attempt(&mut engine, "b", "two", now),
        Decision::Reject(Rejection::Capacity)
    );
    assert_eq!(
        engine.start_attempt("b", "two", after(now, 1000)),
        Decision::Admit
    );
}

#[test]
fn zero_queue_rejects_immediately_and_zero_limits_disable_only_that_limit() {
    let now = start();
    let mut cfg = unlimited_rate();
    cfg.credentials.default.max_queue = 0;
    let mut engine = Engine::new(cfg.clone());
    attempt(&mut engine, "a", "one", now);
    assert_eq!(
        attempt(&mut engine, "b", "one", now),
        Decision::Reject(Rejection::QueueFull)
    );
    cfg.credentials.default.max_concurrency = 0;
    engine.reconfigure(cfg, now).unwrap();
    assert_eq!(engine.start_attempt("b", "one", now), Decision::Admit);
}

#[test]
fn tracking_is_bounded_and_stopping_rejects_waiters() {
    let now = start();
    let mut cfg = unlimited_rate();
    cfg.max_tracked_requests = 2;
    let mut engine = Engine::new(cfg);
    attempt(&mut engine, "a", "one", now);
    attempt(&mut engine, "b", "one", now);
    assert_eq!(engine.begin("c"), Err(Rejection::Capacity));
    engine.stop();
    assert_eq!(engine.poll("b", now), Decision::Reject(Rejection::Stopping));
    assert_eq!(engine.begin("c"), Err(Rejection::Stopping));
}

/// Reads the configuration fields that these tests use.
fn decode(yaml: &[u8]) -> Option<Config> {
    let value: serde_yaml::Value = serde_yaml::from_slice(yaml).ok()?;
    let mut config = Config::default();
    for (key, value) in value.as_mapping()? {
        match key.as_str()? {
            "credentials" => {
                for (key, value) in value.as_mapping()? {
                    match key.as_str()? {
                        "default" => config.credentials.default = policy(value)?,
                        "overrides" => {
                            for (id, value) in value.as_mapping()? {
                                config
                                    .credentials
                                    .overrides
                                    .insert(id.as_str()?.to_string(), policy(value)?);
                            }
                        }
                        _ => return None,
                    }
                }
            }
            "api_keys" => {
                for (key, _) in value.as_mapping()? {
                    config
                        .api_keys
                        .insert(key.as_str()?.to_string(), Json::object());
                }
            }
            _ => return None,
        }
    }
    Some(config)
}

fn policy(value: &serde_yaml::Value) -> Option<Policy> {
    let mut policy = Policy::default();
    for (key, value) in value.as_mapping()? {
        match key.as_str()? {
            "burst" => policy.burst = u32::try_from(value.as_u64()?).ok()?,
            "max_concurrency" => policy.max_concurrency = usize::try_from(value.as_u64()?).ok()?,
            "max_queue" => policy.max_queue = usize::try_from(value.as_u64()?).ok()?,
            "queue_timeout_ms" => policy.queue_timeout_ms = value.as_u64()?,
            _ => return None,
        }
    }
    Some(policy)
}

fn parse(yaml: &[u8]) -> Result<Config, String> {
    Config::parse(yaml, decode(yaml))
}

fn json(text: &str) -> Value {
    serde_json::from_str(text).unwrap()
}

fn member(value: &Value, key: &str) -> Json {
    match value.get(key) {
        Some(member) => Json::parse(&member.to_string()).unwrap(),
        None => Json::Null,
    }
}

fn payload(method: &str, value: Option<Value>) -> Payload {
    match shape(method) {
        Shape::Registration => Payload::Registration(value.map(|value| Registration {
            schema_version: value["schema_version"].as_u64().unwrap() as u32,
            config_yaml: value["config_yaml"].as_str().map(str::to_string),
        })),
        Shape::Request => Payload::Request(value.map(|value| Request {
            id: value["RequestID"].as_str().unwrap().to_string(),
            metadata: member(&value, "Metadata"),
            source_format: value["SourceFormat"].as_str().unwrap_or("").to_string(),
            stream: value["Stream"].as_bool().unwrap_or(false),
            headers: member(&value, "Headers"),
        })),
        Shape::Ignored => Payload::Ignored,
    }
}

fn call_raw(runtime: &mut Runtime, method: &str, raw: &[u8]) -> Value {
    let value = serde_json::from_slice(raw).ok();
    let reply = match handle(runtime, method, payload(method, value), start()) {
        Step::Reply(reply) => reply,
        Step::Decode(yaml) => register(runtime, &yaml, decode(&yaml), start()),
        Step::Wait { .. } => panic!("the request waits"),
    };
    json(&reply.render())
}

fn call(runtime: &mut Runtime, method: &str, request: Value) -> Value {
    call_raw(runtime, method, request.to_string().as_bytes())
}

#[test]
fn go_wire_protocol_base64_yaml_pascalcase_and_explicit_termination() {
    let mut runtime = Runtime::default();
    let yaml = STANDARD.encode("credentials:\n  default:\n    max_queue: 0\n");
    let registered = call(
        &mut runtime,
        "plugin.register",
        json(&format!(
            r#"{{"schema_version": 6, "config_yaml": "{yaml}"}}"#
        )),
    );
    assert_eq!(registered["ok"], true);
    assert_eq!(
        registered["result"]["capabilities"]["request_lifecycle_plugin"],
        true
    );
    for id in ["a", "b"] {
        call(
            &mut runtime,
            "request.intercept_before",
            json(&format!(r#"{{"RequestID": "{id}", "Body": "aGk="}}"#)),
        );
    }
    let req = |id: &str| {
        json(&format!(
            r#"{{"RequestID": "{id}", "Metadata": {{"selected_auth_id": "channel"}}, "Body": "aGk="}}"#
        ))
    };
    assert_eq!(
        call(&mut runtime, "request.intercept_after", req("a"))["result"],
        json("{}")
    );
    let rejected = call(&mut runtime, "request.intercept_after", req("b"));
    assert_eq!(rejected["ok"], true);
    assert_eq!(rejected["result"]["Terminate"], true);
    assert_eq!(rejected["result"]["StatusCode"], 429);
    let body: Value = serde_json::from_slice(
        &STANDARD
            .decode(rejected["result"]["ResponseBody"].as_str().unwrap())
            .unwrap(),
    )
    .unwrap();
    assert_eq!(body["error"]["code"], "cpa_queue_full");
    call(
        &mut runtime,
        "request.complete",
        json(r#"{"RequestID": "a", "Outcome": "succeeded", "Stream": true}"#),
    );
    assert_eq!(runtime.counts().1, 0);
}

#[test]
fn invalid_config_and_malformed_identity_fail_explicitly() {
    for yaml in [
        "credentials:\n  default:\n    burst: 0",
        "api_keys:\n  key: {}",
        "credentails: {}",
        "credentials:\n  default:\n    queue_timeout_ms: 0",
    ] {
        assert!(parse(yaml.as_bytes()).is_err(), "{yaml}");
    }
    let mut runtime = Runtime::default();
    assert_eq!(
        call(
            &mut runtime,
            "plugin.register",
            json(r#"{"schema_version": 1}"#)
        )["ok"],
        false
    );
    call(
        &mut runtime,
        "request.intercept_before",
        json(r#"{"RequestID": "a"}"#),
    );
    let outer = call(
        &mut runtime,
        "request.intercept_after",
        json(r#"{"RequestID":"a"}"#),
    );
    assert_eq!(outer["result"], json("{}"));
    assert_eq!(runtime.counts(), (1, 0, 0));
    let rejected = call(
        &mut runtime,
        "request.intercept_after",
        json(r#"{"RequestID": "a", "Metadata":{"selected_auth_id":""}}"#),
    );
    assert_eq!(rejected["ok"], true);
    assert_eq!(rejected["result"]["StatusCode"], 503);
    let malformed = call_raw(&mut runtime, "request.intercept_after", b"{broken");
    assert_eq!(malformed["result"]["Terminate"], true);
}

#[test]
fn credential_overrides_use_exact_opaque_ids() {
    let cfg = parse(b"credentials:\n  default:\n    max_concurrency: 9\n  overrides:\n    channel-a:\n      max_concurrency: 1\n").unwrap();
    assert_eq!(cfg.policy("channel-a").max_concurrency, 1);
    assert_eq!(cfg.policy("channel-b").max_concurrency, 9);
    assert_eq!(cfg.policy("channel-a").requests_per_minute, 60);
}

#[test]
fn parent_cancellation_removes_nested_queue_and_rejects_late_callbacks() {
    let now = start();
    let mut cfg = Config::default();
    cfg.credentials.default.requests_per_minute = 0;
    cfg.credentials.default.max_concurrency = 1;
    let mut engine = Engine::new(cfg);
    engine.begin("holder").unwrap();
    assert_eq!(
        engine.start_attempt("holder", "channel", now),
        Decision::Admit
    );
    engine.begin("outer").unwrap();
    engine.begin_child("nested", "outer").unwrap();
    assert!(matches!(
        engine.start_attempt("nested", "channel", now),
        Decision::WaitUntil(_)
    ));
    engine.complete("outer");
    assert_eq!(engine.counts(), (1, 1, 0));
    assert_eq!(
        engine.poll("nested", now),
        Decision::Reject(Rejection::RequestEnded)
    );
    assert_eq!(
        engine.begin_child("late", "outer"),
        Err(Rejection::RequestEnded)
    );
    engine.complete("nested");
    assert_eq!(engine.counts(), (1, 1, 0));
}

#[test]
fn a_waiting_acquisition_wakes_on_completion_and_cancellation() {
    for cancel in [false, true] {
        let now = start();
        let mut runtime = Runtime::default();
        runtime.configure(unlimited_rate(), now).unwrap();
        runtime.begin("a").unwrap();
        assert_eq!(
            runtime.acquire("a", "one", now),
            Admission::Settled(Ok(()))
        );
        runtime.begin("b").unwrap();
        assert_eq!(
            runtime.acquire("b", "one", now),
            Admission::Wait(after(now, 30_000))
        );
        runtime.complete(if cancel { "b" } else { "a" });
        assert_eq!(
            runtime.resume("b", now),
            Admission::Settled(if cancel {
                Err(Rejection::RequestEnded)
            } else {
                Ok(())
            })
        );
        runtime.complete("a");
        runtime.complete("b");
        assert_eq!(runtime.counts(), (0, 0, 0));
    }
}

#[test]
fn a_waiting_acquisition_wakes_on_quiesce() {
    let now = start();
    let mut runtime = Runtime::default();
    runtime.configure(unlimited_rate(), now).unwrap();
    runtime.begin("a").unwrap();
    runtime.acquire("a", "one", now);
    runtime.begin("b").unwrap();
    runtime.acquire("b", "one", now);
    runtime.stop();
    assert_eq!(
        runtime.resume("b", now),
        Admission::Settled(Err(Rejection::Stopping))
    );
}

#[test]
fn budgets_refill_exactly_and_only_up_to_the_burst() {
    let now = start();
    let mut cfg = Config::default();
    cfg.credentials.default.requests_per_minute = 7;
    cfg.credentials.default.burst = 2;
    cfg.credentials.default.max_concurrency = 0;
    let mut engine = Engine::new(cfg);
    assert_eq!(attempt(&mut engine, "a", "one", now), Decision::Admit);
    assert_eq!(attempt(&mut engine, "b", "one", now), Decision::Admit);
    // A token takes 60 s / 7: 8 571 428 571.43 ns.
    assert_eq!(
        attempt(&mut engine, "c", "one", now),
        Decision::WaitUntil(Instant {
            nanos: now.nanos + 8_571_428_571
        })
    );
    // One unit short of a token: the next look is a nanosecond later.
    let early = Instant {
        nanos: now.nanos + 8_571_428_571,
    };
    assert_eq!(
        engine.poll("c", early),
        Decision::WaitUntil(Instant {
            nanos: early.nanos + 1
        })
    );
    assert_eq!(
        engine.poll(
            "c",
            Instant {
                nanos: early.nanos + 1
            }
        ),
        Decision::Admit
    );
    // After an hour two tokens are there, not 420.
    let later = after(now, 3_600_000);
    assert_eq!(attempt(&mut engine, "d", "one", later), Decision::Admit);
    assert_eq!(attempt(&mut engine, "e", "one", later), Decision::Admit);
    assert!(matches!(
        attempt(&mut engine, "f", "one", later),
        Decision::WaitUntil(_)
    ));
}

#[test]
fn a_clock_that_runs_backwards_refills_nothing() {
    let now = start();
    let mut engine = Engine::new(Config::default());
    attempt(&mut engine, "a", "one", now);
    engine.complete("a");
    let earlier = Instant { nanos: 1 };
    assert_eq!(
        attempt(&mut engine, "b", "one", earlier),
        Decision::WaitUntil(after(earlier, 1000))
    );
    assert_eq!(engine.poll("b", after(earlier, 1000)), Decision::Admit);
}

#[test]
fn a_refused_configuration_changes_nothing() {
    let now = start();
    let mut engine = Engine::new(unlimited_rate());
    attempt(&mut engine, "a", "one", now);
    attempt(&mut engine, "b", "one", now);
    let mut broken = Config::default();
    broken.credentials.default.max_concurrency = 100_001;
    assert_eq!(
        engine.reconfigure(broken, now),
        Err("max_concurrency and max_queue must not exceed 100000".to_string())
    );
    assert!(matches!(engine.poll("b", now), Decision::WaitUntil(_)));
    engine.stop();
    assert_eq!(
        engine.reconfigure(Config::default(), now),
        Err("plugin is stopping".to_string())
    );
}

#[test]
fn a_smaller_burst_cuts_the_budget_and_keeps_the_debt() {
    let now = start();
    let mut cfg = Config::default();
    cfg.credentials.default.burst = 3;
    cfg.credentials.default.max_concurrency = 0;
    let mut engine = Engine::new(cfg.clone());
    assert_eq!(attempt(&mut engine, "a", "one", now), Decision::Admit);
    cfg.credentials.default.burst = 1;
    engine.reconfigure(cfg, now).unwrap();
    assert_eq!(attempt(&mut engine, "b", "one", now), Decision::Admit);
    assert_eq!(
        attempt(&mut engine, "c", "one", now),
        Decision::WaitUntil(after(now, 1000))
    );
}

#[test]
fn whole_families_end_together() {
    let now = start();
    let mut engine = Engine::new(unlimited_rate());
    engine.begin("root").unwrap();
    engine.begin_child("left", "root").unwrap();
    engine.begin_child("right", "root").unwrap();
    engine.begin_child("leaf", "left").unwrap();
    engine.begin("other").unwrap();
    assert_eq!(engine.start_attempt("leaf", "one", now), Decision::Admit);
    assert!(matches!(
        engine.start_attempt("other", "one", now),
        Decision::WaitUntil(_)
    ));
    assert!(matches!(
        engine.start_attempt("right", "one", now),
        Decision::WaitUntil(_)
    ));
    assert_eq!(
        engine.begin_child("left", "root"),
        Err(Rejection::RequestEnded)
    );
    assert_eq!(
        engine.begin_child("self", "self"),
        Err(Rejection::RequestEnded)
    );
    engine.complete("left");
    assert_eq!(engine.counts(), (3, 0, 2));
    assert_eq!(engine.poll("other", now), Decision::Admit);
    engine.complete("root");
    assert_eq!(engine.counts(), (1, 1, 0));
    engine.complete("root");
    assert_eq!(engine.counts(), (1, 1, 0));
    assert!(engine.begin_child("late", "left").is_err());
}

#[test]
fn registering_twice_keeps_a_running_attempt() {
    let now = start();
    let mut engine = Engine::new(unlimited_rate());
    assert_eq!(attempt(&mut engine, "a", "one", now), Decision::Admit);
    assert_eq!(engine.begin("a"), Ok(()));
    assert_eq!(engine.counts(), (1, 1, 0));
    assert_eq!(engine.poll("a", now), Decision::Admit);
}

#[test]
fn full_and_idle_buckets_make_room() {
    let now = start();
    let mut cfg = Config {
        max_credentials: 2,
        ..Config::default()
    };
    cfg.credentials.default.max_concurrency = 1;
    let mut engine = Engine::new(cfg);
    attempt(&mut engine, "a", "one", now);
    attempt(&mut engine, "b", "two", now);
    engine.complete("b");
    // "one" still runs and "two" owes a token.
    assert_eq!(
        attempt(&mut engine, "c", "three", after(now, 999)),
        Decision::Reject(Rejection::Capacity)
    );
    // "two" is full again and makes room; "one" keeps its slot.
    assert_eq!(
        engine.start_attempt("c", "three", after(now, 1000)),
        Decision::Admit
    );
    assert!(matches!(
        attempt(&mut engine, "d", "one", after(now, 1000)),
        Decision::WaitUntil(_)
    ));
    assert_eq!(engine.counts(), (3, 2, 1));
}

#[test]
fn a_switched_off_configuration_admits_everything() {
    let now = start();
    let mut cfg = unlimited_rate();
    cfg.enabled = false;
    let mut engine = Engine::new(cfg);
    assert_eq!(attempt(&mut engine, "a", "one", now), Decision::Admit);
    assert_eq!(attempt(&mut engine, "b", "one", now), Decision::Admit);
    assert_eq!(engine.counts(), (2, 0, 0));
}

#[test]
fn limits_of_a_policy_are_checked() {
    let message = |change: fn(&mut Policy)| {
        let mut policy = Policy::default();
        change(&mut policy);
        policy.validate().unwrap_err()
    };
    assert!(Policy::default().validate().is_ok());
    let burst = "burst must be between 1 and 1000000";
    assert_eq!(message(|p| p.burst = 0), burst);
    assert_eq!(message(|p| p.burst = 1_000_001), burst);
    assert_eq!(
        message(|p| p.requests_per_minute = 60_000_001),
        "requests_per_minute exceeds 60000000"
    );
    let counts = "max_concurrency and max_queue must not exceed 100000";
    assert_eq!(message(|p| p.max_concurrency = 100_001), counts);
    assert_eq!(message(|p| p.max_queue = 100_001), counts);
    let timeout = "queue_timeout_ms must be between 1 and 300000";
    assert_eq!(message(|p| p.queue_timeout_ms = 0), timeout);
    assert_eq!(message(|p| p.queue_timeout_ms = 300_001), timeout);
}

#[test]
fn limits_of_a_configuration_are_checked() {
    let tracking = Err("tracking limits must be between 1 and 100000".to_string());
    for limit in [0, 100_001] {
        let config = Config {
            max_tracked_requests: limit,
            ..Config::default()
        };
        assert_eq!(config.validate(), tracking);
        let config = Config {
            max_credentials: limit,
            ..Config::default()
        };
        assert_eq!(config.validate(), tracking);
    }
    let with_overrides = |ids: &[&str]| {
        let mut overrides = Table::new();
        for id in ids {
            overrides.insert(id.to_string(), Policy::default());
        }
        let mut config = Config {
            max_credentials: 2,
            ..Config::default()
        };
        config.credentials.overrides = overrides;
        config.validate()
    };
    assert_eq!(with_overrides(&["a", "b"]), Ok(()));
    assert_eq!(
        with_overrides(&["a", "b", "c"]),
        Err("too many credential overrides".to_string())
    );
    let long = "x".repeat(1025);
    for id in ["", " a", "a\u{3000}", long.as_str()] {
        assert_eq!(
            with_overrides(&[id]),
            Err("invalid credential override identifier".to_string())
        );
    }
    assert_eq!(with_overrides(&[&"x".repeat(1024)]), Ok(()));
    assert_eq!(
        Config::parse(b"junk", None).map(|_| ()),
        Err("invalid policy YAML".to_string())
    );
    assert!(Config::parse(b"", None).is_ok());
}

#[test]
fn scope_keys_name_their_credential() {
    let key = ScopeKey::Credential("one".to_string());
    assert_eq!(key.credential(), "one");
    assert_eq!(key.clone(), key);
}

#[test]
fn errors_are_mapped_while_the_engine_runs() {
    let mut config = Config::default();
    config.error_mapping.enabled = true;
    config.error_mapping.rules.push(cpa_stg::error_mapping::ErrorRule {
        name: "busy".to_string(),
        matcher: cpa_stg::error_mapping::ErrorMatch {
            http_statuses: vec![503],
            ..cpa_stg::error_mapping::ErrorMatch::default()
        },
        retryable: cpa_stg::error_mapping::RetryableError {
            message: "again".to_string(),
            delay: None,
        },
    });
    let failure = cpa_stg::error_mapping::failure_from_message("boom");
    let mut runtime = Runtime::default();
    assert!(runtime.map_error(503, &failure).is_none());
    runtime.configure(config, start()).unwrap();
    assert_eq!(runtime.map_error(503, &failure).unwrap().message, "again");
    assert!(runtime.map_error(500, &failure).is_none());
    runtime.stop();
    assert!(runtime.map_error(503, &failure).is_none());
}
