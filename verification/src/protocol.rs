//! The admission plugin's side of the host protocol: what each call answers.
use crate::clock::Instant;
use crate::config::{
    config_error, config_of, default_config, law_default_is_valid, parsed, Config, ConfigView,
};
use crate::encoding::{bytes_of, decode_document, decoded, encode, encoded};
use crate::engine::{Decision, Rejection};
use crate::json::{
    finite_members, first_like, law_keys_are_found_in_any_case, like, no_members, plain,
    readable_depth, reads_back, written, Json, Tree,
};
use crate::runtime::{admission, Admission, Runtime};
use crate::state::{
    attempted, begun, begun_inside, completed, polled, reconfiguration, reconfigured, stopped,
    State,
};
use crate::text::{
    byte_count, byte_len, is_tight, lemma_precedes_itself, precedes, same, same_letters, tight,
    white_space,
};
use vstd::prelude::*;
use vstd::utf8::encode_utf8;

verus! {

broadcast use vstd::string::group_string_axioms;

/// The version of this plugin.
pub const VERSION: &'static str = "0.2.0";

/// The header by which a nested request names its outer one. It stays inside the host.
pub const PARENT_HEADER: &'static str = "X-Cpa-Stg-Parent";

/// A registration, as the host sends it.
#[derive(Debug)]
pub struct Registration {
    pub schema_version: u32,
    /// The configuration document, in base64.
    pub config_yaml: Option<String>,
}

/// A request that is intercepted or completed, as the host sends it.
#[derive(Debug)]
pub struct Request {
    pub id: String,
    pub metadata: Json,
    pub source_format: String,
    pub stream: bool,
    pub headers: Json,
}

pub struct RegistrationView {
    pub schema_version: u32,
    pub config_yaml: Option<Seq<char>>,
}

pub struct RequestView {
    pub id: Seq<char>,
    pub metadata: Tree,
    pub source_format: Seq<char>,
    pub stream: bool,
    pub headers: Tree,
}

impl View for Registration {
    type V = RegistrationView;

    open spec fn view(&self) -> RegistrationView {
        RegistrationView {
            schema_version: self.schema_version,
            config_yaml: match self.config_yaml {
                Some(text) => Some(text@),
                None => None,
            },
        }
    }
}

impl View for Request {
    type V = RequestView;

    open spec fn view(&self) -> RequestView {
        RequestView {
            id: self.id@,
            metadata: self.metadata@,
            source_format: self.source_format@,
            stream: self.stream,
            headers: self.headers@,
        }
    }
}

/// What the payload of a method is read as.
#[derive(Clone, Copy, Debug, PartialEq, Eq, Structural)]
pub enum Shape {
    Registration,
    Request,
    /// It is not read.
    Ignored,
}

/// A payload that was read; nothing where it could not be.
#[derive(Debug)]
pub enum Payload {
    Registration(Option<Registration>),
    Request(Option<Request>),
    Ignored,
}

impl Payload {
    /// The registration in a payload.
    pub open spec fn registration(self) -> Option<RegistrationView> {
        match self {
            Payload::Registration(Some(registration)) => Some(registration@),
            _ => None,
        }
    }

    /// The request in a payload.
    pub open spec fn request(self) -> Option<RequestView> {
        match self {
            Payload::Request(Some(request)) => Some(request@),
            _ => None,
        }
    }
}

/// What a call comes to.
#[derive(Debug)]
pub enum Step {
    /// The answer.
    Reply(Json),
    /// A configuration document, to be decoded and handed to [`register`].
    Decode(Vec<u8>),
    /// The request waits: to be resumed when something changed, at this time at
    /// the latest.
    Wait { id: String, until: Instant, clear: bool },
}

pub enum StepView {
    Reply(Tree),
    Decode(Seq<u8>),
    Wait { id: Seq<char>, until: Instant, clear: bool },
}

impl View for Step {
    type V = StepView;

    open spec fn view(&self) -> StepView {
        match self {
            Step::Reply(reply) => StepView::Reply(reply@),
            Step::Decode(bytes) => StepView::Decode(bytes@),
            Step::Wait { id, until, clear } => StepView::Wait {
                id: id@,
                until: *until,
                clear: *clear,
            },
        }
    }
}

// ---------------------------------------------------------------------------
// Replies

/// A call that succeeded.
pub open spec fn success(result: Tree) -> Tree {
    no_members().with("ok"@, Tree::Bool(true)).with("result"@, result)
}

/// A call that failed.
pub open spec fn failure(message: Seq<char>) -> Tree {
    no_members().with("ok"@, Tree::Bool(false)).with(
        "error"@,
        no_members().with("code"@, Tree::Text("cpa_stg_error"@)).with("message"@, Tree::Text(message)),
    )
}

/// What a client reads when its request is terminated.
pub open spec fn termination_body(status: u16, code: Seq<char>, message: Seq<char>) -> Tree {
    no_members().with(
        "error"@,
        no_members().with(
            "type"@,
            Tree::Text(
                if status == 429 {
                    "rate_limit_error"@
                } else {
                    "server_error"@
                },
            ),
        ).with("code"@, Tree::Text(code)).with("message"@, Tree::Text(message)),
    )
}

/// The headers that a client reads when its request is terminated: too many
/// requests come with a hint when to retry.
pub open spec fn termination_headers(status: u16) -> Tree {
    let headers = no_members().with(
        "Content-Type"@,
        Tree::Array(seq![Tree::Text("application/json"@)]),
    );
    if status == 429 {
        headers.with("Retry-After"@, Tree::Array(seq![Tree::Text("1"@)]))
    } else {
        headers
    }
}

/// A call that succeeded in terminating the request, with the body that the client
/// reads in base64. A host goes on with a request when a call fails, so refusals are
/// successes that say so.
pub open spec fn termination_with(status: u16, body: Seq<char>) -> Tree {
    success(
        no_members().with("Terminate"@, Tree::Bool(true)).with(
            "StatusCode"@,
            Tree::Unsigned(status as u64),
        ).with("ResponseHeaders"@, termination_headers(status)).with(
            "ResponseBody"@,
            Tree::Text(body),
        ),
    )
}

/// A call that succeeded in terminating the request with a code and a message.
pub open spec fn termination(status: u16, code: Seq<char>, message: Seq<char>) -> Tree {
    termination_with(
        status,
        encoded(encode_utf8(written(termination_body(status, code, message)))),
    )
}

/// How each refusal is told to the client.
pub open spec fn refusal(reason: Rejection) -> (u16, Seq<char>, Seq<char>) {
    match reason {
        Rejection::QueueFull => (
            429,
            "cpa_queue_full"@,
            "Credential waiting queue is full"@,
        ),
        Rejection::QueueTimeout => (
            429,
            "cpa_queue_timeout"@,
            "Credential queue wait timed out"@,
        ),
        Rejection::RequestEnded => (
            499,
            "cpa_request_ended"@,
            "Request already completed or was not registered"@,
        ),
        Rejection::DuplicateWait => (
            409,
            "cpa_duplicate_wait"@,
            "Request already has a pending admission"@,
        ),
        Rejection::Capacity => (503, "cpa_capacity"@, "Policy tracking capacity reached"@),
        Rejection::Stopping => (503, "cpa_stopping"@, "Policy plugin is stopping"@),
    }
}

pub open spec fn refused(reason: Rejection) -> Tree {
    let (status, code, message) = refusal(reason);
    termination(status, code, message)
}

/// The answer to a call that succeeded.
pub fn ok(result: Json) -> (r: Json)
    ensures
        r@ == success(result@),
{
    Json::object().with("ok", Json::Bool(true)).with("result", result)
}

/// The answer to a call that failed.
pub fn error(message: &str) -> (r: Json)
    ensures
        r@ == failure(message@),
{
    Json::object().with("ok", Json::Bool(false)).with(
        "error",
        Json::object().with("code", Json::string("cpa_stg_error")).with(
            "message",
            Json::string(message),
        ),
    )
}

/// The answer that terminates a request, around a body in base64.
pub fn terminate_with(status: u16, body: String) -> (r: Json)
    ensures
        r@ == termination_with(status, body@),
{
    let mut headers = Json::object().with(
        "Content-Type",
        Json::single(Json::string("application/json")),
    );
    if status == 429 {
        headers = headers.with("Retry-After", Json::single(Json::string("1")));
    }
    ok(
        Json::object().with("Terminate", Json::Bool(true)).with(
            "StatusCode",
            Json::Unsigned(status as u64),
        ).with("ResponseHeaders", headers).with("ResponseBody", Json::Text(body)),
    )
}

/// The error that a client reads when its request is terminated.
pub fn error_body(status: u16, code: &str, message: &str) -> (r: Json)
    ensures
        r@ == termination_body(status, code@, message@),
{
    let kind = if status == 429 {
        "rate_limit_error"
    } else {
        "server_error"
    };
    Json::object().with(
        "error",
        Json::object().with("type", Json::string(kind)).with("code", Json::string(code)).with(
            "message",
            Json::string(message),
        ),
    )
}

/// The answer that terminates a request with a code and a message. A client reads
/// the code and the message back from the body that it carries in base64.
pub fn terminate(status: u16, code: &str, message: &str) -> (r: Json)
    ensures
        r@ == termination(status, code@, message@),
        ({
            let body = termination_body(status, code@, message@);
            &&& decoded(encoded(encode_utf8(written(body)))) == Some(encode_utf8(written(body)))
            &&& reads_back(body)
        }),
{
    let body = error_body(status, code, message);
    proof {
        reveal_with_fuel(plain, 3);
        assert(plain(body@, readable_depth()));
    }
    let text = body.render();
    terminate_with(status, encode(text.as_str().as_bytes()))
}

/// The answer to a request that admission refused.
pub fn rejected(reason: Rejection) -> (r: Json)
    ensures
        r@ == refused(reason),
{
    match reason {
        Rejection::QueueFull => terminate(429, "cpa_queue_full", "Credential waiting queue is full"),
        Rejection::QueueTimeout => terminate(
            429,
            "cpa_queue_timeout",
            "Credential queue wait timed out",
        ),
        Rejection::RequestEnded => terminate(
            499,
            "cpa_request_ended",
            "Request already completed or was not registered",
        ),
        Rejection::DuplicateWait => terminate(
            409,
            "cpa_duplicate_wait",
            "Request already has a pending admission",
        ),
        Rejection::Capacity => terminate(503, "cpa_capacity", "Policy tracking capacity reached"),
        Rejection::Stopping => terminate(503, "cpa_stopping", "Policy plugin is stopping"),
    }
}

/// The description of a configuration field.
pub open spec fn field_entry(name: Seq<char>, kind: Seq<char>, description: Seq<char>) -> Tree {
    no_members().with("Name"@, Tree::Text(name)).with("Type"@, Tree::Text(kind)).with(
        "Description"@,
        Tree::Text(description),
    )
}

pub(crate) fn field(name: &str, kind: &str, description: &str) -> (r: Json)
    ensures
        r@ == field_entry(name@, kind@, description@),
{
    Json::object().with("Name", Json::string(name)).with("Type", Json::string(kind)).with(
        "Description",
        Json::string(description),
    )
}

/// What a plugin says of itself.
pub open spec fn plugin_metadata(name: Seq<char>, fields: Seq<Tree>) -> Tree {
    no_members().with("Name"@, Tree::Text(name)).with("Version"@, Tree::Text(VERSION@)).with(
        "Author"@,
        Tree::Text("csbxd"@),
    ).with("GitHubRepository"@, Tree::Text("https://github.com/csbxd/cpa-stg"@)).with(
        "ConfigFields"@,
        Tree::Array(fields),
    )
}

pub(crate) fn metadata(name: &str, fields: Vec<Json>) -> (r: Json)
    ensures
        r@ == plugin_metadata(name@, fields@.map_values(|item: Json| item@)),
{
    Json::object().with("Name", Json::string(name)).with("Version", Json::string(VERSION)).with(
        "Author",
        Json::string("csbxd"),
    ).with("GitHubRepository", Json::string("https://github.com/csbxd/cpa-stg")).with(
        "ConfigFields",
        Json::list(fields),
    )
}

/// The configuration fields that the admission plugin announces.
pub open spec fn announced_fields() -> Seq<Tree> {
    seq![
        field_entry("max_tracked_requests"@, "integer"@, "Maximum tracked model executions"@),
        field_entry("max_credentials"@, "integer"@, "Maximum credential buckets"@),
        field_entry("error_mapping"@, "object"@, "Configure error mapping on cpa-stg-router"@),
    ]
}

/// The answer to a registration.
pub open spec fn announcement(schema_version: u32) -> Tree {
    success(
        no_members().with("schema_version"@, Tree::Unsigned(schema_version as u64)).with(
            "metadata"@,
            plugin_metadata("cpa-stg"@, announced_fields()),
        ).with(
            "capabilities"@,
            no_members().with("request_interceptor"@, Tree::Bool(true)).with(
                "request_lifecycle_plugin"@,
                Tree::Bool(true),
            ),
        ),
    )
}

/// The answer to a registration: what this plugin is, and what it can do.
pub fn registration(schema_version: u32) -> (r: Json)
    ensures
        r@ == announcement(schema_version),
{
    let mut fields: Vec<Json> = Vec::new();
    fields.push(field("max_tracked_requests", "integer", "Maximum tracked model executions"));
    fields.push(field("max_credentials", "integer", "Maximum credential buckets"));
    fields.push(field("error_mapping", "object", "Configure error mapping on cpa-stg-router"));
    assert(fields@.map_values(|item: Json| item@) =~= announced_fields());
    ok(
        Json::object().with("schema_version", Json::Unsigned(schema_version as u64)).with(
            "metadata",
            metadata("cpa-stg", fields),
        ).with(
            "capabilities",
            Json::object().with("request_interceptor", Json::Bool(true)).with(
                "request_lifecycle_plugin",
                Json::Bool(true),
            ),
        ),
    )
}

// ---------------------------------------------------------------------------
// Requests

/// The identifier of a request is not empty and not too long.
pub open spec fn valid_id(id: Seq<char>) -> bool {
    id.len() > 0 && byte_len(id) <= 1024
}

/// The identifier of a credential is not empty, not too long and has no white
/// space at its ends.
pub open spec fn valid_credential(id: Seq<char>) -> bool {
    id.len() > 0 && byte_len(id) <= 1024 && tight(id)
}

/// What is wrong with an intercepted request.
pub open spec fn request_fault(request: Option<RequestView>) -> Option<Tree> {
    match request {
        Some(request) => if valid_id(request.id) {
            None
        } else {
            Some(
                termination(
                    400,
                    "cpa_invalid_request_id"@,
                    "A valid RequestID is required"@,
                ),
            )
        },
        None => Some(
            termination(400, "cpa_invalid_request"@, "Invalid request interception payload"@),
        ),
    }
}

/// The request of a payload, where it can be used; the answer where it cannot.
pub fn request(payload: Option<Request>) -> (r: Result<Request, Json>)
    ensures
        match (payload, r) {
            (Some(request), Ok(used)) => used == request && request_fault(Some(request@)) is None,
            (Some(request), Err(answer)) => request_fault(Some(request@)) == Some(answer@),
            (None, Ok(_)) => false,
            (None, Err(answer)) => request_fault(None) == Some(answer@),
        },
{
    match payload {
        Some(request) => {
            if request.id.as_str().is_empty() || byte_count(request.id.as_str()) > 1024 {
                return Err(
                    terminate(400, "cpa_invalid_request_id", "A valid RequestID is required"),
                );
            }
            Ok(request)
        },
        None => Err(
            terminate(400, "cpa_invalid_request", "Invalid request interception payload"),
        ),
    }
}

/// A streaming Responses request: one that can carry nested requests.
pub open spec fn streams_responses(request: RequestView) -> bool {
    request.source_format == "openai-response"@ && request.stream
}

/// The first value of the header that names the outer request.
pub open spec fn named_parent(headers: Tree) -> Option<Seq<char>> {
    match headers.key_like(PARENT_HEADER@) {
        Some(key) => match headers.at(key).first() {
            Some(value) => value.text(),
            None => None,
        },
        None => None,
    }
}

/// The outer request of a request: only the host's own callback can name one.
pub open spec fn parent_of(request: RequestView) -> Option<Seq<char>> {
    if streams_responses(request) && request.metadata.at("source"@) == Tree::Text(
        "plugin_host_model_callback"@,
    ) {
        named_parent(request.headers)
    } else {
        None
    }
}

fn parent(request: &Request) -> (r: Option<&str>)
    ensures
        match r {
            Some(parent) => parent_of(request@) == Some(parent@),
            None => parent_of(request@) is None,
        },
{
    if !(same(request.source_format.as_str(), "openai-response") && request.stream
        && request.metadata.is_text_at("source", "plugin_host_model_callback")) {
        return None;
    }
    match request.headers.key_like(PARENT_HEADER) {
        Some(key) => match request.headers.get(key) {
            Some(values) => match values.first() {
                Some(value) => value.text(),
                None => None,
            },
            None => None,
        },
        None => None,
    }
}

/// The answer to a request that registers.
pub open spec fn intercepted_before(s: State, request: RequestView) -> (State, Tree) {
    let (next, result) = match parent_of(request) {
        Some(parent) => begun_inside(s, request.id, parent),
        None => begun(s, request.id),
    };
    (
        next,
        match result {
            Ok(_) => success(
                if streams_responses(request) {
                    no_members().with(
                        "Headers"@,
                        no_members().with(
                            PARENT_HEADER@,
                            Tree::Array(seq![Tree::Text(request.id)]),
                        ),
                    )
                } else {
                    no_members()
                },
            ),
            Err(reason) => refused(reason),
        },
    )
}

/// Registers a request; a streaming one is told to name itself to what it nests.
fn intercept_before(runtime: &mut Runtime, request: Request) -> (r: Json)
    requires
        old(runtime).wf(),
    ensures
        final(runtime).wf(),
        intercepted_before(old(runtime)@, request@) == (final(runtime)@, r@),
{
    let result = match parent(&request) {
        Some(parent) => runtime.begin_child(request.id.as_str(), parent),
        None => runtime.begin(request.id.as_str()),
    };
    match result {
        Ok(()) => {
            if same(request.source_format.as_str(), "openai-response") && request.stream {
                ok(
                    Json::object().with(
                        "Headers",
                        Json::object().with(PARENT_HEADER, Json::single(Json::Text(request.id))),
                    ),
                )
            } else {
                ok(Json::object())
            }
        },
        Err(reason) => rejected(reason),
    }
}

/// The answer to an attempt that is decided. An admitted one drops the header that
/// names the outer request, where it carries one.
pub open spec fn decided(result: Result<(), Rejection>, clear: bool) -> Tree {
    match result {
        Ok(_) => success(
            if clear {
                no_members().with("ClearHeaders"@, Tree::Array(seq![Tree::Text(PARENT_HEADER@)]))
            } else {
                no_members()
            },
        ),
        Err(reason) => refused(reason),
    }
}

/// What an acquisition comes to.
pub open spec fn acquired(admission: Admission, id: Seq<char>, clear: bool) -> StepView {
    match admission {
        Admission::Settled(result) => StepView::Reply(decided(result, clear)),
        Admission::Wait(until) => StepView::Wait { id, until, clear },
    }
}

fn acquisition(admission: Admission, id: String, clear: bool) -> (r: Step)
    ensures
        r@ == acquired(admission, id@, clear),
{
    match admission {
        Admission::Settled(Ok(())) => {
            if clear {
                Step::Reply(
                    ok(
                        Json::object().with(
                            "ClearHeaders",
                            Json::single(Json::string(PARENT_HEADER)),
                        ),
                    ),
                )
            } else {
                Step::Reply(ok(Json::object()))
            }
        },
        Admission::Settled(Err(reason)) => Step::Reply(rejected(reason)),
        Admission::Wait(until) => Step::Wait { id, until, clear },
    }
}

/// What an attempt comes to. A route without a credential costs nothing.
pub open spec fn intercepted_after(s: State, request: RequestView, now: Instant) -> (
    State,
    StepView,
) {
    match request.metadata.find("selected_auth_id"@) {
        None => (s, StepView::Reply(success(no_members()))),
        Some(Tree::Text(credential)) if valid_credential(credential) => {
            let (next, decision) = attempted(s, request.id, credential, now);
            (
                next,
                acquired(
                    admission(decision),
                    request.id,
                    request.headers.key_like(PARENT_HEADER@) is Some,
                ),
            )
        },
        Some(_) => (
            s,
            StepView::Reply(
                termination(503, "cpa_invalid_credential"@, "Invalid selected_auth_id"@),
            ),
        ),
    }
}

/// Starts an attempt on the credential that the host selected.
fn intercept_after(runtime: &mut Runtime, request: Request, now: Instant) -> (r: Step)
    requires
        old(runtime).wf(),
        now.readable(),
    ensures
        final(runtime).wf(),
        intercepted_after(old(runtime)@, request@, now) == (final(runtime)@, r@),
{
    let selected = match request.metadata.get("selected_auth_id") {
        Some(selected) => selected,
        None => {
            return Step::Reply(ok(Json::object()));
        },
    };
    let credential = match selected.text() {
        Some(credential) => credential,
        None => {
            return Step::Reply(
                terminate(503, "cpa_invalid_credential", "Invalid selected_auth_id"),
            );
        },
    };
    if credential.is_empty() || byte_count(credential) > 1024 || !is_tight(credential) {
        return Step::Reply(terminate(503, "cpa_invalid_credential", "Invalid selected_auth_id"));
    }
    let admission = runtime.acquire(request.id.as_str(), credential, now);
    let clear = match request.headers.key_like(PARENT_HEADER) {
        Some(_) => true,
        None => false,
    };
    acquisition(admission, request.id, clear)
}

/// Looks again for a request that waits.
pub fn resume(runtime: &mut Runtime, id: String, clear: bool, now: Instant) -> (r: Step)
    requires
        old(runtime).wf(),
        now.readable(),
    ensures
        final(runtime).wf(),
        ({
            let (next, decision) = polled(old(runtime)@, id@, now);
            final(runtime)@ == next && r@ == acquired(admission(decision), id@, clear)
        }),
{
    let admission = runtime.resume(id.as_str(), now);
    acquisition(admission, id, clear)
}

// ---------------------------------------------------------------------------
// Registrations

/// The configuration document of a registration, given what its base64 decodes to.
pub open spec fn document_in(schema_version: u32, bytes: Option<Seq<u8>>) -> Result<
    Seq<u8>,
    Seq<char>,
> {
    if schema_version < 2 {
        Err("Host schema version 2 or newer is required"@)
    } else {
        match bytes {
            Some(bytes) => Ok(bytes),
            None => Err("Invalid base64 config_yaml"@),
        }
    }
}

/// The configuration document of a registration, or why there is none.
pub open spec fn document(registration: Option<RegistrationView>) -> Result<Seq<u8>, Seq<char>> {
    match registration {
        None => Err("Invalid registration payload"@),
        Some(registration) => document_in(
            registration.schema_version,
            match registration.config_yaml {
                Some(text) => bytes_of(text),
                None => Some(Seq::empty()),
            },
        ),
    }
}

/// The configuration document of a registration, given what its base64 decodes to.
pub fn document_from(schema_version: u32, bytes: Option<Vec<u8>>) -> (r: Result<Vec<u8>, String>)
    ensures
        ({
            let view = match bytes {
                Some(bytes) => Some(bytes@),
                None => None,
            };
            match r {
                Ok(bytes) => document_in(schema_version, view) == Ok::<Seq<u8>, Seq<char>>(bytes@),
                Err(message) => document_in(schema_version, view) == Err::<Seq<u8>, Seq<char>>(
                    message@,
                ),
            }
        }),
{
    if schema_version < 2 {
        return Err("Host schema version 2 or newer is required".to_string());
    }
    match bytes {
        Some(bytes) => Ok(bytes),
        None => Err("Invalid base64 config_yaml".to_string()),
    }
}

fn document_of(registration: Option<Registration>) -> (r: Result<Vec<u8>, String>)
    ensures
        ({
            let view = match registration {
                Some(registration) => Some(registration@),
                None => None,
            };
            match r {
                Ok(bytes) => document(view) == Ok::<Seq<u8>, Seq<char>>(bytes@),
                Err(message) => document(view) == Err::<Seq<u8>, Seq<char>>(message@),
            }
        }),
{
    match registration {
        None => Err("Invalid registration payload".to_string()),
        Some(registration) => {
            proof {
                reveal_strlit("");
            }
            let bytes = match &registration.config_yaml {
                Some(text) => decode_document(text.as_str()),
                None => decode_document(""),
            };
            document_from(registration.schema_version, bytes)
        },
    }
}

/// A registration with its document decoded: the configuration takes over, unless
/// it is refused. Error mapping belongs to the other plugin.
pub open spec fn registered(
    s: State,
    yaml: Seq<u8>,
    config: Option<ConfigView>,
    now: Instant,
) -> (State, Tree) {
    match parsed(yaml, config) {
        Err(message) => (s, failure(message)),
        Ok(config) => if config.error_mapping.enabled {
            (s, failure("configure error_mapping on cpa-stg-router, not cpa-stg"@))
        } else {
            match reconfiguration(s, config, now) {
                (next, Some(message)) => (next, failure(message)),
                (next, None) => (next, announcement(2)),
            }
        },
    }
}

/// Takes over the configuration of a registration. `decoded` is what the YAML
/// decoder read from the document.
pub fn register(runtime: &mut Runtime, yaml: &[u8], decoded: Option<Config>, now: Instant) -> (r:
    Json)
    requires
        old(runtime).wf(),
    ensures
        final(runtime).wf(),
        registered(old(runtime)@, yaml@, config_of(decoded), now) == (final(runtime)@, r@),
{
    let config = match Config::parse(yaml, decoded) {
        Ok(config) => config,
        Err(message) => {
            return error(message.as_str());
        },
    };
    if config.error_mapping.enabled {
        return error("configure error_mapping on cpa-stg-router, not cpa-stg");
    }
    match runtime.configure(config, now) {
        Ok(()) => registration(2),
        Err(message) => error(message.as_str()),
    }
}

// ---------------------------------------------------------------------------
// Calls

/// A method registers the plugin, or configures it anew.
pub open spec fn registers(method: Seq<char>) -> bool {
    method == "plugin.register"@ || method == "plugin.reconfigure"@
}

/// A method ends the plugin's work.
pub open spec fn shuts_down(method: Seq<char>) -> bool {
    method == "plugin.quiesce"@ || method == "plugin.shutdown"@
}

/// A method is about one request.
pub open spec fn concerns_request(method: Seq<char>) -> bool {
    method == "request.intercept_before"@ || method == "request.intercept_after"@ || method
        == "request.complete"@
}

/// What the payload of a method is read as.
pub fn shape(method: &str) -> (r: Shape)
    ensures
        r == if registers(method@) {
            Shape::Registration
        } else if concerns_request(method@) {
            Shape::Request
        } else {
            Shape::Ignored
        },
{
    if same(method, "plugin.register") || same(method, "plugin.reconfigure") {
        Shape::Registration
    } else if same(method, "request.intercept_before") || same(method, "request.intercept_after")
        || same(method, "request.complete") {
        Shape::Request
    } else {
        Shape::Ignored
    }
}

/// What a call comes to, and what it changes.
pub open spec fn handled(s: State, method: Seq<char>, payload: Payload, now: Instant) -> (
    State,
    StepView,
) {
    if registers(method) {
        match document(payload.registration()) {
            Ok(yaml) => (s, StepView::Decode(yaml)),
            Err(message) => (s, StepView::Reply(failure(message))),
        }
    } else if method == "request.intercept_before"@ {
        match request_fault(payload.request()) {
            Some(answer) => (s, StepView::Reply(answer)),
            None => {
                let (next, answer) = intercepted_before(s, payload.request()->Some_0);
                (next, StepView::Reply(answer))
            },
        }
    } else if method == "request.intercept_after"@ {
        match request_fault(payload.request()) {
            Some(answer) => (s, StepView::Reply(answer)),
            None => intercepted_after(s, payload.request()->Some_0, now),
        }
    } else if method == "request.complete"@ {
        match request_fault(payload.request()) {
            Some(_) => (s, StepView::Reply(failure("Invalid completion payload"@))),
            None => (
                completed(s, payload.request()->Some_0.id),
                StepView::Reply(success(no_members())),
            ),
        }
    } else if shuts_down(method) {
        (stopped(s), StepView::Reply(success(no_members())))
    } else {
        (s, StepView::Reply(failure("Unsupported plugin method"@)))
    }
}

/// Answers a call of the host. The payload is read as [`shape`] says.
pub fn handle(runtime: &mut Runtime, method: &str, payload: Payload, now: Instant) -> (r: Step)
    requires
        old(runtime).wf(),
        now.readable(),
    ensures
        final(runtime).wf(),
        handled(old(runtime)@, method@, payload, now) == (final(runtime)@, r@),
{
    if same(method, "plugin.register") || same(method, "plugin.reconfigure") {
        let registration = match payload {
            Payload::Registration(registration) => registration,
            _ => None,
        };
        return match document_of(registration) {
            Ok(yaml) => Step::Decode(yaml),
            Err(message) => Step::Reply(error(message.as_str())),
        };
    }
    let found = match payload {
        Payload::Request(found) => found,
        _ => None,
    };
    if same(method, "request.intercept_before") {
        match request(found) {
            Ok(request) => Step::Reply(intercept_before(runtime, request)),
            Err(answer) => Step::Reply(answer),
        }
    } else if same(method, "request.intercept_after") {
        match request(found) {
            Ok(request) => intercept_after(runtime, request, now),
            Err(answer) => Step::Reply(answer),
        }
    } else if same(method, "request.complete") {
        match request(found) {
            Ok(request) => {
                runtime.complete(request.id.as_str());
                Step::Reply(ok(Json::object()))
            },
            Err(_) => Step::Reply(error("Invalid completion payload")),
        }
    } else if same(method, "plugin.quiesce") || same(method, "plugin.shutdown") {
        runtime.stop();
        Step::Reply(ok(Json::object()))
    } else {
        Step::Reply(error("Unsupported plugin method"))
    }
}

// ---------------------------------------------------------------------------
// What holds of the answers

/// The members of a success.
pub proof fn lemma_success(result: Tree)
    ensures
        success(result).at("ok"@) == Tree::Bool(true),
        success(result).at("result"@) == result,
        forall|key: Seq<char>| #[trigger]
            success(result).find(key) is Some ==> key == "ok"@ || key == "result"@,
{
    reveal_strlit("ok");
    reveal_strlit("result");
    assert("ok"@.len() != "result"@.len());
}

/// The members of a termination.
proof fn lemma_termination(status: u16, code: Seq<char>, message: Seq<char>)
    ensures
        ({
            let result = termination(status, code, message).at("result"@);
            &&& termination(status, code, message).at("ok"@) == Tree::Bool(true)
            &&& result.at("Terminate"@) == Tree::Bool(true)
            &&& result.at("StatusCode"@) == Tree::Unsigned(status as u64)
            &&& result.at("ResponseHeaders"@) == termination_headers(status)
            &&& result.at("ResponseBody"@) == Tree::Text(
                encoded(encode_utf8(written(termination_body(status, code, message)))),
            )
        }),
{
    reveal_strlit("Terminate");
    reveal_strlit("StatusCode");
    reveal_strlit("ResponseHeaders");
    reveal_strlit("ResponseBody");
    assert("Terminate"@.len() == 9 && "StatusCode"@.len() == 10 && "ResponseHeaders"@.len() == 15
        && "ResponseBody"@.len() == 12);
    lemma_success(termination(status, code, message).at("result"@));
    lemma_success(
        no_members().with("Terminate"@, Tree::Bool(true)).with(
            "StatusCode"@,
            Tree::Unsigned(status as u64),
        ).with("ResponseHeaders"@, termination_headers(status)).with(
            "ResponseBody"@,
            Tree::Text(encoded(encode_utf8(written(termination_body(status, code, message))))),
        ),
    );
}

/// An interception never fails as a call, whatever it is given: what is refused is
/// refused by a success that terminates the request.
pub proof fn law_interception_never_fails(s: State, method: Seq<char>, payload: Payload, now: Instant)
    requires
        method == "request.intercept_before"@ || method == "request.intercept_after"@,
    ensures
        match handled(s, method, payload, now).1 {
            StepView::Reply(answer) => answer.at("ok"@) == Tree::Bool(true),
            StepView::Decode(_) => false,
            StepView::Wait { .. } => true,
        },
{
    lemma_method_names();
    lemma_termination(400, "cpa_invalid_request_id"@, "A valid RequestID is required"@);
    lemma_termination(400, "cpa_invalid_request"@, "Invalid request interception payload"@);
    lemma_termination(503, "cpa_invalid_credential"@, "Invalid selected_auth_id"@);
    assert forall|reason: Rejection| (#[trigger] refused(reason)).at("ok"@) == Tree::Bool(true) by {
        let (status, code, message) = refusal(reason);
        lemma_termination(status, code, message);
    }
    assert forall|result: Tree| (#[trigger] success(result)).at("ok"@) == Tree::Bool(true) by {
        lemma_success(result);
    }
}

/// The interceptions are no registrations.
proof fn lemma_method_names()
    ensures
        !registers("request.intercept_before"@),
        !registers("request.intercept_after"@),
        "request.intercept_after"@ != "request.intercept_before"@,
{
    reveal_strlit("plugin.register");
    reveal_strlit("plugin.reconfigure");
    reveal_strlit("request.intercept_before");
    reveal_strlit("request.intercept_after");
    assert("plugin.register"@.len() == 15 && "plugin.reconfigure"@.len() == 18);
    assert("request.intercept_before"@.len() == 24 && "request.intercept_after"@.len() == 23);
}

/// A look after a wait never fails as a call either.
pub proof fn law_resumption_never_fails(admission: Admission, id: Seq<char>, clear: bool)
    ensures
        match acquired(admission, id, clear) {
            StepView::Reply(answer) => answer.at("ok"@) == Tree::Bool(true),
            StepView::Decode(_) => false,
            StepView::Wait { .. } => true,
        },
{
    match admission {
        Admission::Settled(Ok(_)) => {
            lemma_success(no_members());
            lemma_success(
                no_members().with("ClearHeaders"@, Tree::Array(seq![Tree::Text(PARENT_HEADER@)])),
            );
        },
        Admission::Settled(Err(reason)) => {
            let (status, code, message) = refusal(reason);
            lemma_termination(status, code, message);
        },
        Admission::Wait(_) => {},
    }
}

/// Every refusal terminates the request with its own status. A full line and a
/// wait that took too long, and they alone, are too many requests, with a hint to
/// retry after a second.
pub proof fn law_refusals_are_explicit(reason: Rejection)
    ensures
        ({
            let result = refused(reason).at("result"@);
            let crowded = reason == Rejection::QueueFull || reason == Rejection::QueueTimeout;
            &&& refused(reason).at("ok"@) == Tree::Bool(true)
            &&& result.at("Terminate"@) == Tree::Bool(true)
            &&& result.at("StatusCode"@) == Tree::Unsigned(refusal(reason).0 as u64)
            &&& crowded <==> refusal(reason).0 == 429
            &&& crowded <==> result.at("ResponseHeaders"@).at("Retry-After"@) == Tree::Array(
                seq![Tree::Text("1"@)],
            )
            &&& reason == Rejection::Capacity ==> refusal(reason).0 == 503
        }),
{
    let (status, code, message) = refusal(reason);
    lemma_termination(status, code, message);
    reveal_strlit("Content-Type");
    reveal_strlit("Retry-After");
    assert("Content-Type"@.len() == 12 && "Retry-After"@.len() == 11);
}

/// Every refusal has a code of its own.
pub proof fn law_refusal_codes_differ(a: Rejection, b: Rejection)
    requires
        refusal(a).1 == refusal(b).1,
    ensures
        a == b,
{
    reveal_strlit("cpa_queue_full");
    reveal_strlit("cpa_queue_timeout");
    reveal_strlit("cpa_request_ended");
    reveal_strlit("cpa_duplicate_wait");
    reveal_strlit("cpa_capacity");
    reveal_strlit("cpa_stopping");
    assert("cpa_queue_full"@.len() == 14 && "cpa_queue_timeout"@.len() == 17
        && "cpa_request_ended"@.len() == 17 && "cpa_duplicate_wait"@.len() == 18
        && "cpa_capacity"@.len() == 12 && "cpa_stopping"@.len() == 12);
    assert("cpa_queue_timeout"@[4] == 'q' && "cpa_request_ended"@[4] == 'r');
    assert("cpa_capacity"@[4] == 'c' && "cpa_stopping"@[4] == 's');
}

/// A route on which the host selected no credential changes nothing.
pub proof fn law_no_credential_costs_nothing(s: State, request: RequestView, now: Instant)
    requires
        request.metadata.find("selected_auth_id"@) is None,
    ensures
        intercepted_after(s, request, now) == (s, StepView::Reply(success(no_members()))),
{
}

/// An attempt that carries the header of an outer request is told to drop it when
/// it is admitted, at once or after a wait: the header does not leave the host.
pub proof fn law_parent_header_is_dropped(s: State, request: RequestView, now: Instant)
    requires
        request.headers.key_like(PARENT_HEADER@) is Some,
        request.metadata.at("selected_auth_id"@) is Text,
        valid_credential(request.metadata.at("selected_auth_id"@)->Text_0),
    ensures
        ({
            let credential = request.metadata.at("selected_auth_id"@)->Text_0;
            let admission = admission(attempted(s, request.id, credential, now).1);
            match intercepted_after(s, request, now).1 {
                StepView::Reply(answer) => admission == Admission::Settled(Ok(())) ==> answer.at(
                    "result"@,
                ).at("ClearHeaders"@) == Tree::Array(seq![Tree::Text(PARENT_HEADER@)]),
                StepView::Decode(_) => false,
                StepView::Wait { clear, .. } => clear,
            }
        }),
{
    lemma_success(
        no_members().with("ClearHeaders"@, Tree::Array(seq![Tree::Text(PARENT_HEADER@)])),
    );
}

/// A registration without a document, or with an empty one, is accepted, unless the
/// plugin is stopping: the default configuration takes over.
pub proof fn law_registration_needs_no_document(
    s: State,
    registration: RegistrationView,
    config: Option<ConfigView>,
    now: Instant,
)
    requires
        registration.schema_version >= 2,
        registration.config_yaml is None || registration.config_yaml->Some_0.len() == 0,
        !s.stopping,
    ensures
        document(Some(registration)) == Ok::<Seq<u8>, Seq<char>>(Seq::empty()),
        registered(s, Seq::empty(), config, now) == (
            reconfigured(s, default_config(), now),
            announcement(2),
        ),
{
    law_default_is_valid();
}

/// A call that cannot be read changes nothing.
pub proof fn law_unreadable_calls_change_nothing(s: State, method: Seq<char>, payload: Payload, now: Instant)
    requires
        request_fault(payload.request()) is Some,
        !shuts_down(method),
    ensures
        handled(s, method, payload, now).0 == s,
{
}

/// A streaming request that is registered is told to send a header by which the
/// requests that it nests find it: one that carries the header, and that the host
/// itself makes, is nested in it.
pub proof fn law_nested_requests_find_their_outer_one(s: State, outer: RequestView, nested: RequestView)
    requires
        parent_of(outer) is None,
        streams_responses(outer),
        begun(s, outer.id).1 is Ok,
        streams_responses(nested),
        nested.metadata.at("source"@) == Tree::Text("plugin_host_model_callback"@),
        nested.headers == intercepted_before(s, outer).1.at("result"@).at("Headers"@),
    ensures
        parent_of(nested) == Some(outer.id),
{
    let map = Map::<Seq<char>, Tree>::empty().insert(
        PARENT_HEADER@,
        Tree::Array(seq![Tree::Text(outer.id)]),
    );
    lemma_success(no_members().with("Headers"@, Tree::Object(map)));
    assert(nested.headers == Tree::Object(map));
    lemma_precedes_itself(PARENT_HEADER@);
    assert(first_like(map, PARENT_HEADER@, PARENT_HEADER@));
    let key = like(map, PARENT_HEADER@)->Some_0;
    assert(first_like(map, PARENT_HEADER@, key));
    assert(key == PARENT_HEADER@);
}

/// The members of a failure.
pub proof fn lemma_failure(message: Seq<char>)
    ensures
        failure(message).at("ok"@) == Tree::Bool(false),
        failure(message).at("error"@).at("code"@) == Tree::Text("cpa_stg_error"@),
        failure(message).at("error"@).at("message"@) == Tree::Text(message),
        forall|key: Seq<char>| #[trigger]
            failure(message).find(key) is Some ==> key == "ok"@ || key == "error"@,
        forall|key: Seq<char>| #[trigger]
            failure(message).at("error"@).find(key) is Some ==> key == "code"@ || key
                == "message"@,
{
    reveal_strlit("ok");
    reveal_strlit("error");
    reveal_strlit("code");
    reveal_strlit("message");
    assert("ok"@.len() != "error"@.len() && "code"@.len() != "message"@.len());
}

/// The members of a field's description.
pub proof fn lemma_field(name: Seq<char>, kind: Seq<char>, description: Seq<char>)
    ensures
        field_entry(name, kind, description).at("Name"@) == Tree::Text(name),
        field_entry(name, kind, description).at("Type"@) == Tree::Text(kind),
        field_entry(name, kind, description).at("Description"@) == Tree::Text(description),
{
    reveal_strlit("Name");
    reveal_strlit("Type");
    reveal_strlit("Description");
    assert("Name"@.len() == 4 && "Type"@.len() == 4 && "Description"@.len() == 11);
    assert("Name"@[0] == 'N' && "Type"@[0] == 'T');
}

/// The members of what a plugin says of itself.
pub proof fn lemma_metadata(name: Seq<char>, fields: Seq<Tree>)
    ensures
        ({
            let about = plugin_metadata(name, fields);
            &&& about.at("Name"@) == Tree::Text(name)
            &&& about.at("Version"@) == Tree::Text("0.2.0"@)
            &&& about.at("Author"@) == Tree::Text("csbxd"@)
            &&& about.at("GitHubRepository"@) == Tree::Text("https://github.com/csbxd/cpa-stg"@)
            &&& about.at("ConfigFields"@) == Tree::Array(fields)
        }),
{
    reveal_strlit("Name");
    reveal_strlit("Version");
    reveal_strlit("Author");
    reveal_strlit("GitHubRepository");
    reveal_strlit("ConfigFields");
    assert("Name"@.len() == 4 && "Version"@.len() == 7 && "Author"@.len() == 6
        && "GitHubRepository"@.len() == 16 && "ConfigFields"@.len() == 12);
}

// ---------------------------------------------------------------------------
// What each call answers

/// What a termination tells: the call succeeded, the request ends with the status, the
/// client reads JSON with an error that has the code and the message, and too many
/// requests, and they alone, come with a hint to retry after a second and as a rate
/// limit error.
pub proof fn law_terminations_tell_why(
    status: u16,
    code: Seq<char>,
    message: Seq<char>,
    key: Seq<char>,
)
    ensures
        ({
            let answer = termination(status, code, message);
            let result = answer.at("result"@);
            let headers = result.at("ResponseHeaders"@);
            &&& answer.at("ok"@) == Tree::Bool(true)
            &&& result.at("Terminate"@) == Tree::Bool(true)
            &&& result.at("StatusCode"@) == Tree::Unsigned(status as u64)
            &&& headers.at("Content-Type"@) == Tree::Array(seq![Tree::Text("application/json"@)])
            &&& status == 429 ==> headers.at("Retry-After"@) == Tree::Array(seq![Tree::Text("1"@)])
            &&& status != 429 ==> headers.find("Retry-After"@) is None
            &&& headers.find(key) is Some ==> key == "Content-Type"@ || key == "Retry-After"@
            &&& result.find(key) is Some ==> key == "Terminate"@ || key == "StatusCode"@ || key
                == "ResponseHeaders"@ || key == "ResponseBody"@
            &&& exists|body: Tree|
                {
                    let error = body.at("error"@);
                    &&& result.at("ResponseBody"@) == Tree::Text(
                        encoded(encode_utf8(#[trigger] written(body))),
                    )
                    &&& body.find(key) is Some ==> key == "error"@
                    &&& error.at("type"@) == Tree::Text(
                        if status == 429 {
                            "rate_limit_error"@
                        } else {
                            "server_error"@
                        },
                    )
                    &&& error.at("code"@) == Tree::Text(code)
                    &&& error.at("message"@) == Tree::Text(message)
                    &&& error.find(key) is Some ==> key == "type"@ || key == "code"@ || key
                        == "message"@
                }
        }),
{
    lemma_termination(status, code, message);
    let body = termination_body(status, code, message);
    reveal_strlit("type");
    reveal_strlit("code");
    reveal_strlit("message");
    reveal_strlit("Content-Type");
    reveal_strlit("Retry-After");
    assert("type"@.len() == 4 && "code"@.len() == 4 && "message"@.len() == 7);
    assert("type"@[0] == 't' && "code"@[0] == 'c');
    assert("Content-Type"@.len() == 12 && "Retry-After"@.len() == 11);
    let error = body.at("error"@);
    assert(error.at("type"@) == Tree::Text(
        if status == 429 {
            "rate_limit_error"@
        } else {
            "server_error"@
        },
    ));
    assert(error.at("code"@) == Tree::Text(code));
    assert(error.at("message"@) == Tree::Text(message));
    assert(written(body) == written(body));
}

/// How each refusal is told.
pub proof fn law_refusals_have_their_words(reason: Rejection)
    ensures
        refused(reason) == match reason {
            Rejection::QueueFull => termination(
                429,
                "cpa_queue_full"@,
                "Credential waiting queue is full"@,
            ),
            Rejection::QueueTimeout => termination(
                429,
                "cpa_queue_timeout"@,
                "Credential queue wait timed out"@,
            ),
            Rejection::RequestEnded => termination(
                499,
                "cpa_request_ended"@,
                "Request already completed or was not registered"@,
            ),
            Rejection::DuplicateWait => termination(
                409,
                "cpa_duplicate_wait"@,
                "Request already has a pending admission"@,
            ),
            Rejection::Capacity => termination(
                503,
                "cpa_capacity"@,
                "Policy tracking capacity reached"@,
            ),
            Rejection::Stopping => termination(
                503,
                "cpa_stopping"@,
                "Policy plugin is stopping"@,
            ),
        },
{
}

/// A request is used where it could be read and its identifier is between 1 and 1024
/// bytes long; else it ends with status 400. A completion of such a request fails, and
/// nothing changes.
pub proof fn law_bad_requests_are_refused(s: State, method: Seq<char>, payload: Payload, now: Instant)
    requires
        method == "request.intercept_before"@ || method == "request.intercept_after"@ || method
            == "request.complete"@,
        payload.request() is None || payload.request()->Some_0.id.len() == 0 || encode_utf8(
            payload.request()->Some_0.id,
        ).len() > 1024,
    ensures
        handled(s, method, payload, now).0 == s,
        method == "request.complete"@ ==> handled(s, method, payload, now).1 == StepView::Reply(
            failure("Invalid completion payload"@),
        ),
        method != "request.complete"@ ==> handled(s, method, payload, now).1 == StepView::Reply(
            if payload.request() is None {
                termination(
                    400,
                    "cpa_invalid_request"@,
                    "Invalid request interception payload"@,
                )
            } else {
                termination(400, "cpa_invalid_request_id"@, "A valid RequestID is required"@)
            },
        ),
{
    lemma_calls();
}

/// Methods differ.
proof fn lemma_calls()
    ensures
        !registers("request.intercept_before"@),
        !registers("request.intercept_after"@),
        !registers("request.complete"@),
        !registers("plugin.quiesce"@),
        !registers("plugin.shutdown"@),
        "request.intercept_after"@ != "request.intercept_before"@,
        "request.complete"@ != "request.intercept_before"@,
        "request.complete"@ != "request.intercept_after"@,
        !concerns_request("plugin.quiesce"@),
        !concerns_request("plugin.shutdown"@),
        !shuts_down("request.complete"@),
        !shuts_down("request.intercept_before"@),
        !shuts_down("request.intercept_after"@),
{
    reveal_strlit("plugin.register");
    reveal_strlit("plugin.reconfigure");
    reveal_strlit("plugin.quiesce");
    reveal_strlit("plugin.shutdown");
    reveal_strlit("request.intercept_before");
    reveal_strlit("request.intercept_after");
    reveal_strlit("request.complete");
    assert("plugin.register"@.len() == 15 && "plugin.reconfigure"@.len() == 18
        && "plugin.quiesce"@.len() == 14 && "plugin.shutdown"@.len() == 15);
    assert("request.intercept_before"@.len() == 24 && "request.intercept_after"@.len() == 23
        && "request.complete"@.len() == 16);
    assert("plugin.register"@[7] == 'r' && "plugin.shutdown"@[7] == 's');
}

/// What a request that registers is answered: it registers, inside its outer request
/// where it has one, and is refused where the engine refuses it. A streaming
/// Responses request is told to send its own identifier in the header for nested
/// ones, every other one nothing.
pub proof fn law_registering_requests(s: State, payload: Payload, now: Instant)
    requires
        payload.request() is Some,
        payload.request()->Some_0.id.len() > 0,
        encode_utf8(payload.request()->Some_0.id).len() <= 1024,
    ensures
        ({
            let request = payload.request()->Some_0;
            let (next, step) = handled(s, "request.intercept_before"@, payload, now);
            let (after, result) = match parent_of(request) {
                Some(parent) => begun_inside(s, request.id, parent),
                None => begun(s, request.id),
            };
            let answer = step->Reply_0;
            let named = answer.at("result"@).at("Headers"@);
            &&& next == after
            &&& step is Reply
            &&& result matches Err(reason) ==> answer == refused(reason)
            &&& result is Ok ==> answer.at("ok"@) == Tree::Bool(true)
            &&& result is Ok ==> forall|key: Seq<char>| #[trigger]
                answer.at("result"@).find(key) is Some ==> key == "Headers"@
            &&& result is Ok ==> forall|key: Seq<char>| #[trigger]
                named.find(key) is Some ==> key == "X-Cpa-Stg-Parent"@
            &&& result is Ok && request.source_format == "openai-response"@ && request.stream
                ==> named is Object && named.at("X-Cpa-Stg-Parent"@) == Tree::Array(
                seq![Tree::Text(request.id)],
            )
            &&& result is Ok && !(request.source_format == "openai-response"@ && request.stream)
                ==> answer.at("result"@) == Tree::Object(Map::<Seq<char>, Tree>::empty())
        }),
{
    lemma_calls();
    let request = payload.request()->Some_0;
    lemma_success(no_members());
    lemma_success(
        no_members().with(
            "Headers"@,
            no_members().with(PARENT_HEADER@, Tree::Array(seq![Tree::Text(request.id)])),
        ),
    );
}

/// The outer request of a request: there is one only for a streaming Responses request
/// that the host itself makes, and then it is the first value of the one header that
/// is named so, in whatever case.
pub proof fn law_outer_requests_are_named(request: RequestView, header: Seq<char>, outer: Seq<char>)
    requires
        request.headers is Object,
        same_letters(header, "X-Cpa-Stg-Parent"@),
        request.headers.find(header) is Some,
        forall|other: Seq<char>| #[trigger]
            request.headers.find(other) is Some && other != header ==> !same_letters(
                other,
                "X-Cpa-Stg-Parent"@,
            ),
    ensures
        ({
            let values = request.headers.at(header);
            let own = request.source_format == "openai-response"@ && request.stream
                && request.metadata.at("source"@) == Tree::Text("plugin_host_model_callback"@);
            let first = if values is Array && values->Array_0.len() > 0 {
                values->Array_0[0]
            } else {
                Tree::Null
            };
            &&& !own ==> parent_of(request) is None
            &&& own && first is Text ==> parent_of(request) == Some(first->Text_0)
            &&& own && !(first is Text) ==> parent_of(request) is None
        }),
{
    let map = request.headers->Object_0;
    lemma_precedes_itself(header);
    assert forall|other: Seq<char>|
        map.dom().contains(other) && #[trigger] same_letters(other, PARENT_HEADER@) implies precedes(
        header,
        other,
    ) by {
        assert(request.headers.find(other) is Some);
    }
    assert(first_like(map, PARENT_HEADER@, header));
    let key = like(map, PARENT_HEADER@)->Some_0;
    assert(first_like(map, PARENT_HEADER@, key));
    assert(request.headers.find(key) is Some);
    assert(key == header);
}

/// Without the header there is no outer request, and neither is there one for a
/// request that is not streaming Responses or that the host did not make itself.
pub proof fn law_other_requests_have_no_outer_one(request: RequestView)
    requires
        request.source_format != "openai-response"@ || !request.stream || request.metadata.at(
            "source"@,
        ) != Tree::Text("plugin_host_model_callback"@) || (forall|key: Seq<char>| #[trigger]
            request.headers.find(key) is Some ==> !same_letters(key, "X-Cpa-Stg-Parent"@)),
    ensures
        parent_of(request) is None,
{
    if let Tree::Object(map) = request.headers {
        if let Some(key) = like(map, PARENT_HEADER@) {
            assert(first_like(map, PARENT_HEADER@, key));
            assert(request.headers.find(key) is Some);
        }
    }
}

/// What a request whose credential the host selected is answered. Without a selection
/// it passes and costs nothing. A selection that is no text, is empty, longer than
/// 1024 bytes or has white space at its ends ends the request with status 503. Else an
/// attempt on that credential starts, and the engine's decision is the answer.
pub proof fn law_selected_credentials(s: State, payload: Payload, now: Instant)
    requires
        payload.request() is Some,
        payload.request()->Some_0.id.len() > 0,
        encode_utf8(payload.request()->Some_0.id).len() <= 1024,
        finite_members(payload.request()->Some_0.headers),
    ensures
        ({
            let request = payload.request()->Some_0;
            let (next, step) = handled(s, "request.intercept_after"@, payload, now);
            let selected = request.metadata.find("selected_auth_id"@);
            let chosen = selected->Some_0;
            let name = chosen->Text_0;
            let usable = chosen is Text && 0 < name.len() && encode_utf8(name).len() <= 1024
                && !white_space(name[0]) && !white_space(name.last());
            let header = exists|key: Seq<char>| #[trigger]
                request.headers.find(key) is Some && same_letters(key, "X-Cpa-Stg-Parent"@);
            let (after, decision) = attempted(s, request.id, name, now);
            &&& selected is None ==> next == s && step is Reply && step->Reply_0.at("ok"@)
                == Tree::Bool(true) && step->Reply_0.at("result"@) == Tree::Object(
                Map::<Seq<char>, Tree>::empty(),
            )
            &&& selected is Some && !usable ==> next == s && step == StepView::Reply(
                termination(503, "cpa_invalid_credential"@, "Invalid selected_auth_id"@),
            )
            &&& selected is Some && usable ==> next == after
            &&& selected is Some && usable && decision is Reject ==> step == StepView::Reply(
                refused(decision->Reject_0),
            )
            &&& selected is Some && usable && decision is WaitUntil ==> step == (StepView::Wait {
                id: request.id,
                until: decision->WaitUntil_0,
                clear: header,
            })
            &&& selected is Some && usable && decision == Decision::Admit ==> step is Reply
                && step->Reply_0.at("ok"@) == Tree::Bool(true) && step->Reply_0.at("result"@).find(
                "ClearHeaders"@,
            ) == if header {
                Some(Tree::Array(seq![Tree::Text("X-Cpa-Stg-Parent"@)]))
            } else {
                None
            }
        }),
{
    lemma_calls();
    let request = payload.request()->Some_0;
    law_keys_are_found_in_any_case(request.headers, PARENT_HEADER@, PARENT_HEADER@);
    lemma_success(no_members());
    lemma_success(
        no_members().with("ClearHeaders"@, Tree::Array(seq![Tree::Text(PARENT_HEADER@)])),
    );
}

/// What a resumed wait is answered: the engine's decision, and on admission that the
/// header is dropped where the request carried one.
pub proof fn law_resumed_waits(decision: Decision, id: Seq<char>, clear: bool)
    ensures
        ({
            let step = acquired(admission(decision), id, clear);
            match decision {
                Decision::Admit => step is Reply && step->Reply_0.at("ok"@) == Tree::Bool(true)
                    && step->Reply_0.at("result"@).find("ClearHeaders"@) == if clear {
                    Some(Tree::Array(seq![Tree::Text("X-Cpa-Stg-Parent"@)]))
                } else {
                    None
                },
                Decision::WaitUntil(until) => step == (StepView::Wait { id, until, clear }),
                Decision::Reject(reason) => step == StepView::Reply(refused(reason)),
            }
        }),
{
    lemma_success(no_members());
    lemma_success(
        no_members().with("ClearHeaders"@, Tree::Array(seq![Tree::Text(PARENT_HEADER@)])),
    );
}

/// What the calls that end something do: a completion ends the request, and a quiesce
/// or a shutdown stops the engine. Every method that is not known fails and changes
/// nothing.
pub proof fn law_ends_and_unknown_calls(s: State, method: Seq<char>, payload: Payload, now: Instant)
    ensures
        ({
            let (next, step) = handled(s, method, payload, now);
            let named = payload.request() is Some && payload.request()->Some_0.id.len() > 0
                && encode_utf8(payload.request()->Some_0.id).len() <= 1024;
            let known = method == "plugin.register"@ || method == "plugin.reconfigure"@ || method
                == "request.intercept_before"@ || method == "request.intercept_after"@ || method
                == "request.complete"@ || method == "plugin.quiesce"@ || method
                == "plugin.shutdown"@;
            let done = StepView::Reply(success(no_members()));
            &&& method == "request.complete"@ && named ==> next == completed(
                s,
                payload.request()->Some_0.id,
            ) && step == done
            &&& method == "plugin.quiesce"@ || method == "plugin.shutdown"@ ==> next == (State {
                stopping: true,
                ..s
            }) && step == done
            &&& !known ==> next == s && step == StepView::Reply(
                failure("Unsupported plugin method"@),
            )
        }),
{
    lemma_calls();
}

/// What a registration comes to: one that could not be read fails, and so does one of
/// a host with an older schema than the second, and one whose document is no base64;
/// any other document is to be decoded as it is, an absent one as an empty one.
pub proof fn law_registrations(s: State, method: Seq<char>, payload: Payload, now: Instant)
    requires
        method == "plugin.register"@ || method == "plugin.reconfigure"@,
    ensures
        ({
            let (next, step) = handled(s, method, payload, now);
            let registration = payload.registration();
            let document = registration->Some_0.config_yaml;
            &&& next == s
            &&& registration is None ==> step == StepView::Reply(
                failure("Invalid registration payload"@),
            )
            &&& registration is Some && registration->Some_0.schema_version < 2 ==> step
                == StepView::Reply(failure("Host schema version 2 or newer is required"@))
            &&& registration is Some && registration->Some_0.schema_version >= 2 ==> {
                &&& document is None || document->Some_0.len() == 0 ==> step == StepView::Decode(
                    Seq::empty(),
                )
                &&& document is Some && document->Some_0.len() > 0 ==> match decoded(
                    document->Some_0,
                ) {
                    Some(bytes) => step == StepView::Decode(bytes),
                    None => step == StepView::Reply(failure("Invalid base64 config_yaml"@)),
                }
            }
        }),
{
}

/// What a decoded registration comes to: a document that is not empty and was not
/// read, or that is not valid, fails; so does one that asks for error mapping, which
/// is the other plugin's, and every one once the engine stops. Else the configuration
/// takes over, and the plugin announces itself.
pub proof fn law_registered_configurations(
    s: State,
    yaml: Seq<u8>,
    read: Option<ConfigView>,
    now: Instant,
)
    ensures
        ({
            let (next, answer) = registered(s, yaml, read, now);
            let config = if yaml.len() == 0 {
                Some(default_config())
            } else {
                read
            };
            let valid = config is Some && config_error(config->Some_0) is None;
            let maps = valid && config->Some_0.error_mapping.enabled;
            &&& config is None ==> answer == failure("invalid policy YAML"@)
            &&& config is Some && !valid ==> answer == failure(config_error(config->Some_0)->Some_0)
            &&& maps ==> answer == failure(
                "configure error_mapping on cpa-stg-router, not cpa-stg"@,
            )
            &&& valid && !maps && s.stopping ==> answer == failure("plugin is stopping"@)
            &&& !valid || maps || s.stopping ==> next == s
            &&& valid && !maps && !s.stopping ==> {
                &&& answer == announcement(2)
                &&& next == reconfiguration(s, config->Some_0, now).0
                &&& next.config == config->Some_0
            }
        }),
{
}

/// What the plugin says of itself: the schema version, its name, and that it
/// intercepts requests and follows them to their end.
pub proof fn law_the_plugin_announces_itself(schema_version: u32)
    ensures
        ({
            let answer = announcement(schema_version);
            let result = answer.at("result"@);
            let able = result.at("capabilities"@);
            let fields = result.at("metadata"@).at("ConfigFields"@);
            &&& answer.at("ok"@) == Tree::Bool(true)
            &&& result.at("schema_version"@) == Tree::Unsigned(schema_version as u64)
            &&& result.at("metadata"@).at("Name"@) == Tree::Text("cpa-stg"@)
            &&& result.at("metadata"@).at("Version"@) == Tree::Text("0.2.0"@)
            &&& fields is Array
            &&& fields->Array_0.len() == 3
            &&& fields->Array_0[0].at("Name"@) == Tree::Text("max_tracked_requests"@)
            &&& fields->Array_0[1].at("Name"@) == Tree::Text("max_credentials"@)
            &&& fields->Array_0[2].at("Name"@) == Tree::Text("error_mapping"@)
            &&& fields->Array_0[0].at("Type"@) == Tree::Text("integer"@)
            &&& fields->Array_0[1].at("Type"@) == Tree::Text("integer"@)
            &&& fields->Array_0[2].at("Type"@) == Tree::Text("object"@)
            &&& fields->Array_0[0].at("Description"@) == Tree::Text(
                "Maximum tracked model executions"@,
            )
            &&& fields->Array_0[1].at("Description"@) == Tree::Text("Maximum credential buckets"@)
            &&& fields->Array_0[2].at("Description"@) == Tree::Text(
                "Configure error mapping on cpa-stg-router"@,
            )
            &&& result.at("metadata"@).at("Author"@) == Tree::Text("csbxd"@)
            &&& result.at("metadata"@).at("GitHubRepository"@) == Tree::Text(
                "https://github.com/csbxd/cpa-stg"@,
            )
            &&& able.at("request_interceptor"@) == Tree::Bool(true)
            &&& able.at("request_lifecycle_plugin"@) == Tree::Bool(true)
        }),
{
    lemma_metadata("cpa-stg"@, announced_fields());
    lemma_field("max_tracked_requests"@, "integer"@, "Maximum tracked model executions"@);
    lemma_field("max_credentials"@, "integer"@, "Maximum credential buckets"@);
    lemma_field("error_mapping"@, "object"@, "Configure error mapping on cpa-stg-router"@);
    reveal_strlit("ok");
    reveal_strlit("result");
    reveal_strlit("schema_version");
    reveal_strlit("metadata");
    reveal_strlit("capabilities");
    reveal_strlit("request_interceptor");
    reveal_strlit("request_lifecycle_plugin");
    assert("ok"@.len() == 2 && "result"@.len() == 6);
    assert("schema_version"@.len() == 14 && "metadata"@.len() == 8 && "capabilities"@.len() == 12);
    assert("request_interceptor"@.len() == 19 && "request_lifecycle_plugin"@.len() == 24);
}

} // verus!
