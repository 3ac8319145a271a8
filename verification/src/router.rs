//! The router plugin: it executes streaming Responses requests through the host and
//! maps their errors. Admission is the other plugin's work.
use crate::config::{
    config_error, config_of, default_config, law_default_is_valid, parsed, Config, ConfigView,
};
use crate::encoding::{bytes_of, decode_document, decoded};
use crate::error_mapping::{ErrorMapping, MappingView};
use crate::host::{enveloped, gateway_fault, law_faults_keep_their_status, Fault, FaultView};
use crate::json::{no_members, read_bytes, tree_of, Json, Tree};
use crate::protocol::{
    error, failure, field, field_entry, lemma_failure, lemma_field, lemma_metadata, lemma_success,
    metadata, ok, plugin_metadata, registers, shuts_down, success,
};
use crate::text::same;
use vstd::prelude::*;

verus! {

broadcast use vstd::string::group_string_axioms;

/// What the router depends on.
pub struct Router {
    config: Config,
    active: usize,
    stopping: bool,
}

pub struct RouterView {
    pub config: ConfigView,
    /// The executions under way.
    pub active: nat,
    pub stopping: bool,
}

impl View for Router {
    type V = RouterView;

    closed spec fn view(&self) -> RouterView {
        RouterView { config: self.config@, active: self.active as nat, stopping: self.stopping }
    }
}

/// An execution that may start.
#[derive(Debug)]
pub struct Start {
    /// The stream to which the answer goes.
    pub downstream: String,
    /// What the host is asked to execute.
    pub request: Json,
    /// The rules that hold for this stream, whatever is configured later.
    pub mapping: ErrorMapping,
}

pub struct StartView {
    pub downstream: Seq<char>,
    pub request: Tree,
    pub mapping: MappingView,
}

impl View for Start {
    type V = StartView;

    open spec fn view(&self) -> StartView {
        StartView {
            downstream: self.downstream@,
            request: self.request@,
            mapping: self.mapping@,
        }
    }
}

/// What a call comes to.
#[derive(Debug)]
pub enum RouterStep {
    /// The answer.
    Reply(Json),
    /// A configuration document, to be decoded and handed to [`Router::register`].
    Decode(Vec<u8>),
    /// An execution, to be started with the host.
    Execute(Start),
    /// The answer, once all streams are closed.
    Close(Json),
}

pub enum RouterStepView {
    Reply(Tree),
    Decode(Seq<u8>),
    Execute(StartView),
    Close(Tree),
}

impl View for RouterStep {
    type V = RouterStepView;

    open spec fn view(&self) -> RouterStepView {
        match self {
            RouterStep::Reply(reply) => RouterStepView::Reply(reply@),
            RouterStep::Decode(bytes) => RouterStepView::Decode(bytes@),
            RouterStep::Execute(start) => RouterStepView::Execute(start@),
            RouterStep::Close(reply) => RouterStepView::Close(reply@),
        }
    }
}

// ---------------------------------------------------------------------------
// Registration and routing

/// A request that the router is for: a streaming Responses request.
pub open spec fn is_responses_stream(request: Tree) -> bool {
    request.at("SourceFormat"@) == Tree::Text("openai-response"@) && request.at("Stream"@)
        == Tree::Bool(true)
}

fn responses_stream(request: &Json) -> (r: bool)
    ensures
        r == is_responses_stream(request@),
{
    request.is_text_at("SourceFormat", "openai-response") && request.is_true_at("Stream")
}

/// A request is routed here: the router is on, maps errors, and is not stopping.
pub open spec fn routes(s: RouterView, request: Tree) -> bool {
    s.config.enabled && s.config.error_mapping.enabled && !s.stopping && is_responses_stream(request)
}

/// The answer to a registration of the router.
pub open spec fn router_announcement() -> Tree {
    let formats = Tree::Array(seq![Tree::Text("openai-response"@)]);
    success(
        no_members().with("schema_version"@, Tree::Unsigned(2)).with(
            "metadata"@,
            plugin_metadata(
                "cpa-stg-router"@,
                seq![
                    field_entry(
                        "error_mapping"@,
                        "object"@,
                        "Ordered Codex Responses retryable error rules"@,
                    ),
                ],
            ),
        ).with(
            "capabilities"@,
            no_members().with("model_router"@, Tree::Bool(true)).with(
                "executor"@,
                Tree::Bool(true),
            ).with("executor_model_scope"@, Tree::Text("static"@)).with(
                "executor_input_formats"@,
                formats,
            ).with("executor_output_formats"@, formats),
        ),
    )
}

fn announcement() -> (r: Json)
    ensures
        r@ == router_announcement(),
{
    let mut fields: Vec<Json> = Vec::new();
    fields.push(
        field("error_mapping", "object", "Ordered Codex Responses retryable error rules"),
    );
    assert(fields@.map_values(|item: Json| item@) =~= seq![
        field_entry(
            "error_mapping"@,
            "object"@,
            "Ordered Codex Responses retryable error rules"@,
        ),
    ]);
    ok(
        Json::object().with("schema_version", Json::Unsigned(2)).with(
            "metadata",
            metadata("cpa-stg-router", fields),
        ).with(
            "capabilities",
            Json::object().with("model_router", Json::Bool(true)).with(
                "executor",
                Json::Bool(true),
            ).with("executor_model_scope", Json::string("static")).with(
                "executor_input_formats",
                Json::single(Json::string("openai-response")),
            ).with(
                "executor_output_formats",
                Json::single(Json::string("openai-response")),
            ),
        ),
    )
}

/// The configuration document of a registration, given what its base64 decodes to.
pub open spec fn router_document(request: Tree, bytes: Option<Seq<u8>>) -> Result<
    Seq<u8>,
    Seq<char>,
> {
    if request.at("schema_version"@).unsigned() is None || request.at(
        "schema_version"@,
    ).unsigned()->Some_0 < 2 {
        Err("CPA schema >= 2 required"@)
    } else {
        match bytes {
            Some(bytes) => Ok(bytes),
            None => Err("Invalid config encoding"@),
        }
    }
}

/// What the base64 of the configuration document of a registration decodes to; no
/// bytes where there is no document.
pub open spec fn document_bytes(request: Tree) -> Option<Seq<u8>> {
    match request.at("config_yaml"@).text() {
        Some(text) => bytes_of(text),
        None => Some(Seq::empty()),
    }
}

/// The configuration document of a registration, given what its base64 decodes to.
pub fn document(request: &Json, bytes: Option<Vec<u8>>) -> (r: Result<Vec<u8>, String>)
    ensures
        ({
            let view = match bytes {
                Some(bytes) => Some(bytes@),
                None => None,
            };
            match r {
                Ok(bytes) => router_document(request@, view) == Ok::<Seq<u8>, Seq<char>>(bytes@),
                Err(message) => router_document(request@, view) == Err::<Seq<u8>, Seq<char>>(
                    message@,
                ),
            }
        }),
{
    let schema: u64 = match request.unsigned_at("schema_version") {
        Some(schema) => schema,
        None => 0,
    };
    if schema < 2 {
        return Err("CPA schema >= 2 required".to_string());
    }
    match bytes {
        Some(bytes) => Ok(bytes),
        None => Err("Invalid config encoding".to_string()),
    }
}

/// A registration with its document decoded.
pub open spec fn router_registered(s: RouterView, yaml: Seq<u8>, config: Option<ConfigView>) -> (
    RouterView,
    Tree,
) {
    match parsed(yaml, config) {
        Err(message) => (s, failure(message)),
        Ok(config) => if s.stopping {
            (s, failure("Router is stopping"@))
        } else {
            (RouterView { config, ..s }, router_announcement())
        },
    }
}

// ---------------------------------------------------------------------------
// Executions

/// A text that is there and not empty.
pub open spec fn filled(text: Option<Seq<char>>) -> Option<Seq<char>> {
    match text {
        Some(text) => if text.len() > 0 {
            Some(text)
        } else {
            None
        },
        None => None,
    }
}

fn filled_at(value: &Json, key: &str) -> (r: Option<String>)
    ensures
        match r {
            Some(text) => filled(value@.at(key@).text()) == Some(text@),
            None => filled(value@.at(key@).text()) is None,
        },
{
    match value.text_at(key) {
        Some(text) => if text.is_empty() {
            None
        } else {
            Some(text.to_string())
        },
        None => None,
    }
}

/// What the host is asked to execute. The callback scope goes with it, so that the
/// host leaves out this router but not the admission plugin.
pub open spec fn host_request(request: Tree, callback: Seq<char>) -> Tree {
    no_members().with("host_callback_id"@, Tree::Text(callback)).with(
        "entry_protocol"@,
        Tree::Text("openai-response"@),
    ).with("exit_protocol"@, Tree::Text("openai-response"@)).with(
        "model"@,
        request.at("Model"@),
    ).with("stream"@, Tree::Bool(true)).with("body"@, request.at("Payload"@)).with(
        "headers"@,
        request.at("Headers"@),
    ).with("query"@, request.at("Query"@)).with("alt"@, request.at("Alt"@))
}

/// Whether an execution may start, and with what.
pub open spec fn starting(s: RouterView, request: Tree) -> Result<StartView, FaultView> {
    let downstream = filled(request.at("stream_id"@).text());
    let callback = filled(request.at("host_callback_id"@).text());
    if !is_responses_stream(request) {
        Err(gateway_fault("Router only accepts streaming Codex Responses"@))
    } else if s.stopping {
        Err(gateway_fault("Router is stopping"@))
    } else if s.active >= s.config.max_tracked_requests {
        Err(gateway_fault("Router execution capacity reached"@))
    } else if downstream is None {
        Err(gateway_fault("Missing output stream id"@))
    } else if callback is None {
        Err(gateway_fault("Missing callback scope"@))
    } else {
        Ok(
            StartView {
                downstream: downstream->Some_0,
                request: host_request(request, callback->Some_0),
                mapping: s.config.error_mapping,
            },
        )
    }
}

/// The state with an execution under way, where one starts.
pub open spec fn with_start(s: RouterView, result: Result<StartView, FaultView>) -> RouterView {
    match result {
        Ok(_) => RouterView { active: s.active + 1, ..s },
        Err(_) => s,
    }
}

/// The state with one execution less under way.
pub open spec fn released(s: RouterView) -> RouterView {
    RouterView {
        active: if s.active > 0 {
            (s.active - 1) as nat
        } else {
            0
        },
        ..s
    }
}

fn member(value: &Json, key: &str) -> (r: Json)
    ensures
        r@ == value@.at(key@),
{
    match value.get(key) {
        Some(member) => member.clone(),
        None => Json::Null,
    }
}

fn host_request_for(request: &Json, callback: String) -> (r: Json)
    ensures
        r@ == host_request(request@, callback@),
{
    Json::object().with("host_callback_id", Json::Text(callback)).with(
        "entry_protocol",
        Json::string("openai-response"),
    ).with("exit_protocol", Json::string("openai-response")).with(
        "model",
        member(request, "Model"),
    ).with("stream", Json::Bool(true)).with("body", member(request, "Payload")).with(
        "headers",
        member(request, "Headers"),
    ).with("query", member(request, "Query")).with("alt", member(request, "Alt"))
}

/// The answer to an execution.
pub open spec fn execution_answer(result: Result<Tree, FaultView>) -> Tree {
    match result {
        Ok(value) => success(value),
        Err(fault) => enveloped(fault),
    }
}

/// The answer to an execution.
pub fn answer_execution(result: Result<Json, Fault>) -> (r: Json)
    ensures
        r@ == execution_answer(
            match result {
                Ok(value) => Ok(value@),
                Err(fault) => Err(fault@),
            },
        ),
{
    match result {
        Ok(value) => ok(value),
        Err(fault) => fault.envelope(),
    }
}

/// What a call comes to, given the JSON that was read from it.
pub open spec fn routed(s: RouterView, method: Seq<char>, request: Option<Tree>) -> (
    RouterView,
    RouterStepView,
) {
    match request {
        None => (s, RouterStepView::Reply(failure("Invalid router payload"@))),
        Some(request) => if registers(method) {
            match router_document(request, document_bytes(request)) {
                Ok(yaml) => (s, RouterStepView::Decode(yaml)),
                Err(message) => (s, RouterStepView::Reply(failure(message))),
            }
        } else if method == "model.route"@ {
            (
                s,
                RouterStepView::Reply(
                    success(
                        no_members().with("Handled"@, Tree::Bool(routes(s, request))).with(
                            "TargetKind"@,
                            Tree::Text("self"@),
                        ),
                    ),
                ),
            )
        } else if method == "executor.identifier"@ {
            (
                s,
                RouterStepView::Reply(
                    success(no_members().with("identifier"@, Tree::Text("cpa-stg-router"@))),
                ),
            )
        } else if method == "executor.execute_stream"@ {
            let result = starting(s, request);
            (
                with_start(s, result),
                match result {
                    Ok(start) => RouterStepView::Execute(start),
                    Err(fault) => RouterStepView::Reply(enveloped(fault)),
                },
            )
        } else if shuts_down(method) {
            (
                RouterView { stopping: true, ..s },
                RouterStepView::Close(success(no_members())),
            )
        } else {
            (s, RouterStepView::Reply(failure("Unsupported router method"@)))
        },
    }
}

impl Default for Router {
    fn default() -> (r: Self)
        ensures
            r@ == (RouterView { config: default_config(), active: 0, stopping: false }),
    {
        Router { config: Config::default(), active: 0, stopping: false }
    }
}

impl Router {
    /// Answers a call of the host.
    pub fn handle(&mut self, method: &str, raw: &[u8]) -> (r: RouterStep)
        ensures
            routed(old(self)@, method@, read_bytes(raw@)) == (final(self)@, r@),
    {
        let request = Json::parse_bytes(raw);
        self.answer(method, request)
    }

    /// Answers a call of the host, given the JSON that was read from it.
    pub fn answer(&mut self, method: &str, request: Option<Json>) -> (r: RouterStep)
        ensures
            routed(old(self)@, method@, tree_of(request)) == (final(self)@, r@),
    {
        let request = match request {
            Some(request) => request,
            None => {
                return RouterStep::Reply(error("Invalid router payload"));
            },
        };
        if same(method, "plugin.register") || same(method, "plugin.reconfigure") {
            proof {
                reveal_strlit("");
            }
            let bytes = match request.text_at("config_yaml") {
                Some(text) => decode_document(text),
                None => decode_document(""),
            };
            match document(&request, bytes) {
                Ok(yaml) => RouterStep::Decode(yaml),
                Err(message) => RouterStep::Reply(error(message.as_str())),
            }
        } else if same(method, "model.route") {
            let handled = self.config.enabled && self.config.error_mapping.enabled && !self.stopping
                && responses_stream(&request);
            RouterStep::Reply(
                ok(
                    Json::object().with("Handled", Json::Bool(handled)).with(
                        "TargetKind",
                        Json::string("self"),
                    ),
                ),
            )
        } else if same(method, "executor.identifier") {
            RouterStep::Reply(
                ok(Json::object().with("identifier", Json::string("cpa-stg-router"))),
            )
        } else if same(method, "executor.execute_stream") {
            match self.execute(&request) {
                Ok(start) => RouterStep::Execute(start),
                Err(fault) => RouterStep::Reply(fault.envelope()),
            }
        } else if same(method, "plugin.quiesce") || same(method, "plugin.shutdown") {
            self.shutdown();
            RouterStep::Close(ok(Json::object()))
        } else {
            RouterStep::Reply(error("Unsupported router method"))
        }
    }

    /// Takes over the configuration of a registration. `decoded` is what the YAML
    /// decoder read from the document.
    pub fn register(&mut self, yaml: &[u8], decoded: Option<Config>) -> (r: Json)
        ensures
            router_registered(old(self)@, yaml@, config_of(decoded)) == (final(self)@, r@),
    {
        let config = match Config::parse(yaml, decoded) {
            Ok(config) => config,
            Err(message) => {
                return error(message.as_str());
            },
        };
        if self.stopping {
            return error("Router is stopping");
        }
        self.config = config;
        announcement()
    }

    /// Starts an execution, where it may start. It counts until it is released.
    pub fn execute(&mut self, request: &Json) -> (r: Result<Start, Fault>)
        ensures
            match r {
                Ok(start) => starting(old(self)@, request@) == Ok::<StartView, FaultView>(start@),
                Err(fault) => starting(old(self)@, request@) == Err::<StartView, FaultView>(fault@),
            },
            final(self)@ == with_start(old(self)@, starting(old(self)@, request@)),
    {
        if !responses_stream(request) {
            return Err(Fault::new("Router only accepts streaming Codex Responses"));
        }
        if self.stopping {
            return Err(Fault::new("Router is stopping"));
        }
        if self.active >= self.config.max_tracked_requests {
            return Err(Fault::new("Router execution capacity reached"));
        }
        let downstream = match filled_at(request, "stream_id") {
            Some(downstream) => downstream,
            None => {
                return Err(Fault::new("Missing output stream id"));
            },
        };
        let callback = match filled_at(request, "host_callback_id") {
            Some(callback) => callback,
            None => {
                return Err(Fault::new("Missing callback scope"));
            },
        };
        self.active = self.active + 1;
        Ok(
            Start {
                downstream,
                request: host_request_for(request, callback),
                mapping: self.config.error_mapping.clone(),
            },
        )
    }

    /// Releases an execution that is over.
    pub fn release(&mut self)
        ensures
            final(self)@ == released(old(self)@),
    {
        if self.active > 0 {
            self.active = self.active - 1;
        }
    }

    /// Whether a stream may still be opened, and if not, why.
    pub fn may_open(&self) -> (r: Result<(), Fault>)
        ensures
            match r {
                Ok(_) => !self@.stopping,
                Err(fault) => self@.stopping && fault@ == gateway_fault("Router is stopping"@),
            },
    {
        if self.stopping {
            Err(Fault::new("Router is stopping"))
        } else {
            Ok(())
        }
    }

    /// How a stream ends that is not to be read any further: well, as soon as the
    /// router is stopping. Until then it goes on.
    pub fn stream_end(&self) -> (r: Option<Result<(), Fault>>)
        ensures
            r == if self@.stopping {
                Some(Ok::<(), Fault>(()))
            } else {
                None
            },
    {
        if self.stopping {
            Some(Ok(()))
        } else {
            None
        }
    }

    /// Refuses new work from now on.
    pub fn shutdown(&mut self)
        ensures
            final(self)@ == (RouterView { stopping: true, ..old(self)@ }),
    {
        self.stopping = true;
    }
}

// ---------------------------------------------------------------------------
// What holds of the router

/// No more executions are under way than the configuration allows.
pub proof fn law_executions_are_bounded(s: RouterView, request: Tree)
    requires
        starting(s, request) is Ok,
    ensures
        with_start(s, starting(s, request)).active <= s.config.max_tracked_requests,
{
}

/// An execution that started and is released leaves the count as it was.
pub proof fn law_release_undoes_a_start(s: RouterView, request: Tree)
    requires
        starting(s, request) is Ok,
    ensures
        released(with_start(s, starting(s, request))) == s,
{
}

/// A registration without a document, or with an empty one, is accepted, unless the
/// router is stopping: the default configuration takes over.
pub proof fn law_router_needs_no_document(s: RouterView, request: Tree, config: Option<ConfigView>)
    requires
        request.at("schema_version"@) is Unsigned,
        request.at("schema_version"@)->Unsigned_0 >= 2,
        !(request.at("config_yaml"@) is Text) || request.at("config_yaml"@)->Text_0.len() == 0,
        !s.stopping,
    ensures
        router_document(request, document_bytes(request)) == Ok::<Seq<u8>, Seq<char>>(
            Seq::empty(),
        ),
        router_registered(s, Seq::empty(), config) == (
            RouterView { config: default_config(), ..s },
            router_announcement(),
        ),
{
    law_default_is_valid();
}

/// An execution carries the rules that are configured when it starts, and no later
/// registration changes them or the executions under way.
pub proof fn law_reloads_leave_executions(s: RouterView, request: Tree, yaml: Seq<u8>, config: Option<ConfigView>)
    requires
        starting(s, request) is Ok,
    ensures
        starting(s, request)->Ok_0.mapping == s.config.error_mapping,
        router_registered(s, yaml, config).0.active == s.active,
{
}

/// A stopped router routes nothing, starts nothing and takes no configuration.
pub proof fn law_stopped_router_refuses(s: RouterView, request: Tree, yaml: Seq<u8>, config: Option<ConfigView>)
    requires
        s.stopping,
    ensures
        !routes(s, request),
        starting(s, request) is Err,
        router_registered(s, yaml, config).0 == s,
{
}

/// Only streaming Responses requests are routed here, and every one that is routed
/// can start, but for the limit on executions and for the identifiers it needs.
pub proof fn law_routed_requests_start(s: RouterView, request: Tree)
    requires
        routes(s, request),
        s.active < s.config.max_tracked_requests,
        filled(request.at("stream_id"@).text()) is Some,
        filled(request.at("host_callback_id"@).text()) is Some,
    ensures
        is_responses_stream(request),
        starting(s, request) is Ok,
{
}

/// What the host is asked, member by member: the model, the payload, the headers, the
/// query and the format that the client sent, each as it came; the callback scope of
/// the call; the Responses protocol on both sides, streaming; and nothing else.
pub proof fn law_the_host_is_asked_what_the_client_asked(
    s: RouterView,
    request: Tree,
    key: Seq<char>,
)
    requires
        starting(s, request) is Ok,
    ensures
        ({
            let start = starting(s, request)->Ok_0;
            let asked = start.request;
            &&& asked is Object
            &&& asked.find("model"@) == Some(request.at("Model"@))
            &&& asked.find("body"@) == Some(request.at("Payload"@))
            &&& asked.find("headers"@) == Some(request.at("Headers"@))
            &&& asked.find("query"@) == Some(request.at("Query"@))
            &&& asked.find("alt"@) == Some(request.at("Alt"@))
            &&& asked.find("host_callback_id"@) == Some(request.at("host_callback_id"@))
            &&& asked.find("entry_protocol"@) == Some(Tree::Text("openai-response"@))
            &&& asked.find("exit_protocol"@) == Some(Tree::Text("openai-response"@))
            &&& asked.find("stream"@) == Some(Tree::Bool(true))
            &&& asked.find(key) is Some ==> key == "model"@ || key == "body"@ || key == "headers"@
                || key == "query"@ || key == "alt"@ || key == "host_callback_id"@ || key
                == "entry_protocol"@ || key == "exit_protocol"@ || key == "stream"@
            &&& Tree::Text(start.downstream) == request.at("stream_id"@)
            &&& start.mapping == s.config.error_mapping
        }),
{
    reveal_strlit("model");
    reveal_strlit("body");
    reveal_strlit("headers");
    reveal_strlit("query");
    reveal_strlit("alt");
    reveal_strlit("host_callback_id");
    reveal_strlit("entry_protocol");
    reveal_strlit("exit_protocol");
    reveal_strlit("stream");
    assert("model"@.len() == 5 && "body"@.len() == 4 && "headers"@.len() == 7 && "query"@.len() == 5
        && "alt"@.len() == 3 && "host_callback_id"@.len() == 16 && "entry_protocol"@.len() == 14
        && "exit_protocol"@.len() == 13 && "stream"@.len() == 6);
    assert("model"@[0] == 'm' && "query"@[0] == 'q');
}

/// When an execution starts, and why it does not: it is no streaming Responses
/// request, the router is stopping, as many executions are under way as the
/// configuration allows, there is no stream to answer to, or no callback scope. The
/// first of these that holds is told, as a bad gateway. Only a start counts.
pub proof fn law_executions_start_or_are_refused(s: RouterView, request: Tree)
    ensures
        ({
            let streaming = request.at("SourceFormat"@) == Tree::Text("openai-response"@)
                && request.at("Stream"@) == Tree::Bool(true);
            let full = s.active >= s.config.max_tracked_requests;
            let answered = request.at("stream_id"@) is Text && request.at("stream_id"@)->Text_0.len()
                > 0;
            let scoped = request.at("host_callback_id"@) is Text && request.at(
                "host_callback_id"@,
            )->Text_0.len() > 0;
            let result = starting(s, request);
            let (next, step) = routed(s, "executor.execute_stream"@, Some(request));
            &&& result is Ok <==> streaming && !s.stopping && !full && answered && scoped
            &&& result matches Err(fault) ==> fault.status == 502 && fault.message
                == if !streaming {
                "Router only accepts streaming Codex Responses"@
            } else if s.stopping {
                "Router is stopping"@
            } else if full {
                "Router execution capacity reached"@
            } else if !answered {
                "Missing output stream id"@
            } else {
                "Missing callback scope"@
            }
            &&& result matches Ok(start) ==> step == RouterStepView::Execute(start) && next.active
                == s.active + 1 && next.config == s.config && next.stopping == s.stopping
            &&& result is Err ==> next == s && step is Reply && step->Reply_0.at("ok"@)
                == Tree::Bool(false)
        }),
{
    lemma_router_methods();
    if let Err(fault) = starting(s, request) {
        law_faults_keep_their_status(fault);
    }
}

proof fn lemma_router_methods()
    ensures
        "executor.execute_stream"@ != "model.route"@,
        "executor.execute_stream"@ != "executor.identifier"@,
        "executor.identifier"@ != "model.route"@,
        !registers("executor.execute_stream"@),
        !registers("model.route"@),
        !registers("executor.identifier"@),
        !registers("plugin.quiesce"@),
        !registers("plugin.shutdown"@),
        "plugin.quiesce"@ != "model.route"@,
        "plugin.quiesce"@ != "executor.identifier"@,
        "plugin.quiesce"@ != "executor.execute_stream"@,
        "plugin.shutdown"@ != "model.route"@,
        "plugin.shutdown"@ != "executor.identifier"@,
        "plugin.shutdown"@ != "executor.execute_stream"@,
{
    reveal_strlit("executor.execute_stream");
    reveal_strlit("executor.identifier");
    reveal_strlit("model.route");
    reveal_strlit("plugin.register");
    reveal_strlit("plugin.reconfigure");
    reveal_strlit("plugin.quiesce");
    reveal_strlit("plugin.shutdown");
    assert("executor.execute_stream"@.len() == 23 && "executor.identifier"@.len() == 19
        && "model.route"@.len() == 11 && "plugin.register"@.len() == 15
        && "plugin.reconfigure"@.len() == 18 && "plugin.quiesce"@.len() == 14
        && "plugin.shutdown"@.len() == 15);
    assert("plugin.register"@[7] == 'r' && "plugin.shutdown"@[7] == 's');
}

/// What the router answers to the other calls. It takes the streaming Responses
/// requests, while it is on, maps errors and is not stopping, and none else; it names
/// itself; a shutdown stops it and is answered when all streams are closed; a call
/// that is no JSON or has another method fails. None of them but a shutdown changes
/// anything.
pub proof fn law_router_answers(s: RouterView, method: Seq<char>, request: Option<Tree>)
    ensures
        ({
            let (next, step) = routed(s, method, request);
            let taken = request matches Some(request) && s.config.enabled
                && s.config.error_mapping.enabled && !s.stopping && request.at("SourceFormat"@)
                == Tree::Text("openai-response"@) && request.at("Stream"@) == Tree::Bool(true);
            let known = method == "plugin.register"@ || method == "plugin.reconfigure"@ || method
                == "model.route"@ || method == "executor.identifier"@ || method
                == "executor.execute_stream"@ || method == "plugin.quiesce"@ || method
                == "plugin.shutdown"@;
            &&& request is None || !known ==> next == s && step is Reply && step->Reply_0.at("ok"@)
                == Tree::Bool(false) && step->Reply_0.at("error"@).at("message"@) == Tree::Text(
                if request is None {
                    "Invalid router payload"@
                } else {
                    "Unsupported router method"@
                },
            )
            &&& request is Some && method == "model.route"@ ==> next == s && step is Reply
                && step->Reply_0.at("ok"@) == Tree::Bool(true) && step->Reply_0.at("result"@).at(
                "Handled"@,
            ) == Tree::Bool(taken) && step->Reply_0.at("result"@).at("TargetKind"@) == Tree::Text(
                "self"@,
            )
            &&& request is Some && method == "executor.identifier"@ ==> next == s && step is Reply
                && step->Reply_0.at("ok"@) == Tree::Bool(true) && step->Reply_0.at("result"@).at(
                "identifier"@,
            ) == Tree::Text("cpa-stg-router"@)
            &&& request is Some && (method == "plugin.quiesce"@ || method == "plugin.shutdown"@)
                ==> next == (RouterView { stopping: true, ..s }) && step is Close
                && step->Close_0.at("ok"@) == Tree::Bool(true)
        }),
{
    lemma_router_methods();
    lemma_failure("Invalid router payload"@);
    lemma_failure("Unsupported router method"@);
    lemma_success(no_members());
    lemma_success(no_members().with("identifier"@, Tree::Text("cpa-stg-router"@)));
    if let Some(request) = request {
        let answer = no_members().with("Handled"@, Tree::Bool(routes(s, request))).with(
            "TargetKind"@,
            Tree::Text("self"@),
        );
        lemma_success(answer);
        reveal_strlit("Handled");
        reveal_strlit("TargetKind");
        assert("Handled"@.len() != "TargetKind"@.len());
    }
}

/// What a registration of the router comes to: a host of an older schema than the
/// second is refused, and so is a document that is no base64; any other document is
/// to be decoded as it is.
pub proof fn law_router_registrations(s: RouterView, method: Seq<char>, request: Tree)
    requires
        method == "plugin.register"@ || method == "plugin.reconfigure"@,
    ensures
        ({
            let (next, step) = routed(s, method, Some(request));
            let schema = request.at("schema_version"@);
            let document = request.at("config_yaml"@);
            let recent = schema is Unsigned && schema->Unsigned_0 >= 2;
            let empty = !(document is Text) || document->Text_0.len() == 0;
            &&& next == s
            &&& !recent ==> step is Reply && step->Reply_0.at("ok"@) == Tree::Bool(false)
                && step->Reply_0.at("error"@).at("message"@) == Tree::Text(
                "CPA schema >= 2 required"@,
            )
            &&& recent && empty ==> step == RouterStepView::Decode(Seq::empty())
            &&& recent && !empty ==> match decoded(document->Text_0) {
                Some(bytes) => step == RouterStepView::Decode(bytes),
                None => step is Reply && step->Reply_0.at("ok"@) == Tree::Bool(false)
                    && step->Reply_0.at("error"@).at("message"@) == Tree::Text(
                    "Invalid config encoding"@,
                ),
            }
        }),
{
    lemma_failure("CPA schema >= 2 required"@);
    lemma_failure("Invalid config encoding"@);
}

/// What a decoded registration of the router comes to: a document that is not empty
/// and was not read, or that is not valid, is refused, and so is every one once the
/// router is stopping; else its configuration takes over, and nothing else changes.
pub proof fn law_router_takes_valid_configurations(
    s: RouterView,
    yaml: Seq<u8>,
    read: Option<ConfigView>,
)
    ensures
        ({
            let (next, answer) = router_registered(s, yaml, read);
            let config = if yaml.len() == 0 {
                Some(default_config())
            } else {
                read
            };
            let valid = config is Some && config_error(config->Some_0) is None;
            &&& valid && !s.stopping ==> next == (RouterView { config: config->Some_0, ..s })
                && answer.at("ok"@) == Tree::Bool(true)
            &&& !valid || s.stopping ==> next == s && answer.at("ok"@) == Tree::Bool(false)
            &&& !valid ==> answer.at("error"@).at("message"@) == Tree::Text(
                if config is None {
                    "invalid policy YAML"@
                } else {
                    config_error(config->Some_0)->Some_0
                },
            )
            &&& valid && s.stopping ==> answer.at("error"@).at("message"@) == Tree::Text(
                "Router is stopping"@,
            )
        }),
{
    assert forall|message: Seq<char>|
        (#[trigger] failure(message)).at("ok"@) == Tree::Bool(false) && failure(message).at(
            "error"@,
        ).at("message"@) == Tree::Text(message) by {
        lemma_failure(message);
    }
    law_router_announces_itself();
}

/// What the router says of itself: the second schema, its name, and that it routes
/// and executes Responses requests.
pub proof fn law_router_announces_itself()
    ensures
        ({
            let answer = router_announcement();
            let result = answer.at("result"@);
            let able = result.at("capabilities"@);
            let formats = Tree::Array(seq![Tree::Text("openai-response"@)]);
            &&& answer.at("ok"@) == Tree::Bool(true)
            &&& result.at("schema_version"@) == Tree::Unsigned(2)
            &&& result.at("metadata"@).at("Name"@) == Tree::Text("cpa-stg-router"@)
            &&& result.at("metadata"@).at("Version"@) == Tree::Text("0.2.0"@)
            &&& result.at("metadata"@).at("ConfigFields"@) is Array
            &&& result.at("metadata"@).at("ConfigFields"@)->Array_0.len() == 1
            &&& result.at("metadata"@).at("ConfigFields"@)->Array_0[0].at("Name"@) == Tree::Text(
                "error_mapping"@,
            )
            &&& result.at("metadata"@).at("ConfigFields"@)->Array_0[0].at("Type"@) == Tree::Text(
                "object"@,
            )
            &&& result.at("metadata"@).at("ConfigFields"@)->Array_0[0].at("Description"@)
                == Tree::Text("Ordered Codex Responses retryable error rules"@)
            &&& result.at("metadata"@).at("Author"@) == Tree::Text("csbxd"@)
            &&& able.at("model_router"@) == Tree::Bool(true)
            &&& able.at("executor"@) == Tree::Bool(true)
            &&& able.at("executor_model_scope"@) == Tree::Text("static"@)
            &&& able.at("executor_input_formats"@) == formats
            &&& able.at("executor_output_formats"@) == formats
        }),
{
    let fields = seq![
        field_entry(
            "error_mapping"@,
            "object"@,
            "Ordered Codex Responses retryable error rules"@,
        ),
    ];
    lemma_metadata("cpa-stg-router"@, fields);
    lemma_field("error_mapping"@, "object"@, "Ordered Codex Responses retryable error rules"@);
    lemma_success(router_announcement().at("result"@));
    reveal_strlit("ok");
    reveal_strlit("result");
    reveal_strlit("schema_version");
    reveal_strlit("metadata");
    reveal_strlit("capabilities");
    reveal_strlit("model_router");
    reveal_strlit("executor");
    reveal_strlit("executor_model_scope");
    reveal_strlit("executor_input_formats");
    reveal_strlit("executor_output_formats");
    assert("ok"@.len() == 2 && "result"@.len() == 6);
    assert("schema_version"@.len() == 14 && "metadata"@.len() == 8 && "capabilities"@.len() == 12);
    assert("model_router"@.len() == 12 && "executor"@.len() == 8 && "executor_model_scope"@.len()
        == 20 && "executor_input_formats"@.len() == 22 && "executor_output_formats"@.len() == 23);
}

/// The answer to an execution is its result, or tells the host of the fault.
pub proof fn law_execution_answers(result: Result<Tree, FaultView>)
    ensures
        match result {
            Ok(value) => execution_answer(result).at("ok"@) == Tree::Bool(true) && execution_answer(
                result,
            ).at("result"@) == value,
            Err(fault) => execution_answer(result).at("ok"@) == Tree::Bool(false)
                && execution_answer(result).at("error"@).at("message"@) == Tree::Text(fault.message),
        },
{
    match result {
        Ok(value) => lemma_success(value),
        Err(fault) => law_faults_keep_their_status(fault),
    }
}

/// A release takes one execution off the count, which never falls below zero.
pub proof fn law_releases_count_down(s: RouterView)
    ensures
        s.active > 0 ==> released(s).active == s.active - 1,
        s.active == 0 ==> released(s).active == 0,
        released(s).config == s.config,
        released(s).stopping == s.stopping,
{
}

} // verus!
