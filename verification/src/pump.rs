//! One execution of the router: how it starts, what it passes on, how it ends.
use crate::encoding::{decode, decoded, encode, encoded};
use crate::error_mapping::{
    failed_record, failure_from_message, failure_of, is_failure, mapped, rewritten, sse,
    ErrorMapping, MappingView, RetryableView,
};
use crate::framing::{joined, lemma_joined_add};
use crate::host::{gateway_fault, Fault, FaultView};
use crate::json::{no_members, read_bytes, read_text, written, Json, Tree};
use crate::router::filled;
use crate::stream::{pushed, pushed_out, reframed, MapperView, SseMapper};
use vstd::prelude::*;
use vstd::utf8::encode_utf8;

verus! {

broadcast use vstd::string::group_string_axioms;

// ---------------------------------------------------------------------------
// Starting

/// The record that a mapped failure becomes.
pub open spec fn mapped_record(retryable: RetryableView, failure: Tree) -> Seq<u8> {
    encode_utf8(failed_record(written(rewritten(retryable, failure))))
}

/// A stream that consists of one record.
pub open spec fn single_record(record: Seq<u8>) -> Tree {
    no_members().with(
        "headers"@,
        no_members().with("Content-Type"@, Tree::Array(seq![Tree::Text("text/event-stream"@)])).with(
            "Cache-Control"@,
            Tree::Array(seq![Tree::Text("no-cache"@)]),
        ),
    ).with(
        "chunks"@,
        Tree::Array(seq![no_members().with("Payload"@, Tree::Text(encoded(record)))]),
    )
}

/// How an execution starts.
#[derive(Debug)]
pub enum Startup {
    /// A stream of the host, to be passed on, with the answer that announces it.
    Stream { nested: String, answer: Json },
    /// The answer: a failure that was mapped.
    Mapped(Json),
    Failed(Fault),
}

pub enum StartupView {
    Stream { nested: Seq<char>, answer: Tree },
    Mapped(Tree),
    Failed(FaultView),
}

impl View for Startup {
    type V = StartupView;

    open spec fn view(&self) -> StartupView {
        match self {
            Startup::Stream { nested, answer } => StartupView::Stream {
                nested: nested@,
                answer: answer@,
            },
            Startup::Mapped(answer) => StartupView::Mapped(answer@),
            Startup::Failed(fault) => StartupView::Failed(fault@),
        }
    }
}

/// What a failed call to the host leads to, given the failure that its message
/// stands for.
pub open spec fn failed_start(mapping: MappingView, fault: FaultView, failure: Tree) -> StartupView {
    match mapped(mapping, fault.status, failure) {
        Some(retryable) => StartupView::Mapped(single_record(mapped_record(retryable, failure))),
        None => StartupView::Failed(fault),
    }
}

/// How an execution starts, given what the host answered.
pub open spec fn started(mapping: MappingView, result: Result<Tree, FaultView>) -> StartupView {
    match result {
        Err(fault) => failed_start(
            mapping,
            fault,
            failure_of(read_text(fault.message), fault.message),
        ),
        Ok(upstream) => match filled(upstream.at("stream_id"@).text()) {
            Some(nested) => StartupView::Stream {
                nested,
                answer: no_members().with("headers"@, upstream.at("headers"@)),
            },
            None => StartupView::Failed(gateway_fault("Missing host model stream id"@)),
        },
    }
}

/// What a failed call to the host leads to, given the failure that its message
/// stands for.
pub fn fail_start(mapping: &ErrorMapping, fault: Fault, failure: Json) -> (r: Startup)
    ensures
        r@ == failed_start(mapping@, fault@, failure@),
{
    match mapping.map(fault.status, &failure) {
        Some(retryable) => {
            assert(is_failure(failure@));
            let record = sse(&retryable.rewrite(failure));
            let answer = Json::object().with(
                "headers",
                Json::object().with(
                    "Content-Type",
                    Json::single(Json::string("text/event-stream")),
                ).with("Cache-Control", Json::single(Json::string("no-cache"))),
            ).with(
                "chunks",
                Json::single(
                    Json::object().with("Payload", Json::Text(encode(record.as_slice()))),
                ),
            );
            Startup::Mapped(answer)
        },
        None => Startup::Failed(fault),
    }
}

/// How an execution starts, given what the host answered.
pub fn start(mapping: &ErrorMapping, result: Result<Json, Fault>) -> (r: Startup)
    ensures
        r@ == started(
            mapping@,
            match result {
                Ok(value) => Ok(value@),
                Err(fault) => Err(fault@),
            },
        ),
{
    match result {
        Err(fault) => {
            let failure = failure_from_message(fault.message.as_str());
            fail_start(mapping, fault, failure)
        },
        Ok(upstream) => {
            let nested = match upstream.text_at("stream_id") {
                Some(nested) if !nested.is_empty() => nested.to_string(),
                _ => {
                    return Startup::Failed(Fault::new("Missing host model stream id"));
                },
            };
            let headers = upstream.take("headers");
            Startup::Stream { nested, answer: Json::object().with("headers", headers) }
        },
    }
}

// ---------------------------------------------------------------------------
// Passing on

/// What the host handed over of a stream.
#[derive(Debug)]
pub enum Chunk {
    /// The host could not be asked.
    Lost(Fault),
    /// The stream failed, with a message and the failure that it stands for.
    Error { message: String, failure: Json },
    /// A piece of the stream, where there is one and where it can be decoded.
    Piece { payload: Option<Option<Vec<u8>>>, done: bool },
}

pub enum ChunkView {
    Lost(FaultView),
    Error { message: Seq<char>, failure: Tree },
    Piece { payload: Option<Option<Seq<u8>>>, done: bool },
}

impl View for Chunk {
    type V = ChunkView;

    open spec fn view(&self) -> ChunkView {
        match self {
            Chunk::Lost(fault) => ChunkView::Lost(fault@),
            Chunk::Error { message, failure } => ChunkView::Error {
                message: message@,
                failure: failure@,
            },
            Chunk::Piece { payload, done } => ChunkView::Piece {
                payload: match payload {
                    Some(Some(bytes)) => Some(Some(bytes@)),
                    Some(None) => Some(None),
                    None => None,
                },
                done: *done,
            },
        }
    }
}

/// What the host handed over, out of its answer.
pub open spec fn chunk_in(result: Result<Tree, FaultView>) -> ChunkView {
    match result {
        Err(fault) => ChunkView::Lost(fault),
        Ok(chunk) => match filled(chunk.at("error"@).text()) {
            Some(message) => ChunkView::Error {
                message,
                failure: failure_of(read_text(message), message),
            },
            None => ChunkView::Piece {
                payload: match chunk.at("payload"@).text() {
                    Some(text) => Some(decoded(text)),
                    None => None,
                },
                done: chunk.at("done"@) == Tree::Bool(true),
            },
        },
    }
}

/// What the host handed over, out of its answer.
pub fn read_chunk(result: Result<Json, Fault>) -> (r: Chunk)
    ensures
        r@ == chunk_in(
            match result {
                Ok(value) => Ok(value@),
                Err(fault) => Err(fault@),
            },
        ),
{
    let chunk = match result {
        Ok(chunk) => chunk,
        Err(fault) => {
            return Chunk::Lost(fault);
        },
    };
    match chunk.text_at("error") {
        Some(message) if !message.is_empty() => {
            return Chunk::Error {
                message: message.to_string(),
                failure: failure_from_message(message),
            };
        },
        _ => {},
    }
    let payload = match chunk.text_at("payload") {
        Some(text) => Some(decode(text)),
        None => None,
    };
    Chunk::Piece { payload, done: chunk.is_true_at("done") }
}

/// A stream on its way from the host to the client.
pub struct Pump {
    mapping: ErrorMapping,
    mapper: SseMapper,
}

pub struct PumpView {
    pub mapping: MappingView,
    pub mapper: MapperView,
}

impl View for Pump {
    type V = PumpView;

    closed spec fn view(&self) -> PumpView {
        PumpView { mapping: self.mapping@, mapper: self.mapper@ }
    }
}

/// What a chunk leads to.
#[derive(Debug)]
pub struct Progress {
    /// What goes to the client, in order.
    pub emissions: Vec<Vec<u8>>,
    /// How the stream ended, where it did.
    pub end: Option<Result<(), Fault>>,
}

pub struct ProgressView {
    pub emissions: Seq<Seq<u8>>,
    pub end: Option<Result<(), FaultView>>,
}

impl View for Progress {
    type V = ProgressView;

    open spec fn view(&self) -> ProgressView {
        ProgressView {
            emissions: self.emissions@.map_values(|bytes: Vec<u8>| bytes@),
            end: match self.end {
                Some(Ok(_)) => Some(Ok(())),
                Some(Err(fault)) => Some(Err(fault@)),
                None => None,
            },
        }
    }
}

/// What there is to emit: nothing where there are no bytes.
pub open spec fn emitted(bytes: Seq<u8>) -> Seq<Seq<u8>> {
    if bytes.len() == 0 {
        Seq::empty()
    } else {
        seq![bytes]
    }
}

/// A mapper that gave out what it held back.
pub open spec fn flushed(mapper: MapperView) -> MapperView {
    MapperView { pending: Seq::empty(), ..mapper }
}

/// What a chunk leads to. An error ends the stream: what was held back goes out
/// first, and the error after it, where a rule maps it. It carries no status, so no
/// rule that asks for one matches.
pub open spec fn advanced(p: PumpView, chunk: ChunkView) -> (PumpView, ProgressView) {
    match chunk {
        ChunkView::Lost(fault) => (
            p,
            ProgressView { emissions: Seq::empty(), end: Some(Err(fault)) },
        ),
        ChunkView::Error { message, failure } => {
            let held = emitted(p.mapper.pending);
            let progress = match mapped(p.mapping, 0, failure) {
                Some(retryable) => ProgressView {
                    emissions: held + emitted(mapped_record(retryable, failure)),
                    end: Some(Ok(())),
                },
                None => ProgressView {
                    emissions: held,
                    end: Some(Err(gateway_fault(message))),
                },
            };
            (PumpView { mapper: flushed(p.mapper), ..p }, progress)
        },
        ChunkView::Piece { payload: Some(None), .. } => (
            p,
            ProgressView {
                emissions: Seq::empty(),
                end: Some(Err(gateway_fault("Invalid host stream encoding"@))),
            },
        ),
        ChunkView::Piece { payload, done } => {
            let (mapper, out) = match payload {
                Some(Some(bytes)) => {
                    let record = reframed(bytes, read_bytes(bytes.skip(5)) is Some);
                    (pushed(p.mapper, record), emitted(pushed_out(p.mapper, record)))
                },
                _ => (p.mapper, Seq::empty()),
            };
            if done {
                (
                    PumpView { mapper: flushed(mapper), ..p },
                    ProgressView { emissions: out + emitted(mapper.pending), end: Some(Ok(())) },
                )
            } else {
                (PumpView { mapper, ..p }, ProgressView { emissions: out, end: None })
            }
        },
    }
}

fn emit(list: &mut Vec<Vec<u8>>, bytes: Vec<u8>)
    ensures
        final(list)@.map_values(|b: Vec<u8>| b@) == old(list)@.map_values(|b: Vec<u8>| b@)
            + emitted(bytes@),
{
    let ghost before = list@.map_values(|b: Vec<u8>| b@);
    if bytes.len() > 0 {
        list.push(bytes);
        assert(list@.map_values(|b: Vec<u8>| b@) =~= before + seq![bytes@]);
    } else {
        assert(before + Seq::empty() =~= before);
    }
}

impl Pump {
    /// A stream at its start, with the rules that hold for it to its end.
    pub fn new(mapping: ErrorMapping) -> (r: Pump)
        ensures
            r@ == (PumpView {
                mapping: mapping@,
                mapper: MapperView { mapping: mapping@, pending: Seq::empty(), bypass: false },
            }),
    {
        let mapper = SseMapper::new(mapping.clone());
        Pump { mapping, mapper }
    }

    /// Takes in what the host handed over.
    pub fn advance(&mut self, chunk: Chunk) -> (r: Progress)
        ensures
            advanced(old(self)@, chunk@) == (final(self)@, r@),
    {
        let mut emissions: Vec<Vec<u8>> = Vec::new();
        assert(emissions@.map_values(|b: Vec<u8>| b@) =~= Seq::empty());
        match chunk {
            Chunk::Lost(fault) => Progress { emissions, end: Some(Err(fault)) },
            Chunk::Error { message, failure } => {
                emit(&mut emissions, self.mapper.finish());
                assert(Seq::<Seq<u8>>::empty() + emitted(old(self)@.mapper.pending) =~= emitted(
                    old(self)@.mapper.pending,
                ));
                match self.mapping.map(0, &failure) {
                    Some(retryable) => {
                        assert(is_failure(failure@));
                        emit(&mut emissions, sse(&retryable.rewrite(failure)));
                        Progress { emissions, end: Some(Ok(())) }
                    },
                    None => Progress {
                        emissions,
                        end: Some(Err(Fault::new(message.as_str()))),
                    },
                }
            },
            Chunk::Piece { payload, done } => {
                match payload {
                    Some(Some(bytes)) => {
                        emit(&mut emissions, self.mapper.push_host_chunk(bytes.as_slice()));
                    },
                    Some(None) => {
                        return Progress {
                            emissions,
                            end: Some(Err(Fault::new("Invalid host stream encoding"))),
                        };
                    },
                    None => {},
                }
                if done {
                    emit(&mut emissions, self.mapper.finish());
                    Progress { emissions, end: Some(Ok(())) }
                } else {
                    Progress { emissions, end: None }
                }
            },
        }
    }
}

// ---------------------------------------------------------------------------
// What is asked of the host

/// A request about one stream.
pub open spec fn about_stream(id: Seq<char>) -> Tree {
    no_members().with("stream_id"@, Tree::Text(id))
}

/// A request about one stream: to read from it, or to close it.
pub fn stream_request(id: &str) -> (r: Json)
    ensures
        r@ == about_stream(id@),
{
    Json::object().with("stream_id", Json::string(id))
}

/// The request that sends bytes to a client, in base64.
pub fn emit_request(id: &str, bytes: &[u8]) -> (r: Json)
    ensures
        r@ == about_stream(id@).with("payload"@, Tree::Text(encoded(bytes@))),
{
    Json::object().with("stream_id", Json::string(id)).with("payload", Json::Text(encode(bytes)))
}

/// What a client is told when its stream ends: nothing where all went well, and the
/// same for every breakdown of the plugin itself.
pub open spec fn closing_message(end: Option<Result<(), FaultView>>) -> Seq<char> {
    match end {
        Some(Ok(_)) => ""@,
        Some(Err(fault)) => fault.message,
        None => "Error mapping worker failed"@,
    }
}

/// The request that ends a client's stream. `end` is how the stream ended; nothing
/// where the plugin broke down.
pub fn close_request(id: &str, end: Option<Result<(), Fault>>) -> (r: Json)
    ensures
        r@ == about_stream(id@).with(
            "error"@,
            Tree::Text(
                closing_message(
                    match end {
                        Some(Ok(_)) => Some(Ok(())),
                        Some(Err(fault)) => Some(Err(fault@)),
                        None => None,
                    },
                ),
            ),
        ),
{
    let message = match end {
        Some(Ok(())) => "".to_string(),
        Some(Err(fault)) => fault.message,
        None => "Error mapping worker failed".to_string(),
    };
    Json::object().with("stream_id", Json::string(id)).with("error", Json::Text(message))
}

// ---------------------------------------------------------------------------
// What holds of executions

/// A failure at the start that no rule matches keeps its status and its message.
pub proof fn law_unmatched_failures_pass(mapping: MappingView, fault: FaultView)
    requires
        mapped(
            mapping,
            fault.status,
            failure_of(read_text(fault.message), fault.message),
        ) is None,
    ensures
        started(mapping, Err(fault)) == StartupView::Failed(fault),
{
}

/// The rules of a stream stay the same from its start to its end.
pub proof fn law_rules_stay(p: PumpView, chunk: ChunkView)
    ensures
        advanced(p, chunk).0.mapping == p.mapping,
        advanced(p, chunk).0.mapper.mapping == p.mapper.mapping,
{
}

/// An error that ends a stream is mapped by its message also where the stream itself
/// is passed through unread.
pub proof fn law_final_errors_are_mapped(p: PumpView, message: Seq<char>, failure: Tree)
    requires
        mapped(p.mapping, 0, failure) is Some,
    ensures
        ({
            let retryable = mapped(p.mapping, 0, failure)->Some_0;
            let (_, progress) = advanced(p, ChunkView::Error { message, failure });
            &&& progress.end == Some(Ok::<(), FaultView>(()))
            &&& progress.emissions == emitted(p.mapper.pending) + emitted(
                mapped_record(retryable, failure),
            )
        }),
{
}

/// When a stream ends as it should, nothing is held back any more.
pub proof fn law_nothing_is_held_back(p: PumpView, chunk: ChunkView)
    requires
        advanced(p, chunk).1.end == Some(Ok::<(), FaultView>(())),
    ensures
        advanced(p, chunk).0.mapper.pending.len() == 0,
{
}

/// No empty piece is sent to a client.
pub proof fn law_emissions_are_not_empty(p: PumpView, chunk: ChunkView, i: int)
    requires
        0 <= i < advanced(p, chunk).1.emissions.len(),
    ensures
        advanced(p, chunk).1.emissions[i].len() > 0,
{
}

/// How an execution starts when the host opens a stream: that stream is passed on, and
/// the client is told its headers as they came. Without a stream it fails.
pub proof fn law_opened_streams_are_passed_on(mapping: MappingView, upstream: Tree, key: Seq<char>)
    ensures
        ({
            let id = upstream.at("stream_id"@);
            match started(mapping, Ok(upstream)) {
                StartupView::Stream { nested, answer } => {
                    &&& id == Tree::Text(nested)
                    &&& nested.len() > 0
                    &&& answer.find("headers"@) == Some(upstream.at("headers"@))
                    &&& answer.find(key) is Some ==> key == "headers"@
                },
                StartupView::Mapped(_) => false,
                StartupView::Failed(fault) => {
                    &&& !(id is Text) || id->Text_0.len() == 0
                    &&& fault.status == 502
                    &&& fault.message == "Missing host model stream id"@
                },
            }
        }),
{
}

/// How an execution starts when the host fails: a failure that the rules map, by the
/// status that the host gave, is answered as a stream of one record that tells it, as
/// server-sent events that are not to be cached; any other one stays the fault it is.
pub proof fn law_failed_starts_are_mapped(mapping: MappingView, fault: FaultView, failure: Tree)
    requires
        failure == failure_of(read_text(fault.message), fault.message),
    ensures
        match mapped(mapping, fault.status, failure) {
            None => started(mapping, Err(fault)) == StartupView::Failed(fault),
            Some(retryable) => {
                let step = started(mapping, Err(fault));
                let answer = step->Mapped_0;
                let headers = answer.at("headers"@);
                let chunks = answer.at("chunks"@);
                &&& step is Mapped
                &&& headers.at("Content-Type"@) == Tree::Array(
                    seq![Tree::Text("text/event-stream"@)],
                )
                &&& headers.at("Cache-Control"@) == Tree::Array(seq![Tree::Text("no-cache"@)])
                &&& chunks is Array
                &&& chunks->Array_0.len() == 1
                &&& chunks->Array_0[0].at("Payload"@) == Tree::Text(
                    encoded(
                        encode_utf8(
                            "event: response.failed\ndata: "@ + written(
                                rewritten(retryable, failure),
                            ) + "\n\n"@,
                        ),
                    ),
                )
            },
        },
{
    reveal_strlit("headers");
    reveal_strlit("chunks");
    reveal_strlit("Content-Type");
    reveal_strlit("Cache-Control");
    assert("headers"@.len() == 7 && "chunks"@.len() == 6);
    assert("Content-Type"@.len() == 12 && "Cache-Control"@.len() == 13);
}

/// What the host handed over: nothing where it could not be asked; an error where the
/// answer names one; else a piece, decoded where it is text, and whether it is the
/// last one.
pub proof fn law_chunks_are_read(result: Result<Tree, FaultView>)
    ensures
        ({
            let chunk = result->Ok_0;
            let error = chunk.at("error"@);
            let failed = error is Text && error->Text_0.len() > 0;
            match chunk_in(result) {
                ChunkView::Lost(fault) => result == Err::<Tree, FaultView>(fault),
                ChunkView::Error { message, failure } => {
                    &&& result is Ok
                    &&& failed
                    &&& message == error->Text_0
                    &&& failure == failure_of(read_text(message), message)
                },
                ChunkView::Piece { payload, done } => {
                    &&& result is Ok
                    &&& !failed
                    &&& done <==> chunk.at("done"@) == Tree::Bool(true)
                    &&& payload is None <==> !(chunk.at("payload"@) is Text)
                    &&& chunk.at("payload"@) is Text ==> payload == Some(
                        decoded(chunk.at("payload"@)->Text_0),
                    )
                },
            }
        }),
{
}

/// What a piece leads to: what its bytes, framed, let out of the mapper is sent, where
/// there is anything, and the stream goes on; the last one lets out all that was held
/// back, after that, and ends the stream well. A piece that is no base64 ends it.
pub proof fn law_pieces_are_sent(
    p: PumpView,
    payload: Option<Option<Seq<u8>>>,
    done: bool,
)
    ensures
        ({
            let (next, progress) = advanced(p, ChunkView::Piece { payload, done });
            let garbled = payload == Some(None::<Seq<u8>>);
            let bytes = payload->Some_0->Some_0;
            let record = reframed(bytes, read_bytes(bytes.skip(5)) is Some);
            let mapper = if payload is None {
                p.mapper
            } else {
                pushed(p.mapper, record)
            };
            let out = if payload is None {
                Seq::empty()
            } else {
                pushed_out(p.mapper, record)
            };
            &&& garbled ==> {
                &&& next == p
                &&& progress.emissions.len() == 0
                &&& progress.end is Some
                &&& progress.end->Some_0 is Err
                &&& progress.end->Some_0->Err_0.status == 502
                &&& progress.end->Some_0->Err_0.message == "Invalid host stream encoding"@
            }
            &&& !garbled ==> {
                &&& next.mapping == p.mapping
                &&& joined(progress.emissions) == if done {
                    out + mapper.pending
                } else {
                    out
                }
                &&& done ==> progress.end == Some(Ok::<(), FaultView>(()))
                &&& done ==> next.mapper.pending.len() == 0 && next.mapper.bypass == mapper.bypass
                &&& !done ==> progress.end is None && next.mapper == mapper
            }
        }),
{
    let (next, progress) = advanced(p, ChunkView::Piece { payload, done });
    if payload != Some(None::<Seq<u8>>) {
        let bytes = payload->Some_0->Some_0;
        let record = reframed(bytes, read_bytes(bytes.skip(5)) is Some);
        let mapper = if payload is None {
            p.mapper
        } else {
            pushed(p.mapper, record)
        };
        let out = if payload is None {
            Seq::empty()
        } else {
            pushed_out(p.mapper, record)
        };
        lemma_emitted(out);
        lemma_emitted(mapper.pending);
        lemma_joined_add(emitted(out), emitted(mapper.pending));
        if payload is None {
            assert(emitted(out) =~= Seq::empty());
        }
        assert(progress.emissions =~= if done {
            emitted(out) + emitted(mapper.pending)
        } else {
            emitted(out)
        });
    }
}

proof fn lemma_emitted(bytes: Seq<u8>)
    ensures
        joined(emitted(bytes)) == bytes,
{
    reveal_with_fuel(joined, 2);
    if bytes.len() > 0 {
        assert(seq![bytes].drop_last() =~= Seq::empty());
        assert(Seq::<u8>::empty() + bytes =~= bytes);
    } else {
        assert(bytes =~= Seq::empty());
    }
}

/// What an error that ends a stream leads to: what was held back is sent, and after it
/// the record of the failure where the rules map it without a status; the stream ends
/// well where they do, and with the message as a bad gateway where they do not. When
/// the host could not be asked, nothing is sent and the fault ends the stream.
pub proof fn law_errors_end_streams(
    p: PumpView,
    message: Seq<char>,
    failure: Tree,
    fault: FaultView,
)
    ensures
        ({
            let (next, progress) = advanced(p, ChunkView::Error { message, failure });
            let (_, lost) = advanced(p, ChunkView::Lost(fault));
            &&& next.mapper.pending.len() == 0
            &&& next.mapping == p.mapping
            &&& match mapped(p.mapping, 0, failure) {
                Some(retryable) => {
                    &&& progress.end == Some(Ok::<(), FaultView>(()))
                    &&& joined(progress.emissions) == p.mapper.pending + encode_utf8(
                        "event: response.failed\ndata: "@ + written(rewritten(retryable, failure))
                            + "\n\n"@,
                    )
                },
                None => {
                    &&& joined(progress.emissions) == p.mapper.pending
                    &&& progress.end is Some
                    &&& progress.end->Some_0 is Err
                    &&& progress.end->Some_0->Err_0.status == 502
                    &&& progress.end->Some_0->Err_0.message == message
                },
            }
            &&& advanced(p, ChunkView::Lost(fault)).0 == p
            &&& lost.emissions.len() == 0
            &&& lost.end == Some(Err::<(), FaultView>(fault))
        }),
{
    lemma_emitted(p.mapper.pending);
    if let Some(retryable) = mapped(p.mapping, 0, failure) {
        let record = mapped_record(retryable, failure);
        lemma_emitted(record);
        lemma_joined_add(emitted(p.mapper.pending), emitted(record));
    }
}

/// What a client is told at the end: nothing where all went well, the message of the
/// fault where not, and one and the same where the plugin broke down.
pub proof fn law_closing_messages(end: Option<Result<(), FaultView>>)
    ensures
        end == Some(Ok::<(), FaultView>(())) ==> closing_message(end).len() == 0,
        end matches Some(Err(fault)) ==> closing_message(end) == fault.message,
        end is None ==> closing_message(end) == "Error mapping worker failed"@,
{
    reveal_strlit("");
}

/// A request about a stream names it and nothing else.
pub proof fn law_streams_are_named(id: Seq<char>, key: Seq<char>)
    ensures
        about_stream(id).find("stream_id"@) == Some(Tree::Text(id)),
        about_stream(id).find(key) is Some ==> key == "stream_id"@,
{
}

} // verus!
