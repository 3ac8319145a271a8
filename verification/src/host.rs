//! Calls to the host: what is sent, and what is made of the answer.
use crate::json::{no_members, read_bytes, written, Json, Tree};
use vstd::prelude::*;
use vstd::utf8::encode_utf8;

verus! {

broadcast use vstd::string::group_string_axioms;

/// The longest answer that is read.
pub const MAX_ANSWER_BYTES: usize = 67_108_864;

/// Why an execution failed. Status 0 stands for an unknown one.
#[derive(Debug)]
pub struct Fault {
    pub status: u16,
    pub message: String,
}

pub struct FaultView {
    pub status: u16,
    pub message: Seq<char>,
}

impl View for Fault {
    type V = FaultView;

    open spec fn view(&self) -> FaultView {
        FaultView { status: self.status, message: self.message@ }
    }
}

/// A fault of the plugin's own: a bad gateway.
pub open spec fn gateway_fault(message: Seq<char>) -> FaultView {
    FaultView { status: 502, message }
}

/// The answer that tells the host of a fault.
pub open spec fn enveloped(fault: FaultView) -> Tree {
    no_members().with("ok"@, Tree::Bool(false)).with(
        "error"@,
        no_members().with("code"@, Tree::Text("cpa_execution_error"@)).with(
            "message"@,
            Tree::Text(fault.message),
        ).with(
            "http_status"@,
            Tree::Unsigned(
                if fault.status == 0 {
                    502
                } else {
                    fault.status as u64
                },
            ),
        ),
    )
}

impl Fault {
    /// A fault of the plugin's own.
    pub fn new(message: &str) -> (r: Fault)
        ensures
            r@ == gateway_fault(message@),
    {
        Fault { status: 502, message: message.to_string() }
    }

    /// The answer that tells the host of the fault.
    pub fn envelope(&self) -> (r: Json)
        ensures
            r@ == enveloped(self@),
    {
        let status: u64 = if self.status == 0 {
            502
        } else {
            self.status as u64
        };
        Json::object().with("ok", Json::Bool(false)).with(
            "error",
            Json::object().with("code", Json::string("cpa_execution_error")).with(
                "message",
                Json::string(self.message.as_str()),
            ).with("http_status", Json::Unsigned(status)),
        )
    }
}

/// The bytes that carry a request to the host.
pub fn request_bytes(request: &Json) -> (r: Vec<u8>)
    ensures
        r@ == encode_utf8(written(request@)),
{
    let text = request.render();
    let mut bytes: Vec<u8> = Vec::new();
    bytes.extend_from_slice(text.as_str().as_bytes());
    assert(bytes@ =~= encode_utf8(written(request@)));
    bytes
}

/// Whether an answer of the host is read at all: the call returned 0, and there is
/// an answer of bearable length.
pub fn readable(code: i32, present: bool, len: usize) -> (r: bool)
    ensures
        r == (code == 0 && present && len <= MAX_ANSWER_BYTES),
{
    code == 0 && present && len <= MAX_ANSWER_BYTES
}

/// The status that the host gives for a failure; 0 where it gives no error status.
pub open spec fn failure_status(error: Tree) -> u16 {
    match error.at("http_status"@).unsigned() {
        Some(status) => if 400 <= status <= 599 {
            status as u16
        } else {
            0
        },
        None => 0,
    }
}

/// The message that the host gives for a failure.
pub open spec fn failure_message(error: Tree) -> Seq<char> {
    match error.at("message"@).text() {
        Some(message) => message,
        None => "Host execution failed"@,
    }
}

/// What an answer of the host says: its result, or why the call failed.
pub open spec fn outcome_of(answer: Tree) -> Result<Tree, FaultView> {
    if answer.at("ok"@) == Tree::Bool(true) {
        Ok(answer.at("result"@))
    } else {
        let error = answer.at("error"@);
        Err(FaultView { status: failure_status(error), message: failure_message(error) })
    }
}

/// What the bytes of an answer say; nothing where they were not read.
pub open spec fn reply_of(bytes: Option<Seq<u8>>) -> Result<Tree, FaultView> {
    match bytes {
        None => Err(gateway_fault("Invalid host callback response"@)),
        Some(bytes) => match read_bytes(bytes) {
            None => Err(gateway_fault("Invalid host response JSON"@)),
            Some(answer) => outcome_of(answer),
        },
    }
}

/// A result says what a view says.
pub open spec fn says(r: Result<Json, Fault>, view: Result<Tree, FaultView>) -> bool {
    match r {
        Ok(json) => view == Ok::<Tree, FaultView>(json@),
        Err(fault) => view == Err::<Tree, FaultView>(fault@),
    }
}

/// What an answer says, once it is parsed.
pub fn outcome(answer: Json) -> (r: Result<Json, Fault>)
    ensures
        says(r, outcome_of(answer@)),
{
    if answer.is_true_at("ok") {
        return Ok(answer.take("result"));
    }
    let error = answer.take("error");
    let status: u16 = match error.unsigned_at("http_status") {
        Some(status) => {
            if 400 <= status && status <= 599 {
                status as u16
            } else {
                0
            }
        },
        None => 0,
    };
    let message = match error.text_at("message") {
        Some(message) => message.to_string(),
        None => "Host execution failed".to_string(),
    };
    Err(Fault { status, message })
}

/// What the bytes of an answer say; nothing where they were not read.
pub fn reply(bytes: Option<&[u8]>) -> (r: Result<Json, Fault>)
    ensures
        says(
            r,
            reply_of(
                match bytes {
                    Some(bytes) => Some(bytes@),
                    None => None,
                },
            ),
        ),
{
    match bytes {
        None => Err(Fault::new("Invalid host callback response")),
        Some(bytes) => match Json::parse_bytes(bytes) {
            None => Err(Fault::new("Invalid host response JSON")),
            Some(answer) => outcome(answer),
        },
    }
}

/// A fault of unknown status is told as a bad gateway, every other one as it is.
pub proof fn law_faults_keep_their_status(fault: FaultView)
    ensures
        ({
            let error = enveloped(fault).at("error"@);
            &&& enveloped(fault).at("ok"@) == Tree::Bool(false)
            &&& error.at("message"@) == Tree::Text(fault.message)
            &&& error.at("http_status"@) == Tree::Unsigned(
                if fault.status == 0 {
                    502
                } else {
                    fault.status as u64
                },
            )
        }),
{
    reveal_strlit("ok");
    reveal_strlit("error");
    reveal_strlit("code");
    reveal_strlit("message");
    reveal_strlit("http_status");
    assert("ok"@.len() == 2 && "error"@.len() == 5);
    assert("code"@.len() == 4 && "message"@.len() == 7 && "http_status"@.len() == 11);
}

/// A fault that the host reads back from the answer is the fault, where its status
/// is an error status.
pub proof fn law_faults_read_back(fault: FaultView)
    requires
        400 <= fault.status <= 599,
    ensures
        outcome_of(enveloped(fault)) == Err::<Tree, FaultView>(fault),
{
    law_faults_keep_their_status(fault);
}

/// What an answer of the host says: where it is a success, its result, whatever else
/// it holds; else a fault with the message and the status of its error. A status
/// outside 400 to 599 is not known, and a missing message is the same for all.
pub proof fn law_host_answers(answer: Tree)
    ensures
        ({
            let error = answer.at("error"@);
            let status = error.at("http_status"@);
            let known = status is Unsigned && 400 <= status->Unsigned_0 <= 599;
            match outcome_of(answer) {
                Ok(result) => answer.at("ok"@) == Tree::Bool(true) && result == answer.at(
                    "result"@,
                ),
                Err(fault) => {
                    &&& answer.at("ok"@) != Tree::Bool(true)
                    &&& known ==> fault.status == status->Unsigned_0
                    &&& !known ==> fault.status == 0
                    &&& error.at("message"@) is Text ==> fault.message == error.at(
                        "message"@,
                    )->Text_0
                    &&& !(error.at("message"@) is Text) ==> fault.message
                        == "Host execution failed"@
                },
            }
        }),
{
}

/// An answer that was not read, or is no JSON, is a bad gateway; any other one says
/// what it holds.
pub proof fn law_host_bytes(bytes: Option<Seq<u8>>)
    ensures
        bytes is None ==> (reply_of(bytes) matches Err(fault) && fault.status == 502
            && fault.message == "Invalid host callback response"@),
        bytes is Some && read_bytes(bytes->Some_0) is None ==> (reply_of(bytes) matches Err(fault)
            && fault.status == 502 && fault.message == "Invalid host response JSON"@),
        bytes is Some && read_bytes(bytes->Some_0) is Some ==> reply_of(bytes) == outcome_of(
            read_bytes(bytes->Some_0)->Some_0,
        ),
{
}

/// A fault is told under one code, whatever it is.
pub proof fn law_faults_have_one_code(fault: FaultView)
    ensures
        enveloped(fault).at("error"@).at("code"@) == Tree::Text("cpa_execution_error"@),
        forall|key: Seq<char>| #[trigger]
            enveloped(fault).find(key) is Some ==> key == "ok"@ || key == "error"@,
        forall|key: Seq<char>| #[trigger]
            enveloped(fault).at("error"@).find(key) is Some ==> key == "code"@ || key == "message"@
                || key == "http_status"@,
        gateway_fault(fault.message).status == 502,
        gateway_fault(fault.message).message == fault.message,
{
    reveal_strlit("ok");
    reveal_strlit("error");
    reveal_strlit("code");
    reveal_strlit("message");
    reveal_strlit("http_status");
    assert("ok"@.len() == 2 && "error"@.len() == 5);
    assert("code"@.len() == 4 && "message"@.len() == 7 && "http_status"@.len() == 11);
}

/// The longest answer that is read has 64 mebibytes.
pub proof fn law_answer_limit()
    ensures
        MAX_ANSWER_BYTES == 64 * 1024 * 1024,
{
}

/// A result says a value or a fault, as the view does.
pub proof fn law_results_say_what_they_hold(r: Result<Json, Fault>, view: Result<Tree, FaultView>)
    requires
        says(r, view),
    ensures
        r is Ok <==> view is Ok,
        r matches Ok(json) ==> view->Ok_0 == json@,
        r matches Err(fault) ==> view->Err_0.status == fault.status && view->Err_0.message
            == fault.message@,
{
}

} // verus!
