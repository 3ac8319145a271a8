//! Decisions at the native boundary, before a call is looked into.
use crate::json::{no_members, Json, Tree};
use crate::protocol::{terminate, termination};
use vstd::prelude::*;

verus! {

broadcast use vstd::string::group_string_axioms;

/// The version of the native interface.
pub const ABI_VERSION: u32 = 1;

/// The longest payload that is taken.
pub const MAX_REQUEST_BYTES: usize = 67_108_864;

/// A method intercepts a request.
pub open spec fn intercepts(method: Seq<char>) -> bool {
    "request.intercept_"@.is_prefix_of(method)
}

/// Whether a method intercepts a request.
pub fn is_interception(method: &str) -> (r: bool)
    ensures
        r == intercepts(method@),
{
    crate::text::starts_with(method, "request.intercept_")
}

/// Whether a payload can be read: it is not too long, and there where it is not empty.
pub fn payload_fits(present: bool, len: usize) -> (r: bool)
    ensures
        r == (len <= MAX_REQUEST_BYTES && (present || len == 0)),
{
    len <= MAX_REQUEST_BYTES && (present || len == 0)
}

/// The answer to a payload that cannot be read. An interception is answered by a
/// termination; any other call fails, as an executor that succeeds without chunks
/// would open a stream.
pub open spec fn payload_refusal(method: Seq<char>) -> Tree {
    let message = "Plugin payload exceeds the 64 MiB limit or is invalid"@;
    if intercepts(method) {
        termination(413, "cpa_payload_limit"@, message)
    } else {
        no_members().with("ok"@, Tree::Bool(false)).with(
            "error"@,
            no_members().with("code"@, Tree::Text("cpa_payload_limit"@)).with(
                "message"@,
                Tree::Text(message),
            ).with("http_status"@, Tree::Unsigned(413)),
        )
    }
}

/// The answer to a payload that cannot be read.
pub fn refuse_payload(method: &str) -> (r: Json)
    ensures
        r@ == payload_refusal(method@),
{
    if is_interception(method) {
        return terminate(
            413,
            "cpa_payload_limit",
            "Plugin payload exceeds the 64 MiB limit or is invalid",
        );
    }
    Json::object().with("ok", Json::Bool(false)).with(
        "error",
        Json::object().with("code", Json::string("cpa_payload_limit")).with(
            "message",
            Json::string("Plugin payload exceeds the 64 MiB limit or is invalid"),
        ).with("http_status", Json::Unsigned(413)),
    )
}

/// The answer to a call that broke down.
pub open spec fn breakdown(method: Seq<char>) -> Tree {
    if intercepts(method) {
        termination(
            503,
            "cpa_internal_error"@,
            "Policy plugin stopped after an internal failure"@,
        )
    } else {
        no_members().with("ok"@, Tree::Bool(false)).with(
            "error"@,
            no_members().with("code"@, Tree::Text("cpa_internal_error"@)).with(
                "message"@,
                Tree::Text("Policy plugin stopped"@),
            ),
        )
    }
}

/// The answer to a call that broke down.
pub fn report_breakdown(method: &str) -> (r: Json)
    ensures
        r@ == breakdown(method@),
{
    if is_interception(method) {
        return terminate(
            503,
            "cpa_internal_error",
            "Policy plugin stopped after an internal failure",
        );
    }
    Json::object().with("ok", Json::Bool(false)).with(
        "error",
        Json::object().with("code", Json::string("cpa_internal_error")).with(
            "message",
            Json::string("Policy plugin stopped"),
        ),
    )
}

// ---------------------------------------------------------------------------
// Laws

/// A payload that cannot be read ends an interception with status 413; any other call
/// fails with that status. Either way the code and the message are the same.
pub proof fn law_unreadable_payloads(method: Seq<char>)
    ensures
        ({
            let answer = payload_refusal(method);
            let message = "Plugin payload exceeds the 64 MiB limit or is invalid"@;
            let interception = method.len() >= 18 && method.take(18) == "request.intercept_"@;
            &&& interception ==> answer == termination(413, "cpa_payload_limit"@, message)
            &&& !interception ==> {
                &&& answer.at("ok"@) == Tree::Bool(false)
                &&& answer.at("error"@).at("code"@) == Tree::Text("cpa_payload_limit"@)
                &&& answer.at("error"@).at("message"@) == Tree::Text(message)
                &&& answer.at("error"@).at("http_status"@) == Tree::Unsigned(413)
            }
        }),
{
    lemma_interceptions(method);
    lemma_error_names();
}

/// A call that breaks down ends an interception with status 503; any other call fails.
pub proof fn law_breakdowns(method: Seq<char>)
    ensures
        ({
            let answer = breakdown(method);
            let interception = method.len() >= 18 && method.take(18) == "request.intercept_"@;
            &&& interception ==> answer == termination(
                503,
                "cpa_internal_error"@,
                "Policy plugin stopped after an internal failure"@,
            )
            &&& !interception ==> {
                &&& answer.at("ok"@) == Tree::Bool(false)
                &&& answer.at("error"@).at("code"@) == Tree::Text("cpa_internal_error"@)
                &&& answer.at("error"@).at("message"@) == Tree::Text("Policy plugin stopped"@)
            }
        }),
{
    lemma_interceptions(method);
    lemma_error_names();
}

proof fn lemma_interceptions(method: Seq<char>)
    ensures
        intercepts(method) <==> method.len() >= 18 && method.take(18) == "request.intercept_"@,
{
    reveal_strlit("request.intercept_");
    assert("request.intercept_"@.len() == 18);
    if method.len() >= 18 {
        assert(method.take(18) =~= method.subrange(0, 18));
    }
}

proof fn lemma_error_names()
    ensures
        "ok"@ != "error"@,
        "code"@ != "message"@,
        "code"@ != "http_status"@,
        "message"@ != "http_status"@,
{
    reveal_strlit("ok");
    reveal_strlit("error");
    reveal_strlit("code");
    reveal_strlit("message");
    reveal_strlit("http_status");
    assert("ok"@.len() == 2 && "error"@.len() == 5);
    assert("code"@.len() == 4 && "message"@.len() == 7 && "http_status"@.len() == 11);
}

/// The longest payload that is taken has 64 mebibytes.
pub proof fn law_payload_limit()
    ensures
        MAX_REQUEST_BYTES == 64 * 1024 * 1024,
        ABI_VERSION == 1,
{
}

} // verus!
