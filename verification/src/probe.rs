//! What the end-to-end probe asks of a local proxy, and what it expects to see: that
//! a client takes mapped failures as retryable, and ordinary streams to their end.
use crate::json::{no_members, Json, Tree};
use crate::text::{same, starts_with};
use vstd::prelude::*;

verus! {

broadcast use vstd::string::group_string_axioms;

/// Only a proxy on this machine is probed.
pub fn is_local(url: &str) -> (r: bool)
    ensures
        r == "http://127.0.0.1:"@.is_prefix_of(url@),
{
    starts_with(url, "http://127.0.0.1:")
}

/// The inputs that make the upstream fail, each with the message that a rule gives.
pub open spec fn failing_inputs() -> Seq<(Seq<char>, Seq<char>)> {
    seq![
        ("http503"@, "configured startup"@),
        ("context"@, "configured terminal"@),
        ("quota"@, "configured terminal"@),
        ("streamboom"@, "configured text"@),
    ]
}

/// The inputs that make the upstream fail, each with the message that a rule gives.
pub fn cases() -> (r: Vec<(String, String)>)
    ensures
        r@.map_values(|case: (String, String)| (case.0@, case.1@)) == failing_inputs(),
{
    let mut list: Vec<(String, String)> = Vec::new();
    list.push(("http503".to_string(), "configured startup".to_string()));
    list.push(("context".to_string(), "configured terminal".to_string()));
    list.push(("quota".to_string(), "configured terminal".to_string()));
    list.push(("streamboom".to_string(), "configured text".to_string()));
    assert(list@.map_values(|case: (String, String)| (case.0@, case.1@)) =~= failing_inputs());
    list
}

/// The request for an input.
pub fn request(input: &str) -> (r: Json)
    ensures
        r@ == no_members().with("model"@, Tree::Text("a/test-model"@)).with(
            "stream"@,
            Tree::Bool(true),
        ).with("input"@, Tree::Text(input@)),
{
    Json::object().with("model", Json::string("a/test-model")).with(
        "stream",
        Json::Bool(true),
    ).with("input", Json::string(input))
}

/// What a client sees of a stream.
#[derive(Debug)]
pub enum Seen {
    /// A failure that can be retried, with its message, and whether it asks for a delay.
    Retryable { message: String, delayed: bool },
    /// Any other failure.
    Failed,
    /// The end of the response.
    Completed,
    /// Anything else.
    Other,
}

/// Why a probe failed.
#[derive(Clone, Copy, Debug, PartialEq, Eq, Structural)]
pub enum Finding {
    /// The failure can be retried, but says something else than expected.
    Misread,
    /// The stream failed in another way, or where it should not.
    Misclassified,
    /// The stream ended without what was expected.
    Missing,
}

/// What a client is expected to see.
#[derive(Debug)]
pub enum Expected {
    /// A failure that can be retried, with this message and without a delay.
    Retryable(String),
    /// The end of the response, without a failure.
    Completed,
}

/// One stream under observation.
#[derive(Debug)]
pub struct Watch {
    pub expected: Expected,
    pub met: bool,
}

/// What becomes of an observation: whether the expectation is met, and whether to
/// go on.
pub open spec fn observed(expected: Expected, met: bool, seen: Seen) -> Result<(bool, bool), Finding> {
    match (expected, seen) {
        (Expected::Retryable(text), Seen::Retryable { message, delayed }) => if message@ == text@
            && !delayed {
            Ok((true, false))
        } else {
            Err(Finding::Misread)
        },
        (Expected::Completed, Seen::Retryable { .. }) => Err(Finding::Misclassified),
        (_, Seen::Failed) => Err(Finding::Misclassified),
        (Expected::Completed, Seen::Completed) => Ok((true, true)),
        _ => Ok((met, true)),
    }
}

impl Watch {
    pub fn new(expected: Expected) -> (r: Watch)
        ensures
            r == (Watch { expected, met: false }),
    {
        Watch { expected, met: false }
    }

    /// Takes note of what a client saw; says whether to go on.
    pub fn observe(&mut self, seen: Seen) -> (r: Result<bool, Finding>)
        ensures
            final(self).expected == old(self).expected,
            match observed(old(self).expected, old(self).met, seen) {
                Ok((met, more)) => r == Ok::<bool, Finding>(more) && final(self).met == met,
                Err(finding) => r == Err::<bool, Finding>(finding) && final(self).met == old(
                    self,
                ).met,
            },
    {
        match (&self.expected, seen) {
            (Expected::Retryable(text), Seen::Retryable { message, delayed }) => {
                if same(message.as_str(), text.as_str()) && !delayed {
                    self.met = true;
                    Ok(false)
                } else {
                    Err(Finding::Misread)
                }
            },
            (Expected::Completed, Seen::Retryable { .. }) => Err(Finding::Misclassified),
            (_, Seen::Failed) => Err(Finding::Misclassified),
            (Expected::Completed, Seen::Completed) => {
                self.met = true;
                Ok(true)
            },
            _ => Ok(true),
        }
    }

    /// Whether the stream showed what was expected.
    pub fn verdict(&self) -> (r: Result<(), Finding>)
        ensures
            r == if self.met {
                Ok::<(), Finding>(())
            } else {
                Err(Finding::Missing)
            },
    {
        if self.met {
            Ok(())
        } else {
            Err(Finding::Missing)
        }
    }
}

// ---------------------------------------------------------------------------
// Laws

/// When a probe that waits for a retryable failure is content: at one with the
/// expected message and without a delay, and there it ends. Any other retryable
/// failure is misread, any other failure misclassified; all else it lets pass.
pub proof fn law_failures_are_expected(text: String, met: bool, seen: Seen)
    ensures
        ({
            let r = observed(Expected::Retryable(text), met, seen);
            match seen {
                Seen::Retryable { message, delayed } => {
                    &&& message@ == text@ && !delayed ==> r == Ok::<(bool, bool), Finding>(
                        (true, false),
                    )
                    &&& message@ != text@ || delayed ==> r == Err::<(bool, bool), Finding>(
                        Finding::Misread,
                    )
                },
                Seen::Failed => r == Err::<(bool, bool), Finding>(Finding::Misclassified),
                Seen::Completed => r == Ok::<(bool, bool), Finding>((met, true)),
                Seen::Other => r == Ok::<(bool, bool), Finding>((met, true)),
            }
        }),
{
}

/// When a probe that waits for the end of a response is content: at that end, after
/// which it goes on watching. Every failure is misclassified; all else it lets pass.
pub proof fn law_completions_are_expected(met: bool, seen: Seen)
    ensures
        ({
            let r = observed(Expected::Completed, met, seen);
            match seen {
                Seen::Retryable { .. } => r == Err::<(bool, bool), Finding>(
                    Finding::Misclassified,
                ),
                Seen::Failed => r == Err::<(bool, bool), Finding>(Finding::Misclassified),
                Seen::Completed => r == Ok::<(bool, bool), Finding>((true, true)),
                Seen::Other => r == Ok::<(bool, bool), Finding>((met, true)),
            }
        }),
{
}

/// Four inputs make the upstream fail, and of each the client is to read what the rule
/// for such failures says: that for failures at the start, for terminal ones, or for
/// those told by their text.
pub proof fn law_failing_inputs(input: Seq<char>, message: Seq<char>)
    ensures
        failing_inputs().contains((input, message)) <==> {
            ||| input == "http503"@ && message == "configured startup"@
            ||| input == "context"@ && message == "configured terminal"@
            ||| input == "quota"@ && message == "configured terminal"@
            ||| input == "streamboom"@ && message == "configured text"@
        },
        failing_inputs().len() == 4,
{
    let list = failing_inputs();
    assert(list[0] == ("http503"@, "configured startup"@));
    assert(list[1] == ("context"@, "configured terminal"@));
    assert(list[2] == ("quota"@, "configured terminal"@));
    assert(list[3] == ("streamboom"@, "configured text"@));
}

} // verus!
