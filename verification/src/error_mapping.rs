//! Rules that turn structured failures into retryable ones for Codex clients.
pub use crate::stream::SseMapper;

use crate::clock::{Duration, MILLI};
use crate::json::{
    lemma_plain_deeper, no_members, plain, read_text, readable_depth, reads_back, single_line,
    tree_of, written, Json, Tree,
};
use crate::text::{
    blank, byte_count, byte_len, contains, lemma_trim, occurs, occurs_at, same,
    trim,
};
use vstd::prelude::*;
use vstd::string::{StrSliceExecFns, StringExecFns};
use vstd::utf8::encode_utf8;

verus! {

broadcast use vstd::string::group_string_axioms;

/// The code that marks an error as retryable.
pub const RETRYABLE_CODE: &'static str = "cpa_retryable";

/// Ordered rules; the first one that matches a failure decides.
#[derive(Debug)]
pub struct ErrorMapping {
    pub enabled: bool,
    pub rules: Vec<ErrorRule>,
}

#[derive(Debug)]
pub struct ErrorRule {
    pub name: String,
    pub matcher: ErrorMatch,
    pub retryable: RetryableError,
}

/// The conditions of a rule. Every one that is given must hold; of a list, one
/// entry is enough.
#[derive(Debug)]
pub struct ErrorMatch {
    pub codes: Vec<String>,
    pub types: Vec<String>,
    pub http_statuses: Vec<u16>,
    pub message_contains: Option<String>,
}

/// What the client is told in place of the failure.
#[derive(Debug, PartialEq, Eq)]
pub struct RetryableError {
    pub message: String,
    pub delay: Option<Duration>,
}

pub struct MappingView {
    pub enabled: bool,
    pub rules: Seq<RuleView>,
}

pub struct RuleView {
    pub name: Seq<char>,
    pub matcher: MatchView,
    pub retryable: RetryableView,
}

pub struct MatchView {
    pub codes: Seq<Seq<char>>,
    pub types: Seq<Seq<char>>,
    pub http_statuses: Seq<u16>,
    pub message_contains: Option<Seq<char>>,
}

pub struct RetryableView {
    pub message: Seq<char>,
    pub delay: Option<Duration>,
}

/// The texts of a list of strings.
pub open spec fn texts(list: Seq<String>) -> Seq<Seq<char>> {
    list.map_values(|s: String| s@)
}

impl View for RetryableError {
    type V = RetryableView;

    open spec fn view(&self) -> RetryableView {
        RetryableView { message: self.message@, delay: self.delay }
    }
}

impl View for ErrorMatch {
    type V = MatchView;

    open spec fn view(&self) -> MatchView {
        MatchView {
            codes: texts(self.codes@),
            types: texts(self.types@),
            http_statuses: self.http_statuses@,
            message_contains: match self.message_contains {
                Some(needle) => Some(needle@),
                None => None,
            },
        }
    }
}

impl View for ErrorRule {
    type V = RuleView;

    open spec fn view(&self) -> RuleView {
        RuleView { name: self.name@, matcher: self.matcher@, retryable: self.retryable@ }
    }
}

impl View for ErrorMapping {
    type V = MappingView;

    open spec fn view(&self) -> MappingView {
        MappingView {
            enabled: self.enabled,
            rules: self.rules@.map_values(|rule: ErrorRule| rule@),
        }
    }
}

// ---------------------------------------------------------------------------
// Validity

/// A code or a type that can be matched.
pub open spec fn matchable(text: Seq<char>) -> bool {
    0 < text.len() && byte_len(text) <= 256
}

pub open spec fn all_matchable(list: Seq<Seq<char>>) -> bool {
    forall|i: int| 0 <= i < list.len() ==> matchable(#[trigger] list[i])
}

/// The conditions are within bounds.
pub open spec fn conditions_fit(matcher: MatchView) -> bool {
    &&& matcher.codes.len() <= 64
    &&& matcher.types.len() <= 64
    &&& matcher.http_statuses.len() <= 200
    &&& all_matchable(matcher.codes)
    &&& all_matchable(matcher.types)
    &&& forall|i: int|
        0 <= i < matcher.http_statuses.len() ==> 400 <= #[trigger] matcher.http_statuses[i] <= 599
    &&& matcher.message_contains matches Some(needle) ==> 0 < needle.len() && byte_len(needle)
        <= 4096
}

/// A delay that can be announced: whole milliseconds, at most five minutes.
pub open spec fn delay_fits(delay: Option<Duration>) -> bool {
    delay matches Some(d) ==> d.nanos <= 300_000 * MILLI && d.nanos % MILLI == 0
}

pub open spec fn unconditional(matcher: MatchView) -> bool {
    matcher.codes.len() == 0 && matcher.types.len() == 0 && matcher.http_statuses.len() == 0
        && matcher.message_contains is None
}

/// An earlier rule has the name of the rule at an index.
pub open spec fn name_taken(rules: Seq<RuleView>, i: int) -> bool {
    exists|j: int| 0 <= j < i && (#[trigger] rules[j]).name == rules[i].name
}

/// What is wrong with the rule at an index.
pub open spec fn rule_error(rules: Seq<RuleView>, i: int) -> Option<Seq<char>> {
    let rule = rules[i];
    if blank(rule.name) || byte_len(rule.name) > 128 || name_taken(rules, i) {
        Some("error mapping rule names must be nonempty, unique, and at most 128 bytes"@)
    } else if unconditional(rule.matcher) {
        Some("error mapping requires at least one match condition"@)
    } else if !conditions_fit(rule.matcher) {
        Some("invalid error mapping match condition"@)
    } else if blank(rule.retryable.message) || byte_len(rule.retryable.message) > 4096 {
        Some("retryable message must be nonempty and at most 4096 bytes"@)
    } else if !delay_fits(rule.retryable.delay) {
        Some("retryable delay must use millisecond precision and not exceed 5 minutes"@)
    } else {
        None
    }
}

/// What is wrong with the first faulty rule from an index on.
pub open spec fn first_rule_error(rules: Seq<RuleView>, i: int) -> Option<Seq<char>>
    decreases rules.len() - i,
{
    if 0 <= i < rules.len() {
        match rule_error(rules, i) {
            Some(message) => Some(message),
            None => first_rule_error(rules, i + 1),
        }
    } else {
        None
    }
}

/// What is wrong with a mapping.
pub open spec fn mapping_error(mapping: MappingView) -> Option<Seq<char>> {
    if mapping.rules.len() > 128 {
        Some("error_mapping supports at most 128 rules"@)
    } else if mapping.enabled && mapping.rules.len() == 0 {
        Some("enabled error_mapping requires rules"@)
    } else {
        first_rule_error(mapping.rules, 0)
    }
}

/// A result whose error says what is wrong.
pub open spec fn reports(r: Result<(), String>, error: Option<Seq<char>>) -> bool {
    match r {
        Ok(_) => error is None,
        Err(message) => error == Some(message@),
    }
}

fn is_blank(text: &str) -> (r: bool)
    ensures
        r == blank(text@),
{
    let core = trim(text);
    proof {
        lemma_trim(text@, core@);
    }
    core.is_empty()
}

fn is_matchable(list: &Vec<String>) -> (r: bool)
    ensures
        r == all_matchable(texts(list@)),
{
    let mut i: usize = 0;
    while i < list.len()
        invariant
            i <= list.len(),
            forall|k: int| 0 <= k < i ==> matchable(#[trigger] texts(list@)[k]),
        decreases list.len() - i,
    {
        let text = list[i].as_str();
        if text.is_empty() || byte_count(text) > 256 {
            assert(!matchable(texts(list@)[i as int]));
            return false;
        }
        i += 1;
    }
    true
}

impl ErrorMatch {
    fn fits(&self) -> (r: bool)
        ensures
            r == conditions_fit(self@),
    {
        if self.codes.len() > 64 || self.types.len() > 64 || self.http_statuses.len() > 200 {
            return false;
        }
        if !is_matchable(&self.codes) || !is_matchable(&self.types) {
            return false;
        }
        let mut i: usize = 0;
        while i < self.http_statuses.len()
            invariant
                i <= self.http_statuses.len(),
                forall|k: int| 0 <= k < i ==> 400 <= #[trigger] self@.http_statuses[k] <= 599,
            decreases self.http_statuses.len() - i,
        {
            if self.http_statuses[i] < 400 || self.http_statuses[i] > 599 {
                assert(!(400 <= self@.http_statuses[i as int] <= 599));
                return false;
            }
            i += 1;
        }
        match &self.message_contains {
            Some(needle) => !needle.as_str().is_empty() && byte_count(needle.as_str()) <= 4096,
            None => true,
        }
    }

    fn is_unconditional(&self) -> (r: bool)
        ensures
            r == unconditional(self@),
    {
        self.codes.len() == 0 && self.types.len() == 0 && self.http_statuses.len() == 0
            && self.message_contains.is_none()
    }
}

impl ErrorMapping {
    fn is_name_taken(&self, i: usize) -> (r: bool)
        requires
            i < self.rules@.len(),
        ensures
            r == name_taken(self@.rules, i as int),
    {
        let mut j: usize = 0;
        while j < i
            invariant
                i < self.rules@.len(),
                j <= i,
                forall|k: int| 0 <= k < j ==> (#[trigger] self@.rules[k]).name != self@.rules[i as int].name,
            decreases i - j,
        {
            if same(self.rules[j].name.as_str(), self.rules[i].name.as_str()) {
                assert(self@.rules[j as int].name == self@.rules[i as int].name);
                return true;
            }
            j += 1;
        }
        false
    }

    fn validate_rule(&self, i: usize) -> (r: Result<(), String>)
        requires
            i < self.rules@.len(),
        ensures
            reports(r, rule_error(self@.rules, i as int)),
    {
        let rule = &self.rules[i];
        assert(self@.rules[i as int] == rule@);
        let name = rule.name.as_str();
        if is_blank(name) || byte_count(name) > 128 || self.is_name_taken(i) {
            return Err(
                "error mapping rule names must be nonempty, unique, and at most 128 bytes".to_string(),
            );
        }
        if rule.matcher.is_unconditional() {
            return Err("error mapping requires at least one match condition".to_string());
        }
        if !rule.matcher.fits() {
            return Err("invalid error mapping match condition".to_string());
        }
        let message = rule.retryable.message.as_str();
        if is_blank(message) || byte_count(message) > 4096 {
            return Err("retryable message must be nonempty and at most 4096 bytes".to_string());
        }
        if let Some(delay) = rule.retryable.delay {
            if delay.nanos > 300_000 * MILLI || delay.nanos % MILLI != 0 {
                return Err(
                    "retryable delay must use millisecond precision and not exceed 5 minutes".to_string(),
                );
            }
        }
        Ok(())
    }

    /// Whether the rules can be used, and if not, why.
    pub fn validate(&self) -> (r: Result<(), String>)
        ensures
            reports(r, mapping_error(self@)),
    {
        if self.rules.len() > 128 {
            return Err("error_mapping supports at most 128 rules".to_string());
        }
        if self.enabled && self.rules.len() == 0 {
            return Err("enabled error_mapping requires rules".to_string());
        }
        let mut i: usize = 0;
        while i < self.rules.len()
            invariant
                i <= self.rules.len(),
                mapping_error(self@) == first_rule_error(self@.rules, i as int),
            decreases self.rules.len() - i,
        {
            self.validate_rule(i)?;
            i += 1;
        }
        Ok(())
    }
}

// ---------------------------------------------------------------------------
// Matching

/// The error that a failure event carries.
pub open spec fn error_in(failure: Tree) -> Tree {
    failure.at("response"@).at("error"@)
}

/// A failure event: of the right type, with a structured error.
pub open spec fn is_failure(failure: Tree) -> bool {
    failure.at("type"@) == Tree::Text("response.failed"@) && error_in(failure) is Object
}

/// A list admits a text: it is empty, or holds it.
pub open spec fn admits(list: Seq<Seq<char>>, text: Option<Seq<char>>) -> bool {
    list.len() == 0 || (text matches Some(text) && list.contains(text))
}

/// All given conditions hold.
pub open spec fn rule_matches(matcher: MatchView, status: u16, error: Tree) -> bool {
    &&& admits(matcher.codes, error.at("code"@).text())
    &&& admits(matcher.types, error.at("type"@).text())
    &&& matcher.http_statuses.len() == 0 || matcher.http_statuses.contains(status)
    &&& matcher.message_contains matches Some(needle) ==> (error.at("message"@).text() matches Some(
        message,
    ) && occurs(needle, message))
}

/// The first rule from an index on that matches.
pub open spec fn first_match(
    rules: Seq<RuleView>,
    i: int,
    status: u16,
    error: Tree,
) -> Option<RetryableView>
    decreases rules.len() - i,
{
    if 0 <= i < rules.len() {
        if rule_matches(rules[i].matcher, status, error) {
            Some(rules[i].retryable)
        } else {
            first_match(rules, i + 1, status, error)
        }
    } else {
        None
    }
}

/// What a mapping makes of a failure event.
pub open spec fn mapped(mapping: MappingView, status: u16, failure: Tree) -> Option<RetryableView> {
    if mapping.enabled && is_failure(failure) && error_in(failure).at("code"@) != Tree::Text(
        RETRYABLE_CODE@,
    ) {
        first_match(mapping.rules, 0, status, error_in(failure))
    } else {
        None
    }
}

/// The view of an optional outcome.
pub open spec fn outcome(r: Option<RetryableError>) -> Option<RetryableView> {
    match r {
        Some(retryable) => Some(retryable@),
        None => None,
    }
}

fn is_admitted(list: &Vec<String>, text: Option<&str>) -> (r: bool)
    ensures
        r == admits(
            texts(list@),
            match text {
                Some(text) => Some(text@),
                None => None,
            },
        ),
{
    if list.len() == 0 {
        return true;
    }
    match text {
        Some(wanted) => {
            let mut i: usize = 0;
            while i < list.len()
                invariant
                    text == Some(wanted),
                    i <= list.len(),
                    forall|k: int| 0 <= k < i ==> #[trigger] texts(list@)[k] != wanted@,
                decreases list.len() - i,
            {
                if same(list[i].as_str(), wanted) {
                    assert(texts(list@)[i as int] == wanted@);
                    return true;
                }
                i += 1;
            }
            false
        },
        None => false,
    }
}

impl ErrorMatch {
    fn matches(&self, status: u16, error: &Json) -> (r: bool)
        ensures
            r == rule_matches(self@, status, error@),
    {
        if !is_admitted(&self.codes, error.text_at("code")) {
            return false;
        }
        if !is_admitted(&self.types, error.text_at("type")) {
            return false;
        }
        if self.http_statuses.len() > 0 {
            let mut found = false;
            let mut i: usize = 0;
            while i < self.http_statuses.len()
                invariant
                    i <= self.http_statuses.len(),
                    found == self.http_statuses@.take(i as int).contains(status),
                decreases self.http_statuses.len() - i,
            {
                proof {
                    let before = self.http_statuses@.take(i as int);
                    let after = self.http_statuses@.take(i + 1);
                    assert(after == before.push(self.http_statuses@[i as int]));
                    if before.contains(status) {
                        let k = choose|k: int| 0 <= k < before.len() && before[k] == status;
                        assert(after[k] == status);
                    }
                    assert(after[i as int] == self.http_statuses@[i as int]);
                }
                if self.http_statuses[i] == status {
                    found = true;
                }
                i += 1;
            }
            assert(self.http_statuses@.take(i as int) == self.http_statuses@);
            if !found {
                return false;
            }
        }
        match &self.message_contains {
            Some(needle) => match error.text_at("message") {
                Some(message) => contains(message, needle.as_str()),
                None => false,
            },
            None => true,
        }
    }
}

impl ErrorMapping {
    /// The outcome that the first matching rule sets for a failure event. A
    /// status of 0 stands for an unknown one.
    pub fn map(&self, status: u16, failure: &Json) -> (r: Option<RetryableError>)
        ensures
            outcome(r) == mapped(self@, status, failure@),
    {
        if !self.enabled || !failure.is_text_at("type", "response.failed") {
            return None;
        }
        let error = match failure.get("response") {
            Some(response) => match response.get("error") {
                Some(error) => error,
                None => {
                    return None;
                },
            },
            None => {
                return None;
            },
        };
        if !error.is_object() || error.is_text_at("code", RETRYABLE_CODE) {
            return None;
        }
        let mut i: usize = 0;
        while i < self.rules.len()
            invariant
                i <= self.rules.len(),
                mapped(self@, status, failure@) == first_match(self@.rules, i as int, status, error@),
            decreases self.rules.len() - i,
        {
            let rule = &self.rules[i];
            assert(self@.rules[i as int] == rule@);
            if rule.matcher.matches(status, error) {
                return Some(rule.retryable.clone());
            }
            i += 1;
        }
        None
    }
}

/// A copy of a list of strings.
fn copy_texts(list: &Vec<String>) -> (r: Vec<String>)
    ensures
        texts(r@) == texts(list@),
{
    let mut out: Vec<String> = Vec::new();
    let mut i: usize = 0;
    while i < list.len()
        invariant
            i <= list@.len(),
            out@ == list@.take(i as int),
        decreases list@.len() - i,
    {
        out.push(list[i].clone());
        assert(list@.take(i + 1) == list@.take(i as int).push(list@[i as int]));
        i += 1;
    }
    assert(list@.take(i as int) == list@);
    out
}

impl Clone for ErrorMatch {
    fn clone(&self) -> (r: Self)
        ensures
            r@ == self@,
    {
        let mut http_statuses: Vec<u16> = Vec::new();
        http_statuses.extend_from_slice(self.http_statuses.as_slice());
        assert(http_statuses@ =~= self.http_statuses@);
        let message_contains = match &self.message_contains {
            Some(needle) => Some(needle.clone()),
            None => None,
        };
        ErrorMatch {
            codes: copy_texts(&self.codes),
            types: copy_texts(&self.types),
            http_statuses,
            message_contains,
        }
    }
}

impl Clone for ErrorRule {
    fn clone(&self) -> (r: Self)
        ensures
            r@ == self@,
    {
        ErrorRule {
            name: self.name.clone(),
            matcher: self.matcher.clone(),
            retryable: self.retryable.clone(),
        }
    }
}

impl Clone for ErrorMapping {
    fn clone(&self) -> (r: Self)
        ensures
            r@ == self@,
    {
        let mut rules: Vec<ErrorRule> = Vec::new();
        let mut i: usize = 0;
        while i < self.rules.len()
            invariant
                i <= self.rules@.len(),
                rules@.len() == i,
                forall|k: int| 0 <= k < i ==> (#[trigger] rules@[k])@ == self.rules@[k]@,
            decreases self.rules@.len() - i,
        {
            rules.push(self.rules[i].clone());
            i += 1;
        }
        let r = ErrorMapping { enabled: self.enabled, rules };
        assert(r@.rules =~= self@.rules);
        r
    }
}

impl Default for ErrorMatch {
    fn default() -> (r: Self)
        ensures
            r@ == (MatchView {
                codes: Seq::empty(),
                types: Seq::empty(),
                http_statuses: Seq::empty(),
                message_contains: None,
            }),
    {
        let r = ErrorMatch {
            codes: Vec::new(),
            types: Vec::new(),
            http_statuses: Vec::new(),
            message_contains: None,
        };
        assert(r@.codes =~= Seq::empty());
        assert(r@.types =~= Seq::empty());
        r
    }
}

impl Default for ErrorMapping {
    fn default() -> (r: Self)
        ensures
            r@ == (MappingView { enabled: false, rules: Seq::empty() }),
    {
        let r = ErrorMapping { enabled: false, rules: Vec::new() };
        assert(r@.rules =~= Seq::empty());
        r
    }
}

impl Clone for RetryableError {
    fn clone(&self) -> (r: Self)
        ensures
            r@ == self@,
    {
        RetryableError { message: self.message.clone(), delay: self.delay }
    }
}

// ---------------------------------------------------------------------------
// Rewriting

/// The error that takes the place of the one that a rule matched.
pub open spec fn replacement(retryable: RetryableView) -> Tree {
    let detail = no_members().with("type"@, Tree::Text("server_error"@)).with(
        "code"@,
        Tree::Text(RETRYABLE_CODE@),
    ).with("message"@, Tree::Text(retryable.message));
    match retryable.delay {
        Some(delay) => detail.with("retry_after_ms"@, Tree::Unsigned((delay.nanos / MILLI) as u64)),
        None => detail,
    }
}

/// The failure event with its error replaced.
pub open spec fn rewritten(retryable: RetryableView, failure: Tree) -> Tree {
    failure.with(
        "response"@,
        failure.at("response"@).with("error"@, replacement(retryable)).with(
            "status"@,
            Tree::Text("failed"@),
        ),
    )
}

/// An event whose response can be written to.
pub open spec fn rewritable(failure: Tree) -> bool {
    failure.takes_members() && failure.at("response"@).takes_members()
}

impl RetryableError {
    /// The failure event with its error replaced whole: a code or a detail that
    /// stayed would lead the client to another class of error.
    pub fn rewrite(&self, failure: Json) -> (r: Json)
        requires
            rewritable(failure@),
        ensures
            r@ == rewritten(self@, failure@),
    {
        let mut detail = Json::object().with("type", Json::string("server_error")).with(
            "code",
            Json::string(RETRYABLE_CODE),
        ).with("message", Json::string(self.message.as_str()));
        if let Some(delay) = self.delay {
            detail = detail.with("retry_after_ms", Json::Unsigned(delay.as_millis()));
        }
        let response = match failure.get("response") {
            Some(response) => response.clone(),
            None => Json::Null,
        };
        failure.with(
            "response",
            response.with("error", detail).with("status", Json::string("failed")),
        )
    }
}

// ---------------------------------------------------------------------------
// Failures out of messages

/// A failure event around an error.
pub open spec fn failure_with(error: Tree) -> Tree {
    no_members().with("type"@, Tree::Text("response.failed"@)).with(
        "response"@,
        no_members().with("status"@, Tree::Text("failed"@)).with("error"@, error),
    )
}

/// The failure that a message stands for, given what JSON was read from it.
pub open spec fn failure_of(parsed: Option<Tree>, message: Seq<char>) -> Tree {
    match parsed {
        Some(value) if is_failure(value) => value,
        Some(value) if value.at("error"@) is Object => failure_with(value.at("error"@)),
        _ => failure_with(no_members().with("message"@, Tree::Text(message))),
    }
}

fn wrap_error(error: Json) -> (r: Json)
    ensures
        r@ == failure_with(error@),
{
    Json::object().with("type", Json::string("response.failed")).with(
        "response",
        Json::object().with("status", Json::string("failed")).with("error", error),
    )
}

/// The failure that a message stands for, given what JSON was read from it. A
/// message without a structured error gets neither a code nor a status.
pub fn failure_from(parsed: Option<Json>, message: &str) -> (r: Json)
    ensures
        r@ == failure_of(tree_of(parsed), message@),
{
    if let Some(value) = parsed {
        if value.is_text_at("type", "response.failed") {
            if let Some(response) = value.get("response") {
                if let Some(error) = response.get("error") {
                    if error.is_object() {
                        return value;
                    }
                }
            }
        }
        let error = value.take("error");
        if error.is_object() {
            return wrap_error(error);
        }
    }
    wrap_error(Json::object().with("message", Json::string(message)))
}

/// The failure that a message stands for: the error in it where it holds one as
/// JSON, else the plain message.
pub fn failure_from_message(message: &str) -> (r: Json)
    ensures
        r@ == failure_of(read_text(message@), message@),
{
    failure_from(Json::parse(message), message)
}

/// The record of a server-sent failure event around its JSON text.
pub open spec fn failed_record(text: Seq<char>) -> Seq<char> {
    "event: response.failed\ndata: "@ + text + "\n\n"@
}

/// The record of a server-sent failure event around its JSON text.
pub fn record_of(text: &str) -> (r: Vec<u8>)
    ensures
        r@ == encode_utf8(failed_record(text@)),
{
    let mut record = String::new();
    record.append("event: response.failed\ndata: ");
    record.append(text);
    record.append("\n\n");
    assert(record@ == failed_record(text@));
    record.as_str().as_bytes_vec()
}

/// The record of a failure event.
pub fn sse(event: &Json) -> (r: Vec<u8>)
    ensures
        r@ == encode_utf8(failed_record(written(event@))),
        single_line(written(event@)),
        plain(event@, readable_depth()) ==> reads_back(event@),
        plain(event@, readable_depth()) && is_failure(event@) ==> failure_of(
            read_text(written(event@)),
            written(event@),
        ) == event@,
{
    let text = event.render();
    record_of(text.as_str())
}

// ---------------------------------------------------------------------------
// Delays

pub open spec fn is_digit(c: char) -> bool {
    '0' <= c <= '9'
}

/// The number that decimal digits stand for.
pub open spec fn decimal(digits: Seq<char>) -> nat
    decreases digits.len(),
{
    if digits.len() == 0 {
        0
    } else {
        decimal(digits.drop_last()) * 10 + (digits.last() as u32 - '0' as u32) as nat
    }
}

/// The digits and the milliseconds of the unit, where a delay names one.
pub open spec fn delay_parts(raw: Seq<char>) -> Option<(Seq<char>, nat)> {
    let n = raw.len();
    if n >= 2 && raw[n - 2] == 'm' && raw[n - 1] == 's' {
        Some((raw.take(n - 2), 1))
    } else if n >= 1 && raw[n - 1] == 's' {
        Some((raw.take(n - 1), 1000))
    } else if n >= 1 && raw[n - 1] == 'm' {
        Some((raw.take(n - 1), 60_000))
    } else {
        None
    }
}

/// The delay that a text names, or what is wrong with it.
pub open spec fn delay_of(raw: Seq<char>) -> Result<Duration, Seq<char>> {
    match delay_parts(raw) {
        None => Err("delay requires ms, s, or m"@),
        Some((digits, unit)) => if digits.len() == 0 || !(forall|i: int|
            0 <= i < digits.len() ==> is_digit(#[trigger] digits[i])) {
            Err("delay requires a nonnegative integer"@)
        } else if decimal(digits) * unit <= 300_000 {
            Ok(Duration { nanos: (decimal(digits) * unit * MILLI) as u128 })
        } else {
            Err("delay must not exceed 5 minutes"@)
        },
    }
}

/// What the configured delay comes to.
pub open spec fn configured_delay(raw: Option<Seq<char>>) -> Result<Option<Duration>, Seq<char>> {
    match raw {
        None => Ok(None),
        Some(raw) => match delay_of(raw) {
            Ok(delay) => Ok(Some(delay)),
            Err(message) => Err(message),
        },
    }
}

proof fn lemma_decimal_grows(digits: Seq<char>, i: int)
    requires
        0 <= i <= digits.len(),
    ensures
        decimal(digits.take(i)) <= decimal(digits),
    decreases digits.len() - i,
{
    if i == digits.len() {
        assert(digits.take(i) == digits);
    } else {
        lemma_decimal_grows(digits, i + 1);
        assert(digits.take(i + 1).drop_last() == digits.take(i));
    }
}

/// The number that the first `n` characters stand for, where it is not above
/// `most`; all of them digits.
fn small_decimal(chars: &Vec<char>, n: usize, most: u64) -> (r: Option<u64>)
    requires
        n <= chars@.len(),
        most <= 300_000,
        forall|i: int| 0 <= i < n ==> is_digit(#[trigger] chars@[i]),
    ensures
        match r {
            Some(value) => value == decimal(chars@.take(n as int)) && value <= most,
            None => decimal(chars@.take(n as int)) > most,
        },
{
    let mut value: u64 = 0;
    let mut i: usize = 0;
    while i < n
        invariant
            i <= n <= chars@.len(),
            value <= most <= 300_000,
            value == decimal(chars@.take(i as int)),
            forall|k: int| 0 <= k < n ==> is_digit(#[trigger] chars@[k]),
        decreases n - i,
    {
        assert(is_digit(chars@[i as int]));
        proof {
            assert(chars@.take(i + 1).drop_last() == chars@.take(i as int));
            assert(chars@.take(i + 1).last() == chars@[i as int]);
        }
        let digit: u64 = (chars[i] as u32 - 48) as u64;
        value = value * 10 + digit;
        if value > most {
            proof {
                assert(chars@.take(n as int).take(i + 1) == chars@.take(i + 1));
                lemma_decimal_grows(chars@.take(n as int), i + 1);
            }
            return None;
        }
        i += 1;
    }
    Some(value)
}

/// Reads a configured delay such as `1500ms`, `2s` or `1m`.
pub fn parse_delay(raw: Option<&str>) -> (r: Result<Option<Duration>, String>)
    ensures
        match r {
            Ok(delay) => configured_delay(text_of(raw)) == Ok::<_, Seq<char>>(delay),
            Err(message) => configured_delay(text_of(raw)) == Err::<Option<Duration>, _>(message@),
        },
{
    let text = match raw {
        Some(text) => text,
        None => {
            return Ok(None);
        },
    };
    let chars = crate::text::chars(text);
    let n = chars.len();
    let (count, unit, most): (usize, u64, u64) = if n >= 2 && chars[n - 2] == 'm' && chars[n - 1]
        == 's' {
        (n - 2, 1, 300_000)
    } else if n >= 1 && chars[n - 1] == 's' {
        (n - 1, 1000, 300)
    } else if n >= 1 && chars[n - 1] == 'm' {
        (n - 1, 60_000, 5)
    } else {
        return Err("delay requires ms, s, or m".to_string());
    };
    let ghost digits = chars@.take(count as int);
    assert(delay_parts(text@) == Some((digits, unit as nat)));
    let mut i: usize = 0;
    while i < count
        invariant
            raw == Some(text),
            chars@ == text@,
            count <= chars@.len(),
            digits == chars@.take(count as int),
            delay_parts(text@) == Some((digits, unit as nat)),
            i <= count,
            forall|k: int| 0 <= k < i ==> is_digit(#[trigger] chars@[k]),
        decreases count - i,
    {
        if !(chars[i] >= '0' && chars[i] <= '9') {
            assert(!is_digit(digits[i as int]));
            return Err("delay requires a nonnegative integer".to_string());
        }
        i += 1;
    }
    if count == 0 {
        return Err("delay requires a nonnegative integer".to_string());
    }
    match small_decimal(&chars, count, most) {
        Some(value) => {
            assert(value * unit <= 300_000) by (nonlinear_arith)
                requires
                    value <= most,
                    (unit == 1 && most == 300_000) || (unit == 1000 && most == 300) || (unit
                        == 60_000 && most == 5),
            ;
            Ok(Some(Duration::from_millis(value * unit)))
        },
        None => {
            assert(decimal(digits) * unit > 300_000) by (nonlinear_arith)
                requires
                    decimal(digits) > most,
                    (unit == 1 && most == 300_000) || (unit == 1000 && most == 300) || (unit
                        == 60_000 && most == 5),
            ;
            Err("delay must not exceed 5 minutes".to_string())
        },
    }
}

/// The text of an optional string.
pub open spec fn text_of(text: Option<&str>) -> Option<Seq<char>> {
    match text {
        Some(text) => Some(text@),
        None => None,
    }
}

// ---------------------------------------------------------------------------
// Laws

/// The first rule that matches decides: where a failure is mapped, some rule
/// matches that sets this outcome, and none before it does; where a failure event
/// that was not mapped before is left alone by an enabled mapping, no rule matches.
pub proof fn law_first_match_decides(mapping: MappingView, status: u16, failure: Tree)
    ensures
        mapped(mapping, status, failure) matches Some(retryable) ==> exists|i: int|
            {
                &&& 0 <= i < mapping.rules.len()
                &&& retryable == (#[trigger] mapping.rules[i]).retryable
                &&& rule_matches(mapping.rules[i].matcher, status, error_in(failure))
                &&& forall|j: int|
                    0 <= j < i ==> !rule_matches(
                        (#[trigger] mapping.rules[j]).matcher,
                        status,
                        error_in(failure),
                    )
            },
        mapping.enabled && is_failure(failure) && error_in(failure).at("code"@) != Tree::Text(
            RETRYABLE_CODE@,
        ) && mapped(mapping, status, failure) is None ==> forall|i: int|
            0 <= i < mapping.rules.len() ==> !rule_matches(
                (#[trigger] mapping.rules[i]).matcher,
                status,
                error_in(failure),
            ),
{
    lemma_first_match(mapping.rules, 0, status, error_in(failure));
}

proof fn lemma_first_match(rules: Seq<RuleView>, from: int, status: u16, error: Tree)
    requires
        0 <= from <= rules.len(),
    ensures
        match first_match(rules, from, status, error) {
            Some(retryable) => exists|i: int|
                {
                    &&& from <= i < rules.len()
                    &&& retryable == (#[trigger] rules[i]).retryable
                    &&& rule_matches(rules[i].matcher, status, error)
                    &&& forall|j: int|
                        from <= j < i ==> !rule_matches((#[trigger] rules[j]).matcher, status, error)
                },
            None => forall|i: int|
                from <= i < rules.len() ==> !rule_matches(
                    (#[trigger] rules[i]).matcher,
                    status,
                    error,
                ),
        },
    decreases rules.len() - from,
{
    if from < rules.len() {
        lemma_first_match(rules, from + 1, status, error);
        if rule_matches(rules[from].matcher, status, error) {
            assert(rules[from].retryable == first_match(rules, from, status, error)->0);
        }
    }
}

/// A rewritten failure is never mapped again, whatever the rules and the status.
pub proof fn law_rewritten_once(
    mapping: MappingView,
    status: u16,
    retryable: RetryableView,
    failure: Tree,
)
    ensures
        mapped(mapping, status, rewritten(retryable, failure)) is None,
{
    law_rewrite_replaces_the_error(retryable, failure);
    reveal_strlit("code");
    reveal_strlit("message");
    reveal_strlit("retry_after_ms");
    assert("code"@.len() != "message"@.len());
    assert("code"@.len() != "retry_after_ms"@.len());
    assert(replacement(retryable).at("code"@) == Tree::Text(RETRYABLE_CODE@));
}

/// Rewriting replaces the error whole, marks the response as failed, and leaves
/// every other part of the event as it was.
pub proof fn law_rewrite_replaces_the_error(retryable: RetryableView, failure: Tree)
    ensures
        error_in(rewritten(retryable, failure)) == replacement(retryable),
        rewritten(retryable, failure).at("response"@).at("status"@) == Tree::Text("failed"@),
        failure is Object ==> forall|key: Seq<char>|
            key != "response"@ ==> #[trigger] rewritten(retryable, failure).find(key) == failure.find(key),
        failure.at("response"@) is Object ==> forall|key: Seq<char>|
            key != "error"@ && key != "status"@ ==> #[trigger] rewritten(retryable, failure).at(
                "response"@,
            ).find(key) == failure.at("response"@).find(key),
{
    reveal_strlit("error");
    reveal_strlit("status");
    assert("error"@.len() != "status"@.len());
}

/// Every message stands for a failure, and the text of that failure stands for the
/// same failure again, where it reads back.
pub proof fn law_failures_come_back(parsed: Option<Tree>, message: Seq<char>)
    ensures
        ({
            let failure = failure_of(parsed, message);
            &&& failure.at("type"@) == Tree::Text("response.failed"@)
            &&& error_in(failure) is Object
            &&& reads_back(failure) ==> failure_of(
                read_text(written(failure)),
                written(failure),
            ) == failure
        }),
{
    reveal_strlit("type");
    reveal_strlit("response");
    reveal_strlit("status");
    reveal_strlit("error");
    assert("type"@.len() == 4 && "response"@.len() == 8);
    assert("status"@.len() == 6 && "error"@.len() == 5);
}

/// The failure that a message stands for is plain enough to be read back: always
/// where the message holds no JSON, and else where that holds no numbers but integers
/// and leaves room for the one level that is put around it.
pub proof fn law_failures_are_plain(parsed: Option<Tree>, message: Seq<char>)
    requires
        parsed matches Some(value) ==> plain(value, (readable_depth() - 1) as nat) || (is_failure(
            value,
        ) && plain(value, readable_depth())),
    ensures
        plain(failure_of(parsed, message), readable_depth()),
{
    let failure = failure_of(parsed, message);
    let depth = readable_depth();
    reveal_with_fuel(plain, 4);
    match parsed {
        Some(value) if is_failure(value) => {
            if plain(value, (depth - 1) as nat) {
                lemma_plain_deeper(value, (depth - 1) as nat, depth);
            }
        },
        Some(value) if value.at("error"@) is Object => {
            let error = value.at("error"@);
            assert(plain(error, (depth - 2) as nat));
            let response = no_members().with("status"@, Tree::Text("failed"@)).with(
                "error"@,
                error,
            );
            assert(plain(response, (depth - 1) as nat));
            assert(plain(failure, depth));
        },
        _ => {
            let error = no_members().with("message"@, Tree::Text(message));
            assert(plain(error, (depth - 2) as nat));
            let response = no_members().with("status"@, Tree::Text("failed"@)).with(
                "error"@,
                error,
            );
            assert(plain(response, (depth - 1) as nat));
            assert(plain(failure, depth));
        },
    }
}

/// An unknown status is never guessed: of valid rules, none that names statuses
/// matches a failure whose status is unknown.
pub proof fn law_unknown_status_matches_no_status(mapping: MappingView, i: int, error: Tree)
    requires
        mapping_error(mapping) is None,
        0 <= i < mapping.rules.len(),
        mapping.rules[i].matcher.http_statuses.len() > 0,
    ensures
        !rule_matches(mapping.rules[i].matcher, 0, error),
{
    law_valid_means_every_rule_is(mapping);
    let statuses = mapping.rules[i].matcher.http_statuses;
    assert(rule_error(mapping.rules, i) is None);
    if statuses.contains(0u16) {
        let k = choose|k: int| 0 <= k < statuses.len() && statuses[k] == 0u16;
        assert(400 <= statuses[k]);
    }
}

/// A mapping is valid exactly where its size is in bounds and no rule is faulty.
pub proof fn law_valid_means_every_rule_is(mapping: MappingView)
    ensures
        mapping_error(mapping) is None <==> {
            &&& mapping.rules.len() <= 128
            &&& mapping.enabled ==> mapping.rules.len() > 0
            &&& forall|i: int|
                0 <= i < mapping.rules.len() ==> #[trigger] rule_error(mapping.rules, i) is None
        },
{
    lemma_first_rule_error(mapping.rules, 0);
}

proof fn lemma_first_rule_error(rules: Seq<RuleView>, from: int)
    requires
        0 <= from <= rules.len(),
    ensures
        first_rule_error(rules, from) is None <==> forall|i: int|
            from <= i < rules.len() ==> #[trigger] rule_error(rules, i) is None,
    decreases rules.len() - from,
{
    if from < rules.len() {
        lemma_first_rule_error(rules, from + 1);
    }
}

/// Every delay that can be read can also be configured.
pub proof fn law_read_delays_are_valid(raw: Option<Seq<char>>)
    ensures
        configured_delay(raw) matches Ok(delay) ==> delay_fits(delay),
        raw is None ==> configured_delay(raw) == Ok::<Option<Duration>, Seq<char>>(None),
{
    if let Some(text) = raw {
        if let Some((digits, unit)) = delay_parts(text) {
            let millis = decimal(digits) * unit;
            if millis <= 300_000 {
                assert(millis * MILLI <= 300_000 * MILLI && (millis * MILLI) % (MILLI as int) == 0)
                    by (nonlinear_arith)
                    requires
                        0 <= millis <= 300_000,
                        MILLI == 1_000_000,
                ;
            }
        }
    }
}

/// How a mapping decides, told by the fields of its rules. Where it maps a failure, it
/// is switched on, the failure is one that carries a structured error and was not
/// mapped before, and the outcome is that of a rule of which every given condition
/// holds: each list that is not empty holds what the error says, and the message
/// holds the text that is looked for. Every rule before it has a condition that does
/// not hold; where nothing is mapped though it could be, every rule has one.
pub proof fn law_every_given_condition_counts(mapping: MappingView, status: u16, failure: Tree)
    ensures
        ({
            let error = failure.at("response"@).at("error"@);
            let open = mapping.enabled && failure.at("type"@) == Tree::Text("response.failed"@)
                && error is Object && error.at("code"@) != Tree::Text("cpa_retryable"@);
            match mapped(mapping, status, failure) {
                Some(retryable) => open && exists|i: int|
                    {
                        let rule = #[trigger] mapping.rules[i];
                        let matcher = rule.matcher;
                        &&& 0 <= i < mapping.rules.len()
                        &&& retryable == rule.retryable
                        &&& matcher.codes.len() > 0 ==> error.at("code"@) is Text
                            && matcher.codes.contains(error.at("code"@)->Text_0)
                        &&& matcher.types.len() > 0 ==> error.at("type"@) is Text
                            && matcher.types.contains(error.at("type"@)->Text_0)
                        &&& matcher.http_statuses.len() > 0 ==> matcher.http_statuses.contains(
                            status,
                        )
                        &&& matcher.message_contains is Some ==> error.at("message"@) is Text
                            && split_by(
                            error.at("message"@)->Text_0,
                            matcher.message_contains->Some_0,
                        )
                        &&& forall|j: int|
                            0 <= j < i ==> misses((#[trigger] mapping.rules[j]).matcher, status, error)
                    },
                None => open ==> forall|j: int|
                    0 <= j < mapping.rules.len() ==> misses(
                        (#[trigger] mapping.rules[j]).matcher,
                        status,
                        error,
                    ),
            }
        }),
{
    law_first_match_decides(mapping, status, failure);
    let error = error_in(failure);
    assert forall|j: int|
        0 <= j < mapping.rules.len() && !rule_matches(
            (#[trigger] mapping.rules[j]).matcher,
            status,
            error,
        ) implies misses(mapping.rules[j].matcher, status, error) by {
        lemma_misses(mapping.rules[j].matcher, status, error);
    }
    if let Some(retryable) = mapped(mapping, status, failure) {
        let i = choose|i: int|
            {
                &&& 0 <= i < mapping.rules.len()
                &&& retryable == (#[trigger] mapping.rules[i]).retryable
                &&& rule_matches(mapping.rules[i].matcher, status, error)
                &&& forall|j: int|
                    0 <= j < i ==> !rule_matches(
                        (#[trigger] mapping.rules[j]).matcher,
                        status,
                        error,
                    )
            };
        let matcher = mapping.rules[i].matcher;
        if matcher.message_contains is Some {
            lemma_split_by(error.at("message"@)->Text_0, matcher.message_contains->Some_0);
        }
    }
}

/// Some given condition of a rule does not hold of an error.
pub open spec fn misses(matcher: MatchView, status: u16, error: Tree) -> bool {
    ||| matcher.codes.len() > 0 && forall|i: int|
        0 <= i < matcher.codes.len() ==> error.at("code"@) != Tree::Text(#[trigger] matcher.codes[i])
    ||| matcher.types.len() > 0 && forall|i: int|
        0 <= i < matcher.types.len() ==> error.at("type"@) != Tree::Text(#[trigger] matcher.types[i])
    ||| matcher.http_statuses.len() > 0 && forall|i: int|
        0 <= i < matcher.http_statuses.len() ==> #[trigger] matcher.http_statuses[i] != status
    ||| matcher.message_contains matches Some(needle) && (error.at("message"@) matches Tree::Text(
        message,
    ) ==> !split_by(message, needle))
}

/// A text is something, then a needle, then something.
pub open spec fn split_by(text: Seq<char>, needle: Seq<char>) -> bool {
    exists|before: Seq<char>, after: Seq<char>| text == #[trigger] (before + needle + after)
}

proof fn lemma_split_by(text: Seq<char>, needle: Seq<char>)
    ensures
        split_by(text, needle) <==> occurs(needle, text),
{
    if occurs(needle, text) {
        let k = choose|k: int| #[trigger] occurs_at(needle, text, k);
        let before = text.take(k);
        let after = text.skip(k + needle.len());
        assert(text =~= before + needle + after);
    }
    if split_by(text, needle) {
        let (before, after): (Seq<char>, Seq<char>) = choose|before: Seq<char>, after: Seq<char>|
            text == #[trigger] (before + needle + after);
        let k = before.len() as int;
        assert(text.subrange(k, k + needle.len()) =~= needle);
        assert(occurs_at(needle, text, k));
    }
}

/// A rule matches where no given condition of it fails.
pub proof fn lemma_misses(matcher: MatchView, status: u16, error: Tree)
    ensures
        rule_matches(matcher, status, error) <==> !misses(matcher, status, error),
{
    if matcher.message_contains is Some && error.at("message"@) is Text {
        lemma_split_by(error.at("message"@)->Text_0, matcher.message_contains->Some_0);
    }
    if matcher.codes.len() > 0 && error.at("code"@) is Text && matcher.codes.contains(
        error.at("code"@)->Text_0,
    ) {
        let i = choose|i: int|
            0 <= i < matcher.codes.len() && matcher.codes[i] == error.at("code"@)->Text_0;
        assert(error.at("code"@) == Tree::Text(matcher.codes[i]));
    }
    if matcher.types.len() > 0 && error.at("type"@) is Text && matcher.types.contains(
        error.at("type"@)->Text_0,
    ) {
        let i = choose|i: int|
            0 <= i < matcher.types.len() && matcher.types[i] == error.at("type"@)->Text_0;
        assert(error.at("type"@) == Tree::Text(matcher.types[i]));
    }
    if matcher.http_statuses.contains(status) {
        let i = choose|i: int|
            0 <= i < matcher.http_statuses.len() && matcher.http_statuses[i] == status;
        assert(matcher.http_statuses[i] == status);
    }
}

/// What a client reads of a mapped failure: a server error with the code that marks it
/// as retryable and the message of the rule, with the delay in milliseconds where the
/// rule has one, and nothing else of the error that was. The response has failed, and
/// all else of the event stays.
pub proof fn law_rewriting_tells_the_rule(retryable: RetryableView, failure: Tree, key: Seq<char>)
    requires
        retryable.delay matches Some(delay) ==> delay.nanos / 1_000_000 <= u64::MAX,
    ensures
        ({
            let event = rewritten(retryable, failure);
            let response = event.at("response"@);
            let error = response.at("error"@);
            &&& error is Object
            &&& error.at("type"@) == Tree::Text("server_error"@)
            &&& error.at("code"@) == Tree::Text("cpa_retryable"@)
            &&& error.at("message"@) == Tree::Text(retryable.message)
            &&& match retryable.delay {
                Some(delay) => error.at("retry_after_ms"@) is Unsigned && error.at(
                    "retry_after_ms"@,
                )->Unsigned_0 == delay.nanos / 1_000_000,
                None => error.find("retry_after_ms"@) is None,
            }
            &&& error.find(key) is Some ==> key == "type"@ || key == "code"@ || key == "message"@
                || key == "retry_after_ms"@
            &&& response.at("status"@) == Tree::Text("failed"@)
            &&& failure is Object && key != "response"@ ==> event.find(key) == failure.find(key)
            &&& failure.at("response"@) is Object && key != "error"@ && key != "status"@
                ==> response.find(key) == failure.at("response"@).find(key)
        }),
{
    law_rewrite_replaces_the_error(retryable, failure);
    reveal_strlit("type");
    reveal_strlit("code");
    reveal_strlit("message");
    reveal_strlit("retry_after_ms");
    assert("type"@.len() == 4 && "code"@.len() == 4 && "message"@.len() == 7
        && "retry_after_ms"@.len() == 14);
    assert("type"@[0] == 't' && "code"@[0] == 'c');
}

/// The members of the error that a client reads of a mapped failure.
pub proof fn lemma_replacement(retryable: RetryableView)
    ensures
        ({
            let error = replacement(retryable);
            &&& error.at("type"@) == Tree::Text("server_error"@)
            &&& error.at("code"@) == Tree::Text("cpa_retryable"@)
            &&& error.at("message"@) == Tree::Text(retryable.message)
            &&& retryable.delay is None ==> error.find("retry_after_ms"@) is None
            &&& retryable.delay is Some ==> error.at("retry_after_ms"@) == Tree::Unsigned(
                (retryable.delay->Some_0.nanos / MILLI) as u64,
            )
        }),
{
    reveal_strlit("type");
    reveal_strlit("code");
    reveal_strlit("message");
    reveal_strlit("retry_after_ms");
    assert("type"@.len() == 4 && "code"@.len() == 4 && "message"@.len() == 7
        && "retry_after_ms"@.len() == 14);
    assert("type"@[0] == 't' && "code"@[0] == 'c');
}

/// What a message stands for. JSON that is a failure event stays as it is. JSON with a
/// structured error becomes a failed response around that error. Anything else becomes
/// a failed response whose error holds the message as it is, and no code, type or
/// status.
pub proof fn law_messages_become_failures(parsed: Option<Tree>, message: Seq<char>, key: Seq<char>)
    ensures
        ({
            let event = failure_of(parsed, message);
            let response = event.at("response"@);
            let ready = parsed matches Some(value) && value.at("type"@) == Tree::Text(
                "response.failed"@,
            ) && value.at("response"@).at("error"@) is Object;
            let structured = parsed matches Some(value) && value.at("error"@) is Object;
            &&& ready ==> event == parsed->Some_0
            &&& !ready ==> {
                &&& event.at("type"@) == Tree::Text("response.failed"@)
                &&& response.at("status"@) == Tree::Text("failed"@)
                &&& event.find(key) is Some ==> key == "type"@ || key == "response"@
                &&& response.find(key) is Some ==> key == "status"@ || key == "error"@
            }
            &&& !ready && structured ==> response.at("error"@) == parsed->Some_0.at("error"@)
            &&& !ready && !structured ==> {
                &&& response.at("error"@).at("message"@) == Tree::Text(message)
                &&& response.at("error"@).find(key) is Some ==> key == "message"@
            }
        }),
{
    reveal_strlit("type");
    reveal_strlit("response");
    reveal_strlit("status");
    reveal_strlit("error");
    assert("type"@.len() == 4 && "response"@.len() == 8);
    assert("status"@.len() == 6 && "error"@.len() == 5);
}

/// The record of a failure names the event in its first line and carries the text in
/// its second; a blank line ends it.
pub proof fn law_records_name_the_event(text: Seq<char>)
    ensures
        failed_record(text) == "event: response.failed"@ + "\n"@ + "data: "@ + text + "\n"@ + "\n"@,
{
    reveal_strlit("event: response.failed\ndata: ");
    reveal_strlit("event: response.failed");
    reveal_strlit("data: ");
    reveal_strlit("\n");
    reveal_strlit("\n\n");
    assert("event: response.failed\ndata: "@ =~= "event: response.failed"@ + "\n"@ + "data: "@);
    assert("\n\n"@ =~= "\n"@ + "\n"@);
    assert(failed_record(text) =~= "event: response.failed"@ + "\n"@ + "data: "@ + text + "\n"@
        + "\n"@);
}

/// Decimal digits are read from the left, each new one counting ten times less.
pub proof fn law_digits_are_decimal(digits: Seq<char>, last: char)
    ensures
        decimal(Seq::empty()) == 0,
        decimal(digits.push(last)) == 10 * decimal(digits) + (last as u32 - 48) as nat,
{
    assert(digits.push(last).drop_last() == digits);
}

/// A delay is a number of milliseconds, seconds or minutes, of at most five minutes.
pub proof fn law_delays_are_read(digits: Seq<char>)
    requires
        digits.len() > 0,
        forall|i: int| 0 <= i < digits.len() ==> '0' <= #[trigger] digits[i] <= '9',
    ensures
        ({
            let n = decimal(digits);
            let too_long = Err::<Option<Duration>, Seq<char>>("delay must not exceed 5 minutes"@);
            &&& n <= 300_000 ==> (configured_delay(Some(digits + "ms"@)) matches Ok(Some(delay))
                && delay.nanos == n * 1_000_000)
            &&& n > 300_000 ==> configured_delay(Some(digits + "ms"@)) == too_long
            &&& n <= 300 ==> (configured_delay(Some(digits + "s"@)) matches Ok(Some(delay))
                && delay.nanos == n * 1_000_000_000)
            &&& n > 300 ==> configured_delay(Some(digits + "s"@)) == too_long
            &&& n <= 5 ==> (configured_delay(Some(digits + "m"@)) matches Ok(Some(delay))
                && delay.nanos == n * 60_000_000_000)
            &&& n > 5 ==> configured_delay(Some(digits + "m"@)) == too_long
        }),
{
    reveal_strlit("ms");
    reveal_strlit("s");
    reveal_strlit("m");
    let n = digits.len() as int;
    let millis = digits + "ms"@;
    let seconds = digits + "s"@;
    let minutes = digits + "m"@;
    assert(millis.take(n) =~= digits && seconds.take(n) =~= digits && minutes.take(n) =~= digits);
    assert(millis[n] == 'm' && millis[n + 1] == 's' && seconds[n] == 's' && minutes[n] == 'm');
    assert(is_digit(digits[n - 1]));
    assert forall|i: int| 0 <= i < digits.len() implies is_digit(#[trigger] digits[i]) by {
        assert('0' <= digits[i] <= '9');
    }
    assert(delay_parts(millis) == Some((digits, 1nat)));
    assert(delay_parts(seconds) == Some((digits, 1000nat)));
    assert(delay_parts(minutes) == Some((digits, 60_000nat)));
    let amount = decimal(digits);
    assert(amount * 1 == amount) by (nonlinear_arith);
    assert(delay_of(millis) == if amount <= 300_000 {
        Ok::<Duration, Seq<char>>(Duration { nanos: (amount * MILLI) as u128 })
    } else {
        Err("delay must not exceed 5 minutes"@)
    });
    assert(delay_of(seconds) == if amount <= 300 {
        Ok::<Duration, Seq<char>>(Duration { nanos: (amount * 1000 * MILLI) as u128 })
    } else {
        Err("delay must not exceed 5 minutes"@)
    });
    assert(delay_of(minutes) == if amount <= 5 {
        Ok::<Duration, Seq<char>>(Duration { nanos: (amount * 60_000 * MILLI) as u128 })
    } else {
        Err("delay must not exceed 5 minutes"@)
    });
}

/// Every delay that is read is digits with a unit: what has no unit is refused, and
/// what has one but is not all digits before it is too.
pub proof fn law_other_delays_are_refused(raw: Seq<char>)
    ensures
        raw.len() == 0 || (raw.last() != 's' && raw.last() != 'm') ==> configured_delay(Some(raw))
            == Err::<Option<Duration>, Seq<char>>("delay requires ms, s, or m"@),
        configured_delay(Some(raw)) is Ok ==> exists|n: int|
            {
                &&& 0 < n < raw.len() <= n + 2
                &&& #[trigger] raw.skip(n) == "ms"@ || raw.skip(n) == "s"@ || raw.skip(n) == "m"@
                &&& forall|i: int| 0 <= i < n ==> '0' <= #[trigger] raw[i] <= '9'
            },
        configured_delay(Some(raw)) matches Err(message) ==> message
            == "delay requires ms, s, or m"@ || message == "delay requires a nonnegative integer"@
            || message == "delay must not exceed 5 minutes"@,
        configured_delay(None) == Ok::<Option<Duration>, Seq<char>>(None),
{
    if configured_delay(Some(raw)) is Ok {
        let (digits, unit) = delay_parts(raw)->Some_0;
        let n = digits.len() as int;
        reveal_strlit("ms");
        reveal_strlit("s");
        reveal_strlit("m");
        assert forall|i: int| 0 <= i < n implies '0' <= #[trigger] raw[i] <= '9' by {
            assert(is_digit(digits[i]));
        }
        assert(raw.skip(n) =~= "ms"@ || raw.skip(n) =~= "s"@ || raw.skip(n) =~= "m"@);
    }
}

/// When a rule is faulty: its name is blank, longer than 128 bytes or taken by an
/// earlier rule; it asks for nothing; a condition is out of bounds; its message is
/// blank or longer than 4096 bytes; its delay is above five minutes or not in whole
/// milliseconds. The first of these that holds is reported.
pub proof fn law_faults_of_rules(rules: Seq<RuleView>, i: int)
    requires
        0 <= i < rules.len(),
    ensures
        ({
            let rule = rules[i];
            let m = rule.matcher;
            let misnamed = blank(rule.name) || encode_utf8(rule.name).len() > 128 || exists|j: int|
                0 <= j < i && (#[trigger] rules[j]).name == rule.name;
            let empty = m.codes.len() + m.types.len() + m.http_statuses.len() == 0
                && m.message_contains is None;
            let codes_fit = m.codes.len() <= 64 && forall|k: int|
                0 <= k < m.codes.len() ==> 1 <= (#[trigger] m.codes[k]).len() && encode_utf8(
                    m.codes[k],
                ).len() <= 256;
            let types_fit = m.types.len() <= 64 && forall|k: int|
                0 <= k < m.types.len() ==> 1 <= (#[trigger] m.types[k]).len() && encode_utf8(
                    m.types[k],
                ).len() <= 256;
            let statuses_fit = m.http_statuses.len() <= 200 && forall|k: int|
                0 <= k < m.http_statuses.len() ==> 400 <= #[trigger] m.http_statuses[k] <= 599;
            let needle_fits = m.message_contains matches Some(needle) ==> 1 <= needle.len()
                && encode_utf8(needle).len() <= 4096;
            let fits = codes_fit && types_fit && statuses_fit && needle_fits;
            let silent = blank(rule.retryable.message) || encode_utf8(rule.retryable.message).len()
                > 4096;
            let late = rule.retryable.delay matches Some(delay) && (delay.nanos
                > 300_000_000_000u128 || delay.nanos % 1_000_000 != 0);
            let fault = rule_error(rules, i);
            &&& misnamed ==> fault == Some(
                "error mapping rule names must be nonempty, unique, and at most 128 bytes"@,
            )
            &&& !misnamed && empty ==> fault == Some(
                "error mapping requires at least one match condition"@,
            )
            &&& !misnamed && !empty && !fits ==> fault == Some(
                "invalid error mapping match condition"@,
            )
            &&& !misnamed && !empty && fits && silent ==> fault == Some(
                "retryable message must be nonempty and at most 4096 bytes"@,
            )
            &&& !misnamed && !empty && fits && !silent && late ==> fault == Some(
                "retryable delay must use millisecond precision and not exceed 5 minutes"@,
            )
            &&& !misnamed && !empty && fits && !silent && !late ==> fault is None
        }),
{
    let m = rules[i].matcher;
    if conditions_fit(m) {
        assert forall|k: int| 0 <= k < m.codes.len() implies 1 <= (#[trigger] m.codes[k]).len()
            && encode_utf8(m.codes[k]).len() <= 256 by {
            assert(matchable(m.codes[k]));
        }
        assert forall|k: int| 0 <= k < m.types.len() implies 1 <= (#[trigger] m.types[k]).len()
            && encode_utf8(m.types[k]).len() <= 256 by {
            assert(matchable(m.types[k]));
        }
    }
}

/// When a mapping is faulty: it has more than 128 rules, or none though it is switched
/// on, or else what its first faulty rule reports.
pub proof fn law_faults_of_mappings(mapping: MappingView, i: int)
    ensures
        mapping.rules.len() > 128 ==> mapping_error(mapping) == Some(
            "error_mapping supports at most 128 rules"@,
        ),
        mapping.enabled && mapping.rules.len() == 0 ==> mapping_error(mapping) == Some(
            "enabled error_mapping requires rules"@,
        ),
        !mapping.enabled && mapping.rules.len() == 0 ==> mapping_error(mapping) is None,
        0 <= i < mapping.rules.len() <= 128 && rule_error(mapping.rules, i) is Some && (forall|
            j: int,
        |
            0 <= j < i ==> #[trigger] rule_error(mapping.rules, j) is None) ==> mapping_error(mapping)
            == rule_error(mapping.rules, i),
{
    if 0 <= i < mapping.rules.len() <= 128 && rule_error(mapping.rules, i) is Some && (forall|
        j: int,
    |
        0 <= j < i ==> #[trigger] rule_error(mapping.rules, j) is None) {
        lemma_first_fault(mapping.rules, 0, i);
    }
}

proof fn lemma_first_fault(rules: Seq<RuleView>, from: int, i: int)
    requires
        0 <= from <= i < rules.len(),
        rule_error(rules, i) is Some,
        forall|j: int| from <= j < i ==> #[trigger] rule_error(rules, j) is None,
    ensures
        first_rule_error(rules, from) == rule_error(rules, i),
    decreases i - from,
{
    if from < i {
        assert(rule_error(rules, from) is None);
        lemma_first_fault(rules, from + 1, i);
    }
}

/// A report says that nothing is wrong exactly where nothing is, and else what is.
pub proof fn law_reports_say_what_is_wrong(r: Result<(), String>, error: Option<Seq<char>>)
    requires
        reports(r, error),
    ensures
        r is Ok <==> error is None,
        r matches Err(message) ==> error == Some(message@),
{
}

/// A delay with a unit, but with anything else than digits in front of it, is refused.
pub proof fn law_delays_need_digits(amount: Seq<char>)
    requires
        amount.len() == 0 || exists|i: int|
            0 <= i < amount.len() && !('0' <= #[trigger] amount[i] <= '9'),
    ensures
        ({
            let refused = Err::<Option<Duration>, Seq<char>>(
                "delay requires a nonnegative integer"@,
            );
            &&& configured_delay(Some(amount + "ms"@)) == refused
            &&& configured_delay(Some(amount + "m"@)) == refused
            &&& configured_delay(Some(amount + "s"@)) == refused || amount.last() == 'm'
        }),
{
    reveal_strlit("ms");
    reveal_strlit("s");
    reveal_strlit("m");
    let n = amount.len() as int;
    let millis = amount + "ms"@;
    let seconds = amount + "s"@;
    let minutes = amount + "m"@;
    assert(millis.take(n) =~= amount && seconds.take(n) =~= amount && minutes.take(n) =~= amount);
    assert(millis[n] == 'm' && millis[n + 1] == 's' && seconds[n] == 's' && minutes[n] == 'm');
    assert(delay_parts(millis) == Some((amount, 1nat)));
    assert(delay_parts(minutes) == Some((amount, 60_000nat)));
    if n == 0 || amount.last() != 'm' {
        assert(delay_parts(seconds) == Some((amount, 1000nat)));
    }
    if n > 0 {
        let i = choose|i: int| 0 <= i < amount.len() && !('0' <= #[trigger] amount[i] <= '9');
        assert(!is_digit(amount[i]));
    }
}

} // verus!
