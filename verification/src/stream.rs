//! Rewriting the failures in a stream of server-sent events.
use crate::error_mapping::{
    error_in, failed_record, failure_from, failure_of, is_failure, law_every_given_condition_counts,
    law_failures_come_back, law_first_match_decides, law_messages_become_failures,
    law_rewrite_replaces_the_error, lemma_misses, lemma_replacement, mapped, misses, rewritten,
    rule_matches, sse, ErrorMapping, MappingView,
};
use crate::framing::{
    blank_at, data, data_of, delimiter, first_end, frames, joined, lemma_first_end_from,
    lemma_joined_add, lemma_rest_is_open, lemma_split_anywhere, lemma_split_keeps, rest, unbroken,
};
use crate::json::{read_bytes, read_text, tree_of, written, Json, Tree};
use crate::text::{blank, from_utf8, lemma_trim, same, tight, trim, trims_to, white_space};
use vstd::prelude::*;
use vstd::slice::{slice_subrange, slice_to_vec};
use vstd::utf8::{decode_utf8, encode_utf8, valid_utf8};

verus! {

broadcast use vstd::string::group_string_axioms;

/// Incomplete frames are held back up to this many bytes.
pub const MAX_PENDING: usize = 1_048_576;

/// Rewrites a stream of events frame by frame, whatever the pieces it comes in.
/// A frame that outgrows the buffer ends the rewriting for this stream.
pub struct SseMapper {
    mapping: ErrorMapping,
    pending: Vec<u8>,
    bypass: bool,
    scan: usize,
}

/// The state of a mapper: its rules, the bytes held back, and whether it only
/// passes bytes on.
pub struct MapperView {
    pub mapping: MappingView,
    pub pending: Seq<u8>,
    pub bypass: bool,
}

/// The failure that the data of an event announces, given what JSON was read from it.
pub open spec fn announced(parsed: Option<Tree>, data: Seq<char>) -> Option<Tree> {
    match parsed {
        Some(value) => if value.at("type"@) == Tree::Text("response.failed"@) {
            Some(value)
        } else if value.at("type"@) == Tree::Text("error"@) && value.at("error"@) is Object {
            Some(failure_of(parsed, data))
        } else {
            None
        },
        None => None,
    }
}

/// The failure in a frame.
pub open spec fn failure_in(frame: Seq<u8>) -> Option<Tree> {
    if valid_utf8(frame) {
        let data = data_of(decode_utf8(frame));
        announced(read_text(data), data)
    } else {
        None
    }
}

/// What becomes of a frame: a failure that a rule matches is rewritten, anything
/// else stays as it is.
pub open spec fn frame_out(mapping: MappingView, frame: Seq<u8>) -> Seq<u8> {
    match failure_in(frame) {
        Some(failure) => match mapped(mapping, 0, failure) {
            Some(retryable) => encode_utf8(failed_record(written(rewritten(retryable, failure)))),
            None => frame,
        },
        None => frame,
    }
}

/// What becomes of frames, one after the other.
pub open spec fn frames_out(mapping: MappingView, list: Seq<Seq<u8>>) -> Seq<u8> {
    joined(list.map_values(|frame: Seq<u8>| frame_out(mapping, frame)))
}

/// A mapper after bytes came in.
pub open spec fn pushed(mapper: MapperView, bytes: Seq<u8>) -> MapperView {
    if mapper.bypass {
        mapper
    } else {
        let left = rest(mapper.pending + bytes);
        if left.len() > MAX_PENDING {
            MapperView { pending: Seq::empty(), bypass: true, ..mapper }
        } else {
            MapperView { pending: left, ..mapper }
        }
    }
}

/// What goes out when bytes come in.
pub open spec fn pushed_out(mapper: MapperView, bytes: Seq<u8>) -> Seq<u8> {
    if mapper.bypass {
        bytes
    } else {
        let whole = mapper.pending + bytes;
        let out = frames_out(mapper.mapping, frames(whole));
        if rest(whole).len() > MAX_PENDING {
            out + rest(whole)
        } else {
            out
        }
    }
}

/// Bytes without an end of line.
pub open spec fn one_line(bytes: Seq<u8>) -> bool {
    !bytes.contains(10u8) && !bytes.contains(13u8)
}

/// `data:` in bytes.
pub open spec fn data_prefix() -> Seq<u8> {
    seq![100u8, 97u8, 116u8, 97u8, 58u8]
}

/// `event:` in bytes.
pub open spec fn event_prefix() -> Seq<u8> {
    seq![101u8, 118u8, 101u8, 110u8, 116u8, 58u8]
}

/// A complete `data:` record: it closes the stream, or its value reads as JSON.
pub open spec fn complete_record(value: Seq<u8>, json: bool) -> bool {
    json || (valid_utf8(value) && trims_to(decode_utf8(value), "[DONE]"@))
}

/// A chunk from the host with the line ends that the host leaves out; `json` says
/// whether what follows a `data:` at its start reads as JSON.
pub open spec fn reframed(bytes: Seq<u8>, json: bool) -> Seq<u8> {
    if one_line(bytes) && data_prefix().is_prefix_of(bytes) && complete_record(bytes.skip(5), json) {
        bytes + seq![10u8, 10u8]
    } else if one_line(bytes) && event_prefix().is_prefix_of(bytes) {
        bytes + seq![10u8]
    } else {
        bytes
    }
}

/// The failure that the data of an event announces, given what JSON was read from it.
pub fn announced_failure(parsed: Option<Json>, data: &str) -> (r: Option<Json>)
    ensures
        tree_of(r) == announced(tree_of(parsed), data@),
{
    match parsed {
        Some(value) => {
            if value.is_text_at("type", "response.failed") {
                return Some(value);
            }
            if value.is_text_at("type", "error") {
                let structured = match value.get("error") {
                    Some(error) => error.is_object(),
                    None => false,
                };
                if structured {
                    return Some(failure_from(Some(value), data));
                }
            }
            None
        },
        None => None,
    }
}

fn is_one_line(bytes: &[u8]) -> (r: bool)
    ensures
        r == one_line(bytes@),
{
    let mut i: usize = 0;
    while i < bytes.len()
        invariant
            i <= bytes@.len(),
            forall|k: int| 0 <= k < i ==> bytes@[k] != 10 && bytes@[k] != 13,
        decreases bytes@.len() - i,
    {
        if bytes[i] == 10 || bytes[i] == 13 {
            assert(bytes@.contains(bytes@[i as int]));
            return false;
        }
        i += 1;
    }
    true
}

fn starts_with_data(bytes: &[u8]) -> (r: bool)
    ensures
        r == data_prefix().is_prefix_of(bytes@),
{
    let r = bytes.len() >= 5 && bytes[0] == 100 && bytes[1] == 97 && bytes[2] == 116 && bytes[3] == 97
        && bytes[4] == 58;
    proof {
        if bytes@.len() >= 5 {
            let head = bytes@.subrange(0, 5);
            assert(head[0] == bytes@[0] && head[1] == bytes@[1] && head[2] == bytes@[2] && head[3]
                == bytes@[3] && head[4] == bytes@[4]);
            if r {
                assert(head =~= data_prefix());
            }
        }
    }
    r
}

fn starts_with_event(bytes: &[u8]) -> (r: bool)
    ensures
        r == event_prefix().is_prefix_of(bytes@),
{
    let r = bytes.len() >= 6 && bytes[0] == 101 && bytes[1] == 118 && bytes[2] == 101 && bytes[3]
        == 110 && bytes[4] == 116 && bytes[5] == 58;
    proof {
        if bytes@.len() >= 6 {
            let head = bytes@.subrange(0, 6);
            assert(head[0] == bytes@[0] && head[1] == bytes@[1] && head[2] == bytes@[2] && head[3]
                == bytes@[3] && head[4] == bytes@[4] && head[5] == bytes@[5]);
            if r {
                assert(head =~= event_prefix());
            }
        }
    }
    r
}

/// Whether the value of a record closes the stream.
fn is_done(value: &[u8]) -> (r: bool)
    ensures
        r == (valid_utf8(value@) && trims_to(decode_utf8(value@), "[DONE]"@)),
{
    broadcast use vstd::utf8::encode_utf8_decode_utf8;

    match from_utf8(value) {
        Some(text) => {
            let core = trim(text);
            proof {
                assert(decode_utf8(value@) == text@);
                lemma_trim(text@, core@);
            }
            same(core, "[DONE]")
        },
        None => false,
    }
}

fn extend(bytes: &mut Vec<u8>, more: &[u8])
    ensures
        final(bytes)@ == old(bytes)@ + more@,
{
    let ghost before = bytes@;
    bytes.extend_from_slice(more);
    assert(bytes@ =~= before + more@);
}

impl View for SseMapper {
    type V = MapperView;

    closed spec fn view(&self) -> MapperView {
        MapperView { mapping: self.mapping@, pending: self.pending@, bypass: self.bypass }
    }
}

impl SseMapper {
    /// No blank line stands before the place where the search goes on.
    #[verifier::type_invariant]
    spec fn searched(self) -> bool {
        self.bypass || self.scan == 0 || (self.scan + 3 <= self.pending@.len() && forall|p: int|
            0 <= p < self.scan ==> #[trigger] delimiter(self.pending@, p) == 0)
    }

    pub fn new(mapping: ErrorMapping) -> (r: SseMapper)
        ensures
            r@ == (MapperView { mapping: mapping@, pending: Seq::empty(), bypass: false }),
    {
        SseMapper { mapping, pending: Vec::new(), bypass: false, scan: 0 }
    }

    fn rewrite_frame(&self, frame: &[u8]) -> (r: Vec<u8>)
        ensures
            r@ == frame_out(self@.mapping, frame@),
    {
        broadcast use vstd::utf8::encode_utf8_decode_utf8;

        let text = match from_utf8(frame) {
            Some(text) => text,
            None => {
                return slice_to_vec(frame);
            },
        };
        assert(decode_utf8(frame@) == text@);
        let data = data(text);
        match announced_failure(Json::parse(data.as_str()), data.as_str()) {
            Some(failure) => match self.mapping.map(0, &failure) {
                Some(mapped) => {
                    assert(is_failure(failure@));
                    sse(&mapped.rewrite(failure))
                },
                None => slice_to_vec(frame),
            },
            None => slice_to_vec(frame),
        }
    }

    /// Takes bytes in, and gives out what is complete.
    pub fn push(&mut self, bytes: &[u8]) -> (r: Vec<u8>)
        ensures
            final(self)@ == pushed(old(self)@, bytes@),
            r@ == pushed_out(old(self)@, bytes@),
    {
        if self.bypass {
            return slice_to_vec(bytes);
        }
        proof {
            use_type_invariant(&*self);
        }
        let ghost held = self.pending@;
        let ghost mapping = self.mapping@;
        let ghost whole = self.pending@ + bytes@;
        let mut cursor: usize = self.scan;
        self.scan = 0;
        let mut all: Vec<u8> = Vec::new();
        std::mem::swap(&mut all, &mut self.pending);
        extend(&mut all, bytes);
        let mut output: Vec<u8> = Vec::new();
        let mut start: usize = 0;
        let ghost mut done: Seq<Seq<u8>> = Seq::empty();
        proof {
            assert(whole.skip(0) == whole);
            assert(done.map_values(|f: Seq<u8>| frame_out(mapping, f)) == Seq::<Seq<u8>>::empty());
            assert(done + frames(whole) == frames(whole));
            assert forall|p: int| 0 <= p < cursor implies #[trigger] delimiter(whole, p) == 0 by {
                assert(delimiter(held, p) == 0);
            }
        }
        while cursor < all.len()
            invariant
                all@ == whole,
                self.mapping@ == mapping,
                self@.mapping == mapping,
                start <= cursor <= whole.len(),
                frames(whole) == done + frames(whole.skip(start as int)),
                rest(whole) == rest(whole.skip(start as int)),
                output@ == frames_out(mapping, done),
                forall|p: int| start <= p < cursor ==> #[trigger] delimiter(whole, p) == 0,
            decreases whole.len() - cursor,
        {
            let left = all.len() - cursor;
            let length: usize = if left >= 4 && all[cursor] == 13 && all[cursor + 1] == 10
                && all[cursor + 2] == 13 && all[cursor + 3] == 10 {
                4
            } else if left >= 2 && all[cursor] == 10 && all[cursor + 1] == 10 {
                2
            } else {
                0
            };
            assert(length == delimiter(whole, cursor as int));
            if length == 0 {
                cursor += 1;
            } else {
                let end = cursor + length;
                let frame = slice_subrange(all.as_slice(), start, end);
                let mut rewritten = self.rewrite_frame(frame);
                output.append(&mut rewritten);
                proof {
                    let tail = whole.skip(start as int);
                    assert forall|p: int| 0 <= p < cursor - start implies #[trigger] delimiter(tail, p)
                        == 0 by {
                        assert(delimiter(whole, start + p) == 0);
                        lemma_delimiter_skip(whole, start as int, p);
                    }
                    lemma_delimiter_skip(whole, start as int, cursor - start);
                    lemma_first_end_from(tail, 0, cursor - start);
                    assert(first_end(tail, 0) == Some(end - start));
                    assert(tail.take(end - start) == frame@);
                    assert(tail.skip(end - start) == whole.skip(end as int));
                    let next = done.push(frame@);
                    assert(done + (seq![frame@] + frames(whole.skip(end as int))) == next + frames(
                        whole.skip(end as int),
                    ));
                    let outs = done.map_values(|f: Seq<u8>| frame_out(mapping, f));
                    let next_outs = next.map_values(|f: Seq<u8>| frame_out(mapping, f));
                    assert(next_outs == outs.push(frame_out(mapping, frame@)));
                    assert(next_outs.drop_last() == outs);
                    done = next;
                }
                start = end;
                cursor = end;
            }
        }
        let left = all.split_off(start);
        proof {
            let tail = whole.skip(start as int);
            assert(left@ == tail);
            assert forall|p: int| 0 <= p < tail.len() implies #[trigger] delimiter(tail, p) == 0 by {
                assert(delimiter(whole, start + p) == 0);
                lemma_delimiter_skip(whole, start as int, p);
            }
            lemma_first_end_from(tail, 0, tail.len() as int);
            assert(done + frames(tail) == done);
            assert(rest(whole) == tail);
        }
        if left.len() > MAX_PENDING {
            self.bypass = true;
            let mut left = left;
            output.append(&mut left);
        } else {
            let scan: usize = if left.len() > 3 {
                left.len() - 3
            } else {
                0
            };
            self.pending = left;
            self.scan = scan;
        }
        output
    }

    /// Takes in a chunk from the host. `json` says whether what follows a `data:`
    /// at its start reads as JSON.
    pub fn push_record(&mut self, bytes: &[u8], json: bool) -> (r: Vec<u8>)
        ensures
            final(self)@ == pushed(old(self)@, reframed(bytes@, json)),
            r@ == pushed_out(old(self)@, reframed(bytes@, json)),
    {
        if !is_one_line(bytes) {
            return self.push(bytes);
        }
        if starts_with_data(bytes) {
            let value = slice_subrange(bytes, 5, bytes.len());
            assert(value@ == bytes@.skip(5));
            assert(!event_prefix().is_prefix_of(bytes@));
            if json || is_done(value) {
                let mut framed = slice_to_vec(bytes);
                framed.push(10);
                framed.push(10);
                assert(framed@ == bytes@ + seq![10u8, 10u8]);
                return self.push(framed.as_slice());
            }
        } else if starts_with_event(bytes) {
            let mut line = slice_to_vec(bytes);
            line.push(10);
            assert(line@ == bytes@ + seq![10u8]);
            return self.push(line.as_slice());
        }
        self.push(bytes)
    }

    /// Takes in a chunk from the host, which hands over single lines without their
    /// ends. Records that are complete are framed; anything else is taken as a piece
    /// of a framed stream.
    pub fn push_host_chunk(&mut self, bytes: &[u8]) -> (r: Vec<u8>)
        ensures
            final(self)@ == pushed(
                old(self)@,
                reframed(bytes@, read_bytes(bytes@.skip(5)) is Some),
            ),
            r@ == pushed_out(old(self)@, reframed(bytes@, read_bytes(bytes@.skip(5)) is Some)),
    {
        if starts_with_data(bytes) {
            let value = slice_subrange(bytes, 5, bytes.len());
            assert(value@ == bytes@.skip(5));
            let json = Json::parse_bytes(value).is_some();
            self.push_record(bytes, json)
        } else {
            self.push_record(bytes, false)
        }
    }

    /// Ends the stream: gives out what was held back.
    pub fn finish(&mut self) -> (r: Vec<u8>)
        ensures
            r@ == old(self)@.pending,
            final(self)@ == (MapperView { pending: Seq::empty(), ..old(self)@ }),
    {
        self.scan = 0;
        let mut left: Vec<u8> = Vec::new();
        std::mem::swap(&mut left, &mut self.pending);
        left
    }
}

proof fn lemma_delimiter_skip(bytes: Seq<u8>, start: int, p: int)
    requires
        0 <= start <= bytes.len(),
        0 <= p,
    ensures
        delimiter(bytes.skip(start), p) == delimiter(bytes, start + p),
{
}

// ---------------------------------------------------------------------------
// Laws

/// How the stream is cut into pieces changes nothing: two pieces give out together
/// what both at once give out, and leave the same state. This needs that what the
/// first piece leaves open fits the buffer.
pub proof fn law_pieces(mapper: MapperView, a: Seq<u8>, b: Seq<u8>)
    requires
        mapper.bypass || rest(mapper.pending + a).len() <= MAX_PENDING,
    ensures
        pushed(pushed(mapper, a), b) == pushed(mapper, a + b),
        pushed_out(mapper, a) + pushed_out(pushed(mapper, a), b) == pushed_out(mapper, a + b),
{
    if !mapper.bypass {
        let first = mapper.pending + a;
        lemma_split_anywhere(first, b);
        assert(mapper.pending + (a + b) == first + b);
        let f = |frame: Seq<u8>| frame_out(mapper.mapping, frame);
        let left = frames(first);
        let right = frames(rest(first) + b);
        assert((left + right).map_values(f) == left.map_values(f) + right.map_values(f));
        lemma_joined_add(left.map_values(f), right.map_values(f));
        let tail = rest(first + b);
        assert(joined(left.map_values(f)) + (joined(right.map_values(f)) + tail) == joined(
            left.map_values(f),
        ) + joined(right.map_values(f)) + tail);
    }
}

/// A frame that no rule matches goes out byte for byte; where this holds of every
/// frame, nothing is lost, added or moved: what goes out and what is held back make
/// up what was held back and what came in.
pub proof fn law_unmatched_passes(mapper: MapperView, bytes: Seq<u8>)
    requires
        forall|frame: Seq<u8>| #[trigger]
            frames(mapper.pending + bytes).contains(frame) ==> (failure_in(frame) matches Some(failure)
                ==> mapped(mapper.mapping, 0, failure) is None),
        mapper.bypass ==> mapper.pending.len() == 0,
    ensures
        pushed_out(mapper, bytes) + pushed(mapper, bytes).pending == mapper.pending + bytes,
{
    let whole = mapper.pending + bytes;
    if mapper.bypass {
        assert(bytes + mapper.pending == whole);
    } else {
        let list = frames(whole);
        let f = |frame: Seq<u8>| frame_out(mapper.mapping, frame);
        assert forall|i: int| 0 <= i < list.len() implies #[trigger] list.map_values(f)[i] == list[i] by {
            assert(list.contains(list[i]));
        }
        assert(list.map_values(f) == list);
        lemma_split_keeps(whole);
        assert(joined(list) + rest(whole) + Seq::<u8>::empty() == joined(list) + rest(whole));
    }
}

/// A mapper that is switched off passes every stream on unchanged.
pub proof fn law_disabled_passes(mapper: MapperView, bytes: Seq<u8>)
    requires
        !mapper.mapping.enabled,
        mapper.bypass ==> mapper.pending.len() == 0,
    ensures
        pushed_out(mapper, bytes) + pushed(mapper, bytes).pending == mapper.pending + bytes,
{
    law_unmatched_passes(mapper, bytes);
}

/// What is held back never exceeds the buffer, and holds no complete frame. Once
/// an incomplete frame has outgrown it, nothing is held back any more.
pub proof fn law_buffer_is_bounded(mapper: MapperView, bytes: Seq<u8>)
    requires
        !mapper.bypass,
    ensures
        pushed(mapper, bytes).pending.len() <= MAX_PENDING,
        frames(pushed(mapper, bytes).pending).len() == 0,
        pushed(mapper, bytes).bypass ==> pushed(mapper, bytes).pending.len() == 0,
{
    lemma_rest_is_open(mapper.pending + bytes);
    assert(first_end(Seq::<u8>::empty(), 0) is None);
}

/// Once a frame has outgrown the buffer, the stream passes unchanged for good.
pub proof fn law_bypass_is_final(mapper: MapperView, bytes: Seq<u8>)
    requires
        mapper.bypass,
    ensures
        pushed(mapper, bytes) == mapper,
        pushed_out(mapper, bytes) == bytes,
{
}

/// The failure that a frame announces, told by the fields of the rules: where its data
/// are JSON of type `error` with a structured error, or of type `response.failed` with
/// one in its response, and some rule of an enabled mapping has no condition that
/// fails of that error, the frame goes out as a failure record. It tells what the
/// first such rule says.
pub proof fn law_matched_frames_are_rewritten(
    mapping: MappingView,
    frame: Seq<u8>,
    value: Tree,
    i: int,
)
    requires
        valid_utf8(frame),
        read_text(data_of(decode_utf8(frame))) == Some(value),
        mapping.enabled,
        0 <= i < mapping.rules.len(),
        ({
            let error = if value.at("type"@) == Tree::Text("error"@) {
                value.at("error"@)
            } else {
                value.at("response"@).at("error"@)
            };
            &&& value.at("type"@) == Tree::Text("error"@) || value.at("type"@) == Tree::Text(
                "response.failed"@,
            )
            &&& error is Object
            &&& error.at("code"@) != Tree::Text("cpa_retryable"@)
            &&& !misses(mapping.rules[i].matcher, 0, error)
        }),
    ensures
        exists|j: int, event: Tree|
            {
                let rule = #[trigger] mapping.rules[j];
                let error = event.at("response"@).at("error"@);
                &&& 0 <= j <= i
                &&& frame_out(mapping, frame) == encode_utf8(
                    "event: response.failed\ndata: "@ + #[trigger] written(event) + "\n\n"@,
                )
                &&& event.at("type"@) == Tree::Text("response.failed"@)
                &&& event.at("response"@).at("status"@) == Tree::Text("failed"@)
                &&& error.at("code"@) == Tree::Text("cpa_retryable"@)
                &&& error.at("type"@) == Tree::Text("server_error"@)
                &&& error.at("message"@) == Tree::Text(rule.retryable.message)
                &&& rule.retryable.delay is None ==> error.find("retry_after_ms"@) is None
                &&& rule.retryable.delay is Some ==> error.at("retry_after_ms"@) == Tree::Unsigned(
                    (rule.retryable.delay->Some_0.nanos / 1_000_000) as u64,
                )
                &&& value.at("type"@) == Tree::Text("response.failed"@) ==> forall|key: Seq<char>|
                    key != "response"@ ==> #[trigger] event.find(key) == value.find(key)
                &&& forall|k: int|
                    0 <= k < j ==> misses(
                        (#[trigger] mapping.rules[k]).matcher,
                        0,
                        if value.at("type"@) == Tree::Text("error"@) {
                            value.at("error"@)
                        } else {
                            value.at("response"@).at("error"@)
                        },
                    )
            },
{
    reveal_strlit("error");
    reveal_strlit("response.failed");
    assert("error"@.len() != "response.failed"@.len());
    let data = data_of(decode_utf8(frame));
    let failure = failure_in(frame)->Some_0;
    law_failures_come_back(Some(value), data);
    law_messages_become_failures(Some(value), data, "type"@);
    let error = error_in(failure);
    law_every_given_condition_counts(mapping, 0, failure);
    let retryable = mapped(mapping, 0, failure)->Some_0;
    let j = choose|j: int|
        {
            &&& 0 <= j < mapping.rules.len()
            &&& retryable == (#[trigger] mapping.rules[j]).retryable
            &&& forall|k: int| 0 <= k < j ==> misses((#[trigger] mapping.rules[k]).matcher, 0, error)
        };
    assert(j <= i) by {
        if i < j {
            assert(misses(mapping.rules[i].matcher, 0, error));
        }
    }
    let event = rewritten(retryable, failure);
    law_rewrite_replaces_the_error(retryable, failure);
    lemma_replacement(retryable);
    reveal_strlit("type");
    reveal_strlit("response");
    assert("type"@.len() != "response"@.len());
    assert(event.find("type"@) == failure.find("type"@));
    assert(mapping.rules[j].retryable == retryable);
    assert(frame_out(mapping, frame) == encode_utf8(failed_record(written(event))));
}

/// Every other frame goes out byte for byte: one that is no text, whose data are no
/// JSON, are of another type or carry no structured error; one whose error is marked
/// as retryable already; every frame where the mapping is switched off, and one of
/// whose error every rule has a condition that fails.
pub proof fn law_other_frames_pass(mapping: MappingView, frame: Seq<u8>)
    requires
        ({
            let parsed = read_text(data_of(decode_utf8(frame)));
            let value = parsed->Some_0;
            let error = if value.at("type"@) == Tree::Text("error"@) {
                value.at("error"@)
            } else {
                value.at("response"@).at("error"@)
            };
            ||| !valid_utf8(frame)
            ||| parsed is None
            ||| value.at("type"@) != Tree::Text("error"@) && value.at("type"@) != Tree::Text(
                "response.failed"@,
            )
            ||| !(error is Object)
            ||| error.at("code"@) == Tree::Text("cpa_retryable"@)
            ||| !mapping.enabled
            ||| forall|i: int|
                0 <= i < mapping.rules.len() ==> misses((#[trigger] mapping.rules[i]).matcher, 0, error)
        }),
    ensures
        frame_out(mapping, frame) == frame,
{
    reveal_strlit("error");
    reveal_strlit("response.failed");
    assert("error"@.len() != "response.failed"@.len());
    if let Some(failure) = failure_in(frame) {
        let data = data_of(decode_utf8(frame));
        let value = read_text(data)->Some_0;
        law_messages_become_failures(Some(value), data, "type"@);
        law_every_given_condition_counts(mapping, 0, failure);
        if let Some(retryable) = mapped(mapping, 0, failure) {
            let error = error_in(failure);
            law_first_match_decides(mapping, 0, failure);
            let i = choose|i: int|
                {
                    &&& 0 <= i < mapping.rules.len()
                    &&& retryable == (#[trigger] mapping.rules[i]).retryable
                    &&& rule_matches(mapping.rules[i].matcher, 0, error)
                };
            lemma_misses(mapping.rules[i].matcher, 0, error);
        }
    }
}

/// A complete frame that comes in alone goes out as what becomes of it, at once, and
/// nothing is held back.
pub proof fn law_frames_go_out_one_by_one(mapper: MapperView, frame: Seq<u8>)
    requires
        !mapper.bypass,
        mapper.pending.len() == 0,
        frames(frame) == seq![frame],
        rest(frame).len() == 0,
    ensures
        pushed_out(mapper, frame) == frame_out(mapper.mapping, frame),
        pushed(mapper, frame) == mapper,
{
    assert(mapper.pending + frame =~= frame);
    let out = frame_out(mapper.mapping, frame);
    let list = seq![frame].map_values(|f: Seq<u8>| frame_out(mapper.mapping, f));
    assert(list =~= seq![out]);
    reveal_with_fuel(joined, 2);
    assert(seq![out].drop_last() =~= Seq::empty());
    assert(joined(seq![out]) =~= out);
    assert(rest(frame) =~= mapper.pending);
}

/// A piece without the end of a frame is held back, up to a buffer of a mebibyte. What
/// outgrows that goes out as it is, and from then on everything does.
pub proof fn law_open_frames_are_held_back(mapper: MapperView, bytes: Seq<u8>)
    requires
        !mapper.bypass,
        unbroken(mapper.pending + bytes),
    ensures
        ({
            let whole = mapper.pending + bytes;
            let (next, out) = (pushed(mapper, bytes), pushed_out(mapper, bytes));
            &&& next.mapping == mapper.mapping
            &&& whole.len() <= 1_048_576 ==> out.len() == 0 && next.pending == whole && !next.bypass
            &&& whole.len() > 1_048_576 ==> out == whole && next.pending.len() == 0 && next.bypass
        }),
{
    let whole = mapper.pending + bytes;
    assert forall|p: int| 0 <= p < whole.len() implies #[trigger] delimiter(whole, p) == 0 by {
        assert(!blank_at(whole, p));
    }
    lemma_first_end_from(whole, 0, whole.len() as int);
    let list = frames(whole).map_values(|f: Seq<u8>| frame_out(mapper.mapping, f));
    assert(list =~= Seq::empty());
    assert(joined(list) =~= Seq::empty());
    assert(Seq::<u8>::empty() + whole =~= whole);
}

/// How a chunk of the host is framed. A chunk with a line end in it stays as it is. A
/// line `data:` whose value reads as JSON, or is `[DONE]` but for white space around
/// it, gets a blank line; a line `event:` gets its line feed; any other one stays.
pub proof fn law_host_lines_are_framed(bytes: Seq<u8>, json: bool)
    ensures
        ({
            let broken = bytes.contains(10u8) || bytes.contains(13u8);
            let data = bytes.len() >= 5 && bytes[0] == 100 && bytes[1] == 97 && bytes[2] == 116
                && bytes[3] == 97 && bytes[4] == 58;
            let event = bytes.len() >= 6 && bytes[0] == 101 && bytes[1] == 118 && bytes[2] == 101
                && bytes[3] == 110 && bytes[4] == 116 && bytes[5] == 58;
            let done = valid_utf8(bytes.skip(5)) && padded(decode_utf8(bytes.skip(5)), "[DONE]"@);
            &&& broken ==> reframed(bytes, json) == bytes
            &&& !broken && data && (json || done) ==> reframed(bytes, json) == bytes + seq![
                10u8,
                10u8,
            ]
            &&& !broken && data && !json && !done ==> reframed(bytes, json) == bytes
            &&& !broken && event ==> reframed(bytes, json) == bytes + seq![10u8]
            &&& !broken && !data && !event ==> reframed(bytes, json) == bytes
        }),
{
    lemma_prefixes(bytes);
    reveal_strlit("[DONE]");
    lemma_padded(decode_utf8(bytes.skip(5)), "[DONE]"@);
}

proof fn lemma_prefixes(bytes: Seq<u8>)
    ensures
        data_prefix().is_prefix_of(bytes) <==> bytes.len() >= 5 && bytes[0] == 100 && bytes[1] == 97
            && bytes[2] == 116 && bytes[3] == 97 && bytes[4] == 58,
        event_prefix().is_prefix_of(bytes) <==> bytes.len() >= 6 && bytes[0] == 101 && bytes[1]
            == 118 && bytes[2] == 101 && bytes[3] == 110 && bytes[4] == 116 && bytes[5] == 58,
{
    if bytes.len() >= 5 {
        let head = bytes.subrange(0, 5);
        assert(head[0] == bytes[0] && head[1] == bytes[1] && head[2] == bytes[2] && head[3]
            == bytes[3] && head[4] == bytes[4]);
        if bytes[0] == 100 && bytes[1] == 97 && bytes[2] == 116 && bytes[3] == 97 && bytes[4] == 58 {
            assert(head =~= data_prefix());
        }
    }
    if bytes.len() >= 6 {
        let head = bytes.subrange(0, 6);
        assert(head[0] == bytes[0] && head[1] == bytes[1] && head[2] == bytes[2] && head[3]
            == bytes[3] && head[4] == bytes[4] && head[5] == bytes[5]);
        if bytes[0] == 101 && bytes[1] == 118 && bytes[2] == 101 && bytes[3] == 110 && bytes[4]
            == 116 && bytes[5] == 58 {
            assert(head =~= event_prefix());
        }
    }
}

/// A text is a core with white space around it, if anything.
pub open spec fn padded(text: Seq<char>, core: Seq<char>) -> bool {
    exists|before: Seq<char>, after: Seq<char>|
        {
            &&& text == #[trigger] (before + core + after)
            &&& forall|i: int| 0 <= i < before.len() ==> white_space(#[trigger] before[i])
            &&& forall|i: int| 0 <= i < after.len() ==> white_space(#[trigger] after[i])
        }
}

proof fn lemma_padded(text: Seq<char>, core: Seq<char>)
    requires
        tight(core),
    ensures
        padded(text, core) <==> trims_to(text, core),
{
    if padded(text, core) {
        let (before, after): (Seq<char>, Seq<char>) = choose|before: Seq<char>, after: Seq<char>|
            {
                &&& text == #[trigger] (before + core + after)
                &&& forall|i: int| 0 <= i < before.len() ==> white_space(#[trigger] before[i])
                &&& forall|i: int| 0 <= i < after.len() ==> white_space(#[trigger] after[i])
            };
        let i = before.len() as int;
        let j = i + core.len();
        assert(text.subrange(i, j) =~= core);
        assert(text.subrange(0, i) =~= before);
        assert(text.subrange(j, text.len() as int) =~= after);
    }
    if trims_to(text, core) {
        let (i, j): (int, int) = choose|i: int, j: int|
            #![trigger text.subrange(i, j)]
            {
                &&& 0 <= i <= j <= text.len()
                &&& core == text.subrange(i, j)
                &&& tight(core)
                &&& blank(text.subrange(0, i))
                &&& blank(text.subrange(j, text.len() as int))
            };
        let before = text.subrange(0, i);
        let after = text.subrange(j, text.len() as int);
        assert(text =~= before + core + after);
    }
}

} // verus!
