//! A failure record is one event, and reads back to the failure that it carries.
use crate::error_mapping::{
    failed_record, is_failure, law_rewrite_replaces_the_error, law_rewritten_once, rewritten,
    MappingView, RetryableView,
};
use crate::framing::{
    data_of, data_value, data_values, delimiter, first_end, frames, joined,
    lemma_first_end_from, line_feed, lined, rest, without_return,
};
use crate::json::{reads_back, single_line, written, Tree};
use crate::stream::{failure_in, frame_out, frames_out, pushed, pushed_out, MapperView};
use vstd::prelude::*;
use vstd::utf8::{decode_utf8, encode_scalar, encode_utf8, valid_utf8};

verus! {

/// Bytes without an end of line.
spec fn no_line_end(bytes: Seq<u8>) -> bool {
    forall|i: int| 0 <= i < bytes.len() ==> #[trigger] bytes[i] != 10 && bytes[i] != 13
}

/// Texts are encoded piece by piece.
pub proof fn lemma_encode_add(a: Seq<char>, b: Seq<char>)
    ensures
        encode_utf8(a + b) == encode_utf8(a) + encode_utf8(b),
    decreases a.len(),
{
    if a.len() == 0 {
        assert(a + b =~= b);
        assert(encode_utf8(a) + encode_utf8(b) =~= encode_utf8(b));
    } else {
        lemma_encode_add(a.drop_first(), b);
        assert((a + b).drop_first() =~= a.drop_first() + b);
        assert(encode_utf8(a + b) =~= encode_utf8(a) + encode_utf8(b));
    }
}

/// A text in one line is encoded in bytes without an end of line.
proof fn lemma_single_line_bytes(text: Seq<char>)
    requires
        single_line(text),
    ensures
        no_line_end(encode_utf8(text)),
    decreases text.len(),
{
    if text.len() > 0 {
        let bytes = encode_utf8(text);
        let rest = text.drop_first();
        let c = text[0] as u32;
        assert forall|i: int| 0 <= i < rest.len() implies #[trigger] rest[i] != '\n' && rest[i]
            != '\r' by {
            assert(rest[i] == text[i + 1]);
        }
        lemma_single_line_bytes(rest);
        vstd::utf8::encode_utf8_first_scalar(text);
        let first = encode_scalar(c);
        assert(bytes == first + encode_utf8(rest));
        assert(text[0] != '\n' && text[0] != '\r');
        vstd::utf8::char_is_scalar(text[0]);
        vstd::utf8::char_u32_cast(text[0], c);
        assert(c != 10 && c != 13);
        let lead = bytes[0];
        if lead <= 0x7f {
            assert((lead & 0x7f) as u32 == lead as u32) by (bit_vector)
                requires
                    lead <= 0x7f,
            ;
            assert(c == lead as u32);
        }
        assert(first[0] == bytes[0]);
        assert forall|i: int| 0 <= i < bytes.len() implies #[trigger] bytes[i] != 10 && bytes[i]
            != 13 by {
            if i >= first.len() {
                assert(bytes[i] == encode_utf8(rest)[i - first.len()]);
            } else if i == 0 {
                assert(lead as u32 != 10 && lead as u32 != 13);
            } else {
                assert(lead > 0x7f);
                assert(i == 1 || i == 2 || i == 3);
                assert(vstd::utf8::is_continuation_byte(bytes[i]));
            }
        }
    }
}

/// The pieces of a failure record.
spec fn pieces(text: Seq<char>) -> (Seq<char>, Seq<char>) {
    ("event: response.failed"@, "data: "@ + text)
}

/// A failure record is a line that names the event, a line with the data and a
/// blank line.
proof fn lemma_record_lines(text: Seq<char>)
    ensures
        ({
            let (name, data) = pieces(text);
            failed_record(text) == name + seq!['\n'] + data + seq!['\n', '\n']
        }),
        single_line("event: response.failed"@),
        single_line("data: "@),
        "event: response.failed"@.len() == 22,
        "data: "@.len() == 6,
{
    reveal_strlit("event: response.failed\ndata: ");
    reveal_strlit("event: response.failed");
    reveal_strlit("data: ");
    reveal_strlit("\n\n");
    let head = "event: response.failed\ndata: "@;
    let name = "event: response.failed"@;
    let data = "data: "@;
    assert(head =~= name + seq!['\n'] + data);
    assert("\n\n"@ =~= seq!['\n', '\n']);
    assert(failed_record(text) =~= name + seq!['\n'] + (data + text) + seq!['\n', '\n']);
}

/// Two line ends are encoded in two bytes, and one in one.
proof fn lemma_line_end_bytes()
    ensures
        encode_utf8(seq!['\n']) == seq![10u8],
        encode_utf8(seq!['\n', '\n']) == seq![10u8, 10u8],
{
    vstd::utf8::is_ascii_chars_encode_utf8(seq!['\n']);
    vstd::utf8::is_ascii_chars_encode_utf8(seq!['\n', '\n']);
    let one = seq!['\n'];
    let two = seq!['\n', '\n'];
    assert(one[0] == '\n' && two[0] == '\n' && two[1] == '\n');
    assert(encode_utf8(one) =~= seq![10u8]);
    assert(encode_utf8(two) =~= seq![10u8, 10u8]);
}

/// A line, a nonempty line and a blank line are one frame.
proof fn lemma_one_frame(first: Seq<u8>, second: Seq<u8>)
    requires
        no_line_end(first),
        no_line_end(second),
        second.len() > 0,
    ensures
        ({
            let bytes = first + seq![10u8] + second + seq![10u8, 10u8];
            &&& frames(bytes) == seq![bytes]
            &&& rest(bytes) == Seq::<u8>::empty()
        }),
{
    let bytes = first + seq![10u8] + second + seq![10u8, 10u8];
    let n = bytes.len() as int;
    assert(n == first.len() + second.len() + 3);
    assert forall|i: int| 0 <= i < n implies bytes[i] != 13 && (#[trigger] bytes[i] == 10 ==> i
        == first.len() || i >= n - 2) by {
        if i < first.len() {
            assert(bytes[i] == first[i]);
        } else if i > first.len() && i < n - 2 {
            assert(bytes[i] == second[i - first.len() - 1]);
        }
    }
    assert forall|k: int| 0 <= k < n - 2 implies #[trigger] delimiter(bytes, k) == 0 by {
        assert(bytes[k] != 13);
        if bytes[k] == 10 {
            assert(k == first.len());
            assert(bytes[k + 1] != 10);
        }
    }
    lemma_first_end_from(bytes, 0, n - 2);
    assert(bytes[n - 2] == 10 && bytes[n - 1] == 10);
    assert(delimiter(bytes, n - 2) == 2);
    assert(first_end(bytes, 0) == Some(n));
    assert(bytes.take(n) =~= bytes);
    assert(bytes.skip(n) =~= Seq::empty());
    assert(frames(bytes.skip(n)) =~= Seq::empty());
    assert(frames(bytes) =~= seq![bytes]);
    assert(rest(bytes.skip(n)) =~= Seq::empty());
}

/// The search for a line feed stops at the first one.
proof fn lemma_line_feed(text: Seq<char>, i: int, j: int)
    requires
        0 <= i <= j < text.len(),
        text[j] == '\n',
        forall|k: int| i <= k < j ==> #[trigger] text[k] != '\n',
    ensures
        line_feed(text, i) == j,
    decreases j - i,
{
    if i < j {
        assert(text[i] != '\n');
        lemma_line_feed(text, i + 1, j);
    }
}

/// The data of a failure record is the text that it was made of.
proof fn lemma_record_data(text: Seq<char>)
    requires
        single_line(text),
    ensures
        data_of(failed_record(text)) == text,
{
    lemma_record_lines(text);
    reveal_strlit("event: response.failed");
    reveal_strlit("data: ");
    let name = "event: response.failed"@;
    let data = "data: "@ + text;
    let record = failed_record(text);
    let n = record.len() as int;
    assert(record =~= name + seq!['\n'] + data + seq!['\n', '\n']);
    assert(n == 22 + 1 + 6 + text.len() + 2);
    assert forall|k: int| 0 <= k < 22 implies #[trigger] record[k] == name[k] by {}
    assert forall|k: int| 23 <= k < n - 2 implies #[trigger] record[k] == data[k - 23] by {}
    assert forall|k: int| 0 <= k < data.len() implies #[trigger] data[k] != '\n' && data[k]
        != '\r' by {
        if k < 6 {
            assert(data[k] == "data: "@[k]);
        } else {
            assert(data[k] == text[k - 6]);
        }
    }
    // The line that names the event.
    lemma_line_feed(record, 0, 22);
    let first = without_return(record.subrange(0, 22));
    assert(first =~= name) by {
        assert(record.subrange(0, 22) =~= name);
        assert(name.last() == name[21]);
    }
    assert(data_value(first) is None) by {
        assert(name[0] == 'e');
    }
    // The line with the data.
    lemma_line_feed(record, 23, n - 2);
    let second = without_return(record.subrange(23, n - 2));
    assert(second =~= data) by {
        assert(record.subrange(23, n - 2) =~= data);
        assert(data.last() == data[data.len() - 1]);
    }
    assert(data_value(second) == Some(text)) by {
        assert(data[0] == 'd' && data[1] == 'a' && data[2] == 't' && data[3] == 'a' && data[4]
            == ':' && data[5] == ' ');
        assert(data.skip(6) =~= text);
    }
    // The blank line.
    lemma_line_feed(record, n - 1, n - 1);
    let third = without_return(record.subrange(n - 1, n - 1));
    assert(data_value(third) is None);
    assert(data_values(record, n) =~= Seq::empty());
    assert(data_values(record, n - 1) =~= Seq::empty());
    assert(data_values(record, 23) =~= seq![text]);
    assert(data_values(record, 0) =~= seq![text]);
    assert(lined(seq![text]) == text);
}

/// A failure record around a text in one line is one event, and the text is the
/// data of that event.
pub proof fn law_record_is_one_event(text: Seq<char>)
    requires
        single_line(text),
    ensures
        ({
            let record = encode_utf8(failed_record(text));
            &&& frames(record) == seq![record]
            &&& rest(record) == Seq::<u8>::empty()
            &&& valid_utf8(record)
            &&& data_of(decode_utf8(record)) == text
        }),
{
    lemma_record_lines(text);
    lemma_line_end_bytes();
    let (name, data) = pieces(text);
    let end = seq!['\n', '\n'];
    lemma_encode_add(name, seq!['\n']);
    lemma_encode_add(name + seq!['\n'], data);
    lemma_encode_add(name + seq!['\n'] + data, end);
    assert(single_line(data)) by {
        assert forall|i: int| 0 <= i < data.len() implies #[trigger] data[i] != '\n' && data[i]
            != '\r' by {
            if i < 6 {
                assert(data[i] == "data: "@[i]);
            } else {
                assert(data[i] == text[i - 6]);
            }
        }
    }
    lemma_single_line_bytes(name);
    lemma_single_line_bytes(data);
    vstd::utf8::encode_utf8_first_scalar(data);
    lemma_one_frame(encode_utf8(name), encode_utf8(data));
    vstd::utf8::encode_utf8_valid_utf8(failed_record(text));
    vstd::utf8::encode_utf8_decode_utf8(failed_record(text));
    lemma_record_data(text);
}

/// A record that was rewritten reads back to the rewritten failure, and passes every
/// mapper unchanged. This holds of every failure whose text reads back.
pub proof fn law_rewritten_records_pass(
    mapping: MappingView,
    retryable: RetryableView,
    failure: Tree,
)
    requires
        is_failure(failure),
        single_line(written(rewritten(retryable, failure))),
        reads_back(rewritten(retryable, failure)),
    ensures
        ({
            let event = rewritten(retryable, failure);
            let record = encode_utf8(failed_record(written(event)));
            let mapper = MapperView { mapping, pending: Seq::empty(), bypass: false };
            &&& failure_in(record) == Some(event)
            &&& frame_out(mapping, record) == record
            &&& pushed_out(mapper, record) == record
            &&& pushed(mapper, record) == mapper
        }),
{
    let event = rewritten(retryable, failure);
    let text = written(event);
    let record = encode_utf8(failed_record(text));
    let mapper = MapperView { mapping, pending: Seq::empty(), bypass: false };
    law_record_is_one_event(text);
    law_rewritten_once(mapping, 0, retryable, failure);
    law_rewrite_replaces_the_error(retryable, failure);
    reveal_strlit("type");
    reveal_strlit("response");
    assert("type"@.len() != "response"@.len());
    assert(event.find("type"@) == failure.find("type"@));
    assert(failure_in(record) == Some(event));
    assert(frame_out(mapping, record) == record);
    assert(mapper.pending + record =~= record);
    let list = seq![record].map_values(|frame: Seq<u8>| frame_out(mapping, frame));
    assert(list =~= seq![record]);
    assert(joined(seq![record]) == record) by {
        reveal_with_fuel(joined, 2);
        assert(seq![record].drop_last() =~= Seq::empty());
        assert(Seq::<u8>::empty() + record =~= record);
    }
    assert(frames_out(mapping, frames(record)) == record);
}

} // verus!
