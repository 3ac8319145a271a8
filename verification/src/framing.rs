//! How a stream of server-sent events falls into frames, and a frame into data.
use vstd::prelude::*;

verus! {

// ---------------------------------------------------------------------------
// Frames

/// The length of the blank line that ends a frame, where one stands at `p`; else 0.
pub open spec fn delimiter(bytes: Seq<u8>, p: int) -> int {
    if 0 <= p && p + 4 <= bytes.len() && bytes[p] == 13 && bytes[p + 1] == 10 && bytes[p + 2] == 13
        && bytes[p + 3] == 10 {
        4
    } else if 0 <= p && p + 2 <= bytes.len() && bytes[p] == 10 && bytes[p + 1] == 10 {
        2
    } else {
        0
    }
}

/// Where the first frame ends, of those whose blank line stands at `p` or later.
pub open spec fn first_end(bytes: Seq<u8>, p: int) -> Option<int>
    decreases bytes.len() - p,
{
    if 0 <= p < bytes.len() {
        if delimiter(bytes, p) > 0 {
            Some(p + delimiter(bytes, p))
        } else {
            first_end(bytes, p + 1)
        }
    } else {
        None
    }
}

/// The complete frames, in order, each with the blank line that ends it.
pub open spec fn frames(bytes: Seq<u8>) -> Seq<Seq<u8>>
    decreases bytes.len(),
{
    match first_end(bytes, 0) {
        Some(end) if 0 < end <= bytes.len() => seq![bytes.take(end)] + frames(bytes.skip(end)),
        _ => Seq::empty(),
    }
}

/// What is left after the complete frames.
pub open spec fn rest(bytes: Seq<u8>) -> Seq<u8>
    decreases bytes.len(),
{
    match first_end(bytes, 0) {
        Some(end) if 0 < end <= bytes.len() => rest(bytes.skip(end)),
        _ => bytes,
    }
}

/// The bytes of a list of pieces, one after the other.
pub open spec fn joined(pieces: Seq<Seq<u8>>) -> Seq<u8>
    decreases pieces.len(),
{
    if pieces.len() == 0 {
        Seq::empty()
    } else {
        joined(pieces.drop_last()) + pieces.last()
    }
}

pub proof fn lemma_joined_add(a: Seq<Seq<u8>>, b: Seq<Seq<u8>>)
    ensures
        joined(a + b) == joined(a) + joined(b),
    decreases b.len(),
{
    if b.len() == 0 {
        assert(a + b == a);
        assert(joined(a) + joined(b) == joined(a));
    } else {
        lemma_joined_add(a, b.drop_last());
        assert((a + b).drop_last() == a + b.drop_last());
        assert((a + b).last() == b.last());
        assert(joined(a) + joined(b.drop_last()) + b.last() == joined(a) + joined(b));
    }
}

/// The end of a frame lies behind its start, and within the bytes.
pub proof fn lemma_first_end_bounds(bytes: Seq<u8>, p: int)
    requires
        0 <= p,
    ensures
        first_end(bytes, p) matches Some(end) ==> p + 2 <= end <= bytes.len(),
    decreases bytes.len() - p,
{
    if p < bytes.len() && delimiter(bytes, p) == 0 {
        lemma_first_end_bounds(bytes, p + 1);
    }
}

/// Where no blank line stands before `p`, the search can start there.
pub proof fn lemma_first_end_from(bytes: Seq<u8>, p: int, q: int)
    requires
        0 <= p <= q <= bytes.len(),
        forall|k: int| p <= k < q ==> #[trigger] delimiter(bytes, k) == 0,
    ensures
        first_end(bytes, p) == first_end(bytes, q),
    decreases q - p,
{
    if p < q {
        assert(delimiter(bytes, p) == 0);
        lemma_first_end_from(bytes, p + 1, q);
    }
}

/// A frame that ends within `a` ends there whatever follows.
pub proof fn lemma_first_end_stays(a: Seq<u8>, b: Seq<u8>, p: int)
    requires
        0 <= p,
        first_end(a, p) is Some,
    ensures
        first_end(a + b, p) == first_end(a, p),
    decreases a.len() - p,
{
    let c = a + b;
    lemma_first_end_bounds(a, p);
    if delimiter(a, p) > 0 {
        assert(delimiter(c, p) == delimiter(a, p));
    } else {
        lemma_first_end_stays(a, b, p + 1);
        lemma_first_end_bounds(a, p + 1);
        assert(delimiter(c, p) == 0) by {
            if p + 4 > a.len() {
                lemma_first_end_bounds(a, p + 2);
                assert(delimiter(a, p + 1) == 2);
                assert(a[p + 2] == 10 && c[p + 2] == 10);
            }
        }
    }
}

/// Nothing that is left over holds a complete frame.
pub proof fn lemma_rest_is_open(bytes: Seq<u8>)
    ensures
        first_end(rest(bytes), 0) is None,
        frames(rest(bytes)).len() == 0,
        rest(rest(bytes)) == rest(bytes),
        rest(bytes).len() <= bytes.len(),
    decreases bytes.len(),
{
    lemma_first_end_bounds(bytes, 0);
    if let Some(end) = first_end(bytes, 0) {
        lemma_rest_is_open(bytes.skip(end));
    }
}

/// Splitting loses nothing: the frames and the rest make up the bytes.
pub proof fn lemma_split_keeps(bytes: Seq<u8>)
    ensures
        joined(frames(bytes)) + rest(bytes) == bytes,
    decreases bytes.len(),
{
    lemma_first_end_bounds(bytes, 0);
    match first_end(bytes, 0) {
        Some(end) => {
            let head = bytes.take(end);
            let tail = bytes.skip(end);
            lemma_split_keeps(tail);
            lemma_joined_add(seq![head], frames(tail));
            reveal_with_fuel(joined, 2);
            assert(seq![head].drop_last() == Seq::<Seq<u8>>::empty());
            assert(joined(seq![head]) == head);
            assert(head + joined(frames(tail)) + rest(tail) == head + (joined(frames(tail)) + rest(
                tail,
            )));
            assert(head + tail == bytes);
        },
        None => {
            assert(joined(frames(bytes)) + rest(bytes) == bytes);
        },
    }
}

/// Splitting does not depend on where the stream was cut: the frames of `a`, then
/// those of what `a` left over together with `b`, are the frames of both at once.
pub proof fn lemma_split_anywhere(a: Seq<u8>, b: Seq<u8>)
    ensures
        frames(a + b) == frames(a) + frames(rest(a) + b),
        rest(a + b) == rest(rest(a) + b),
    decreases a.len(),
{
    lemma_first_end_bounds(a, 0);
    match first_end(a, 0) {
        Some(end) => {
            lemma_first_end_stays(a, b, 0);
            let tail = a.skip(end);
            assert((a + b).skip(end) == tail + b);
            assert((a + b).take(end) == a.take(end));
            lemma_split_anywhere(tail, b);
            assert(seq![a.take(end)] + (frames(tail) + frames(rest(tail) + b)) == seq![a.take(end)]
                + frames(tail) + frames(rest(tail) + b));
        },
        None => {
            assert(frames(a) + frames(a + b) == frames(a + b));
        },
    }
}

// ---------------------------------------------------------------------------
// Data

/// The index of the first line feed from `i` on; the length where there is none.
pub open spec fn line_feed(text: Seq<char>, i: int) -> int
    decreases text.len() - i,
{
    if 0 <= i < text.len() && text[i] != '\n' {
        line_feed(text, i + 1)
    } else {
        i
    }
}

/// A line without the carriage return before its line feed.
pub open spec fn without_return(line: Seq<char>) -> Seq<char> {
    if line.len() > 0 && line.last() == '\r' {
        line.drop_last()
    } else {
        line
    }
}

/// The value of a `data:` line, without one space in front.
pub open spec fn data_value(line: Seq<char>) -> Option<Seq<char>> {
    if line.len() >= 5 && line[0] == 'd' && line[1] == 'a' && line[2] == 't' && line[3] == 'a'
        && line[4] == ':' {
        if line.len() > 5 && line[5] == ' ' {
            Some(line.skip(6))
        } else {
            Some(line.skip(5))
        }
    } else {
        None
    }
}

/// The values of the `data:` lines from `i` on, in order. A line feed ends a line,
/// with a carriage return before it or not; the last line may lack it.
pub open spec fn data_values(text: Seq<char>, i: int) -> Seq<Seq<char>>
    decreases text.len() - i,
{
    if 0 <= i < text.len() {
        let end = line_feed(text, i);
        let line = if end < text.len() {
            without_return(text.subrange(i, end))
        } else {
            text.subrange(i, end)
        };
        let later = if i <= end < text.len() {
            data_values(text, end + 1)
        } else {
            Seq::empty()
        };
        match data_value(line) {
            Some(value) => seq![value] + later,
            None => later,
        }
    } else {
        Seq::empty()
    }
}

/// Lines with a line feed between each two.
pub open spec fn lined(values: Seq<Seq<char>>) -> Seq<char>
    decreases values.len(),
{
    if values.len() == 0 {
        Seq::empty()
    } else if values.len() == 1 {
        values[0]
    } else {
        lined(values.drop_last()).push('\n') + values.last()
    }
}

/// The data that a frame carries.
pub open spec fn data_of(text: Seq<char>) -> Seq<char> {
    lined(data_values(text, 0))
}

fn find_line_feed(text: &Vec<char>, start: usize) -> (end: usize)
    requires
        start <= text@.len(),
    ensures
        end == line_feed(text@, start as int),
        start <= end <= text@.len(),
{
    let mut i: usize = start;
    while i < text.len() && text[i] != '\n'
        invariant
            start <= i <= text@.len(),
            line_feed(text@, i as int) == line_feed(text@, start as int),
        decreases text@.len() - i,
    {
        i += 1;
    }
    i
}

/// Where the value of the `data:` line between two indices starts.
fn value_start(chars: &Vec<char>, start: usize, stop: usize) -> (r: Option<usize>)
    requires
        start <= stop <= chars@.len(),
    ensures
        match r {
            Some(from) => start <= from <= stop && data_value(
                chars@.subrange(start as int, stop as int),
            ) == Some(chars@.subrange(from as int, stop as int)),
            None => data_value(chars@.subrange(start as int, stop as int)) is None,
        },
{
    let ghost line = chars@.subrange(start as int, stop as int);
    if stop - start >= 5 && chars[start] == 'd' && chars[start + 1] == 'a' && chars[start + 2]
        == 't' && chars[start + 3] == 'a' && chars[start + 4] == ':' {
        if stop - start > 5 && chars[start + 5] == ' ' {
            assert(line.skip(6) == chars@.subrange(start + 6, stop as int));
            Some(start + 6)
        } else {
            assert(line.skip(5) == chars@.subrange(start + 5, stop as int));
            Some(start + 5)
        }
    } else {
        None
    }
}

fn copy_range(out: &mut Vec<char>, chars: &Vec<char>, from: usize, stop: usize)
    requires
        from <= stop <= chars@.len(),
    ensures
        final(out)@ == old(out)@ + chars@.subrange(from as int, stop as int),
{
    let ghost before = out@;
    let mut k: usize = from;
    while k < stop
        invariant
            from <= k <= stop <= chars@.len(),
            out@ == before + chars@.subrange(from as int, k as int),
        decreases stop - k,
    {
        out.push(chars[k]);
        assert(chars@.subrange(from as int, k + 1) == chars@.subrange(from as int, k as int).push(
            chars@[k as int],
        ));
        k += 1;
    }
}

/// The data that a frame carries.
pub fn data(text: &str) -> (r: String)
    ensures
        r@ == data_of(text@),
{
    let chars = crate::text::chars(text);
    let mut out: Vec<char> = Vec::new();
    let mut start: usize = 0;
    let mut any = false;
    let ghost mut done: Seq<Seq<char>> = Seq::empty();
    while start < chars.len()
        invariant
            chars@ == text@,
            start <= chars@.len(),
            any == (done.len() > 0),
            out@ == lined(done),
            data_values(text@, 0) == done + data_values(text@, start as int),
        decreases chars@.len() - start,
    {
        let end = find_line_feed(&chars, start);
        let stop = if end < chars.len() && end > start && chars[end - 1] == '\r' {
            end - 1
        } else {
            end
        };
        let next = if end < chars.len() {
            end + 1
        } else {
            end
        };
        let ghost line = text@.subrange(start as int, stop as int);
        let ghost later = data_values(text@, next as int);
        proof {
            let whole = text@.subrange(start as int, end as int);
            if end < text@.len() {
                assert(line == without_return(whole));
            }
            assert(data_values(text@, start as int) == match data_value(line) {
                Some(value) => seq![value] + later,
                None => later,
            });
        }
        if let Some(from) = value_start(&chars, start, stop) {
            let ghost value = text@.subrange(from as int, stop as int);
            if any {
                out.push('\n');
            }
            copy_range(&mut out, &chars, from, stop);
            proof {
                lemma_lined_push(done, value);
                assert(done + (seq![value] + later) == done.push(value) + later);
                done = done.push(value);
            }
            any = true;
        }
        start = next;
    }
    assert(done + data_values(text@, start as int) == done);
    crate::text::string_of(&out)
}

proof fn lemma_lined_push(values: Seq<Seq<char>>, value: Seq<char>)
    ensures
        lined(values.push(value)) == if values.len() == 0 {
            value
        } else {
            lined(values).push('\n') + value
        },
        lined(Seq::empty()) + value == value,
{
    assert(values.push(value).drop_last() == values);
    assert(lined(Seq::empty()) + value == value);
}

// ---------------------------------------------------------------------------
// Laws

/// A complete frame ends with the first blank line in it, and the lines of a blank
/// line end with line feeds, both of them with a carriage return before it or none.
/// What is left over holds no blank line.
pub proof fn law_frames_end_at_blank_lines(bytes: Seq<u8>, n: int)
    ensures
        0 <= n < frames(bytes).len() ==> {
            let frame = frames(bytes)[n];
            let len = frame.len();
            &&& len >= 2
            &&& frame[len - 1] == 10
            &&& frame[len - 2] == 10 || (len >= 4 && frame[len - 2] == 13 && frame[len - 3] == 10
                && frame[len - 4] == 13)
            &&& unbroken(frame.drop_last())
        },
        unbroken(rest(bytes)),
        joined(frames(bytes)) + rest(bytes) == bytes,
    decreases bytes.len(),
{
    lemma_split_keeps(bytes);
    lemma_first_end_bounds(bytes, 0);
    match first_end(bytes, 0) {
        Some(end) => {
            let tail = bytes.skip(end);
            law_frames_end_at_blank_lines(tail, n - 1);
            if n == 0 {
                lemma_first_end_is_first(bytes, 0);
                let frame = bytes.take(end);
                assert(frames(bytes)[0] == frame);
                assert forall|p: int| 0 <= p < frame.drop_last().len() implies !(#[trigger] blank_at(
                    frame.drop_last(),
                    p,
                )) by {
                    if p + delimiter(bytes, p) != end {
                        assert(p < end);
                    }
                }
            } else if 0 < n < frames(bytes).len() {
                assert(frames(bytes)[n] == frames(tail)[n - 1]);
            }
        },
        None => {
            lemma_no_end(bytes, 0);
            assert forall|p: int| 0 <= p < bytes.len() implies !(#[trigger] blank_at(bytes, p)) by {
                assert(delimiter(bytes, p) == 0);
            }
        },
    }
}

/// Two line feeds stand at an index, or two line feeds that each follow a carriage
/// return.
pub open spec fn blank_at(bytes: Seq<u8>, p: int) -> bool {
    ||| p + 2 <= bytes.len() && bytes[p] == 10 && bytes[p + 1] == 10
    ||| p + 4 <= bytes.len() && bytes[p] == 13 && bytes[p + 1] == 10 && bytes[p + 2] == 13 && bytes[p
        + 3] == 10
}

/// There is no blank line.
pub open spec fn unbroken(bytes: Seq<u8>) -> bool {
    forall|p: int| 0 <= p < bytes.len() ==> !(#[trigger] blank_at(bytes, p))
}

proof fn lemma_first_end_is_first(bytes: Seq<u8>, from: int)
    requires
        0 <= from,
        first_end(bytes, from) is Some,
    ensures
        exists|q: int|
            {
                &&& from <= q
                &&& #[trigger] delimiter(bytes, q) > 0
                &&& first_end(bytes, from) == Some(q + delimiter(bytes, q))
                &&& forall|p: int| from <= p < q ==> #[trigger] delimiter(bytes, p) == 0
            },
    decreases bytes.len() - from,
{
    if delimiter(bytes, from) == 0 {
        lemma_first_end_is_first(bytes, from + 1);
        let q = choose|q: int|
            {
                &&& from + 1 <= q
                &&& #[trigger] delimiter(bytes, q) > 0
                &&& first_end(bytes, from + 1) == Some(q + delimiter(bytes, q))
                &&& forall|p: int| from + 1 <= p < q ==> #[trigger] delimiter(bytes, p) == 0
            };
        assert(delimiter(bytes, q) > 0);
    }
}

proof fn lemma_no_end(bytes: Seq<u8>, from: int)
    requires
        0 <= from,
        first_end(bytes, from) is None,
    ensures
        forall|p: int| from <= p < bytes.len() ==> #[trigger] delimiter(bytes, p) == 0,
    decreases bytes.len() - from,
{
    if from < bytes.len() {
        lemma_no_end(bytes, from + 1);
    }
}

proof fn lemma_line_feed_at(text: Seq<char>, i: int, end: int)
    requires
        0 <= i <= end <= text.len(),
        forall|k: int| i <= k < end ==> #[trigger] text[k] != '\n',
        end < text.len() ==> text[end] == '\n',
    ensures
        line_feed(text, i) == end,
    decreases end - i,
{
    if i < end {
        lemma_line_feed_at(text, i + 1, end);
    }
}

proof fn lemma_line_feed_shift(text: Seq<char>, by: int, i: int)
    requires
        0 <= by <= text.len(),
        0 <= i <= text.len() - by,
    ensures
        line_feed(text.skip(by), i) + by == line_feed(text, i + by),
        i <= line_feed(text.skip(by), i) <= text.len() - by,
    decreases text.len() - i,
{
    if i < text.skip(by).len() && text.skip(by)[i] != '\n' {
        lemma_line_feed_shift(text, by, i + 1);
    }
}

proof fn lemma_data_shift(text: Seq<char>, by: int, i: int)
    requires
        0 <= by <= text.len(),
        0 <= i,
    ensures
        data_values(text.skip(by), i) == data_values(text, i + by),
    decreases text.len() - i,
{
    let rest = text.skip(by);
    if i < rest.len() {
        lemma_line_feed_shift(text, by, i);
        let end = line_feed(rest, i);
        assert(rest.subrange(i, end) =~= text.subrange(i + by, end + by));
        if end < rest.len() {
            lemma_data_shift(text, by, end + 1);
        }
    }
}

/// The first line of a text, up to its line feed, and the lines after it.
proof fn lemma_first_line(line: Seq<char>, tail: Seq<char>)
    requires
        forall|k: int| 0 <= k < line.len() ==> #[trigger] line[k] != '\n',
    ensures
        data_values(line + seq!['\n'] + tail, 0) == match data_value(without_return(line)) {
            Some(value) => seq![value] + data_values(tail, 0),
            None => data_values(tail, 0),
        },
{
    let text = line + seq!['\n'] + tail;
    let end = line.len() as int;
    assert forall|k: int| 0 <= k < end implies #[trigger] text[k] != '\n' by {
        assert(text[k] == line[k]);
    }
    lemma_line_feed_at(text, 0, end);
    assert(text.subrange(0, end) =~= line);
    assert(text.skip(end + 1) =~= tail);
    lemma_data_shift(text, end + 1, 0);
}

/// A `data:` line gives its value, without one space in front and without the carriage
/// return before the line feed; the values of the lines after it follow.
pub proof fn law_data_lines_give_their_values(
    value: Seq<char>,
    tail: Seq<char>,
    spaced: bool,
    returned: bool,
)
    requires
        forall|k: int| 0 <= k < value.len() ==> #[trigger] value[k] != '\n',
        !spaced ==> value.len() == 0 || value[0] != ' ',
        !returned ==> value.len() == 0 || value.last() != '\r',
    ensures
        ({
            let space = if spaced {
                seq![' ']
            } else {
                Seq::empty()
            };
            let back = if returned {
                seq!['\r']
            } else {
                Seq::empty()
            };
            let text = seq!['d', 'a', 't', 'a', ':'] + space + value + back + seq!['\n'] + tail;
            data_values(text, 0) == seq![value] + data_values(tail, 0)
        }),
{
    let space = if spaced {
        seq![' ']
    } else {
        Seq::empty()
    };
    let back = if returned {
        seq!['\r']
    } else {
        Seq::empty()
    };
    let kept = seq!['d', 'a', 't', 'a', ':'] + space + value;
    let line = kept + back;
    assert forall|k: int| 0 <= k < line.len() implies #[trigger] line[k] != '\n' by {
        let from = 5 + space.len();
        if from <= k < from + value.len() {
            assert(line[k] == value[k - from]);
        }
    }
    lemma_first_line(line, tail);
    assert(without_return(line) =~= kept) by {
        if returned {
            assert(line.drop_last() =~= kept);
        } else {
            assert(line =~= kept);
            if value.len() > 0 {
                assert(kept.last() == value.last());
            } else if spaced {
                assert(kept.last() == ' ');
            } else {
                assert(kept.last() == ':');
            }
        }
    }
    assert(kept.skip((5 + space.len()) as int) =~= value);
    if !spaced && value.len() > 0 {
        assert(kept[5] == value[0]);
    }
    if spaced {
        assert(kept[5] == ' ');
    }
}

/// Any other line carries no data, and neither does the last line where it is no
/// `data:` line; the last line needs no line feed.
pub proof fn law_other_lines_carry_no_data(line: Seq<char>, tail: Seq<char>)
    requires
        forall|k: int| 0 <= k < line.len() ==> #[trigger] line[k] != '\n',
        line.len() < 5 || line.take(5) != seq!['d', 'a', 't', 'a', ':'],
    ensures
        data_values(line + seq!['\n'] + tail, 0) == data_values(tail, 0),
        data_values(line, 0) == Seq::<Seq<char>>::empty(),
{
    lemma_first_line(line, tail);
    let bare = without_return(line);
    if data_value(bare) is Some {
        assert(line.take(5) =~= seq!['d', 'a', 't', 'a', ':']);
    }
    lemma_line_feed_at(line, 0, line.len() as int);
    assert(line.subrange(0, line.len() as int) =~= line);
    if data_value(line) is Some {
        assert(line.take(5) =~= seq!['d', 'a', 't', 'a', ':']);
    }
}

/// The data of a frame are the values of its `data:` lines, with a line feed between
/// each two.
pub proof fn law_data_are_joined_by_line_feeds(values: Seq<Seq<char>>, value: Seq<char>, text: Seq<char>)
    requires
        data_values(text, 0) == values.push(value),
    ensures
        values.len() == 0 ==> data_of(text) == value,
        values.len() > 0 ==> data_of(text) == lined(values) + seq!['\n'] + value,
        values.len() == 1 ==> lined(values) == values[0],
{
    lemma_lined_push(values, value);
    assert(lined(values).push('\n') =~= lined(values) + seq!['\n']);
}

/// A frame without a `data:` line has no data.
pub proof fn law_no_lines_no_data(text: Seq<char>)
    requires
        data_values(text, 0).len() == 0,
    ensures
        data_of(text).len() == 0,
{
}

/// A `data:` line at the end of a text needs no line feed.
pub proof fn law_the_last_data_line(value: Seq<char>, spaced: bool)
    requires
        forall|k: int| 0 <= k < value.len() ==> #[trigger] value[k] != '\n',
        !spaced ==> value.len() == 0 || value[0] != ' ',
    ensures
        ({
            let space = if spaced {
                seq![' ']
            } else {
                Seq::empty()
            };
            data_values(seq!['d', 'a', 't', 'a', ':'] + space + value, 0) == seq![value]
        }),
{
    let space = if spaced {
        seq![' ']
    } else {
        Seq::empty()
    };
    let line = seq!['d', 'a', 't', 'a', ':'] + space + value;
    let from = 5 + space.len();
    assert forall|k: int| 0 <= k < line.len() implies #[trigger] line[k] != '\n' by {
        if from <= k {
            assert(line[k] == value[k - from]);
        }
    }
    lemma_line_feed_at(line, 0, line.len() as int);
    assert(line.subrange(0, line.len() as int) =~= line);
    assert(line.skip(from as int) =~= value);
    if !spaced && value.len() > 0 {
        assert(line[5] == value[0]);
    }
    if spaced {
        assert(line[5] == ' ');
    }
    assert(seq![value] + Seq::<Seq<char>>::empty() =~= seq![value]);
}

} // verus!
