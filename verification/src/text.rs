//! Characters and strings: what the library asks of text beyond equality.
use vstd::prelude::*;
use vstd::utf8::{encode_utf8, valid_utf8};

verus! {

broadcast use vstd::string::group_string_axioms;

/// The Unicode `White_Space` property.
pub open spec fn white_space(c: char) -> bool {
    let u = c as u32;
    ||| 0x9 <= u <= 0xd
    ||| u == 0x20
    ||| u == 0x85
    ||| u == 0xa0
    ||| u == 0x1680
    ||| 0x2000 <= u <= 0x200a
    ||| u == 0x2028
    ||| u == 0x2029
    ||| u == 0x202f
    ||| u == 0x205f
    ||| u == 0x3000
}

/// No character but white space.
pub open spec fn blank(text: Seq<char>) -> bool {
    forall|i: int| 0 <= i < text.len() ==> white_space(#[trigger] text[i])
}

/// Neither end is white space.
pub open spec fn tight(text: Seq<char>) -> bool {
    text.len() > 0 ==> !white_space(text[0]) && !white_space(text.last())
}

/// `core` is `text` without the white space at both ends.
pub open spec fn trims_to(text: Seq<char>, core: Seq<char>) -> bool {
    exists|i: int, j: int|
        #![trigger text.subrange(i, j)]
        {
            &&& 0 <= i <= j <= text.len()
            &&& core == text.subrange(i, j)
            &&& tight(core)
            &&& blank(text.subrange(0, i))
            &&& blank(text.subrange(j, text.len() as int))
        }
}

/// `needle` stands somewhere in `text`.
pub open spec fn occurs(needle: Seq<char>, text: Seq<char>) -> bool {
    exists|i: int| #[trigger] occurs_at(needle, text, i)
}

pub open spec fn occurs_at(needle: Seq<char>, text: Seq<char>, i: int) -> bool {
    0 <= i && i + needle.len() <= text.len() && text.subrange(i, i + needle.len()) == needle
}

/// ASCII capitals become small letters; every other character stays.
pub open spec fn lowered(c: char) -> char {
    if 'A' <= c <= 'Z' {
        ((c as u32) + 32) as char
    } else {
        c
    }
}

/// Equal but for the case of ASCII letters.
pub open spec fn same_letters(a: Seq<char>, b: Seq<char>) -> bool {
    a.len() == b.len() && forall|i: int| 0 <= i < a.len() ==> lowered(#[trigger] a[i]) == lowered(b[i])
}

/// The order of texts: by the first character in which they differ, and a text
/// after each of its beginnings.
pub open spec fn precedes(a: Seq<char>, b: Seq<char>) -> bool
    decreases a.len(),
{
    if a.len() == 0 {
        true
    } else if b.len() == 0 {
        false
    } else if a[0] != b[0] {
        a[0] < b[0]
    } else {
        precedes(a.drop_first(), b.drop_first())
    }
}

/// The bytes that a text takes.
pub open spec fn byte_len(text: Seq<char>) -> nat {
    encode_utf8(text).len()
}

/// What trimming leaves is determined: it is empty exactly where the text is
/// blank, and the text itself exactly where neither end is white space.
pub proof fn lemma_trim(text: Seq<char>, core: Seq<char>)
    requires
        trims_to(text, core),
    ensures
        core.len() == 0 <==> blank(text),
        core == text <==> tight(text),
        forall|other: Seq<char>| trims_to(text, other) ==> other == core,
{
    let (i, j): (int, int) = choose|i: int, j: int|
        #![trigger text.subrange(i, j)]
        {
            &&& 0 <= i <= j <= text.len()
            &&& core == text.subrange(i, j)
            &&& tight(core)
            &&& blank(text.subrange(0, i))
            &&& blank(text.subrange(j, text.len() as int))
        };
    lemma_trim_at(text, core, i, j);
    assert forall|other: Seq<char>| trims_to(text, other) implies other == core by {
        let (a, b): (int, int) = choose|a: int, b: int|
            #![trigger text.subrange(a, b)]
            {
                &&& 0 <= a <= b <= text.len()
                &&& other == text.subrange(a, b)
                &&& tight(other)
                &&& blank(text.subrange(0, a))
                &&& blank(text.subrange(b, text.len() as int))
            };
        lemma_trim_at(text, other, a, b);
        if blank(text) {
            assert(other == core);
        } else {
            assert(white_before(text, i) && white_before(text, a));
            assert(white_from(text, j) && white_from(text, b));
            assert(!white_space(text[i]) && !white_space(text[a]));
            assert(!white_space(text[j - 1]) && !white_space(text[b - 1]));
            assert(a == i && b == j);
        }
    }
}

/// Every text is in order with itself.
pub proof fn lemma_precedes_itself(a: Seq<char>)
    ensures
        precedes(a, a),
    decreases a.len(),
{
    if a.len() > 0 {
        lemma_precedes_itself(a.drop_first());
    }
}

/// Two texts are in order one way or the other.
pub proof fn lemma_precedes_total(a: Seq<char>, b: Seq<char>)
    ensures
        precedes(a, b) || precedes(b, a),
    decreases a.len(),
{
    if a.len() > 0 && b.len() > 0 {
        lemma_precedes_total(a.drop_first(), b.drop_first());
    }
}

/// What is in order both ways is the same.
pub proof fn lemma_precedes_both(a: Seq<char>, b: Seq<char>)
    requires
        precedes(a, b),
        precedes(b, a),
    ensures
        a == b,
    decreases a.len(),
{
    if a.len() > 0 && b.len() > 0 {
        lemma_precedes_both(a.drop_first(), b.drop_first());
        assert(a =~= seq![a[0]] + a.drop_first());
        assert(b =~= seq![b[0]] + b.drop_first());
    }
}

/// The order carries on.
pub proof fn lemma_precedes_chain(a: Seq<char>, b: Seq<char>, c: Seq<char>)
    requires
        precedes(a, b),
        precedes(b, c),
    ensures
        precedes(a, c),
    decreases a.len(),
{
    if a.len() > 0 && b.len() > 0 && c.len() > 0 && a[0] == b[0] && b[0] == c[0] {
        lemma_precedes_chain(a.drop_first(), b.drop_first(), c.drop_first());
    }
}

spec fn white_before(text: Seq<char>, i: int) -> bool {
    forall|k: int| 0 <= k < i ==> white_space(#[trigger] text[k])
}

spec fn white_from(text: Seq<char>, j: int) -> bool {
    forall|k: int| j <= k < text.len() ==> white_space(#[trigger] text[k])
}

proof fn lemma_trim_at(text: Seq<char>, core: Seq<char>, i: int, j: int)
    requires
        0 <= i <= j <= text.len(),
        core == text.subrange(i, j),
        tight(core),
        blank(text.subrange(0, i)),
        blank(text.subrange(j, text.len() as int)),
    ensures
        white_before(text, i),
        white_from(text, j),
        core.len() == 0 <==> blank(text),
        core.len() > 0 ==> !white_space(text[i]) && !white_space(text[j - 1]),
        core == text <==> tight(text),
{
    assert forall|k: int| 0 <= k < i implies white_space(#[trigger] text[k]) by {
        assert(text.subrange(0, i)[k] == text[k]);
    }
    assert forall|k: int| j <= k < text.len() implies white_space(#[trigger] text[k]) by {
        assert(text.subrange(j, text.len() as int)[k - j] == text[k]);
    }
    if core.len() > 0 {
        assert(core[0] == text[i]);
        assert(core.last() == text[j - 1]);
    }
    if tight(text) {
        if text.len() > 0 {
            assert(i == 0);
            assert(j == text.len());
        }
        assert(core == text);
    }
}

/// The number of bytes that a text takes.
pub(crate) fn byte_count(text: &str) -> (r: usize)
    ensures
        r == byte_len(text@),
{
    text.as_bytes().len()
}

/// `str::trim` removes the white space at both ends. What white space is, Unicode
/// fixes by its `White_Space` property.
#[verifier::external_body]
pub(crate) fn trim(text: &str) -> (core: &str)
    ensures
        trims_to(text@, core@),
{
    text.trim()
}

/// Whether neither end of a text is white space.
pub(crate) fn is_tight(text: &str) -> (r: bool)
    ensures
        r == tight(text@),
{
    let core = trim(text);
    proof {
        lemma_trim(text@, core@);
    }
    same(core, text)
}

/// `std::str::from_utf8` gives the text that the bytes encode, and nothing
/// exactly where they encode none.
#[verifier::external_body]
pub(crate) fn from_utf8(bytes: &[u8]) -> (text: Option<&str>)
    ensures
        match text {
            Some(text) => valid_utf8(bytes@) && encode_utf8(text@) == bytes@,
            None => !valid_utf8(bytes@),
        },
{
    std::str::from_utf8(bytes).ok()
}

/// `String::push` appends one character.
pub assume_specification[ String::push ](text: &mut String, c: char)
    ensures
        final(text)@ == old(text)@.push(c),
;

/// The characters of a string.
pub(crate) fn chars(text: &str) -> (chars: Vec<char>)
    ensures
        chars@ == text@,
{
    let mut chars: Vec<char> = Vec::new();
    for c in it: text.chars()
        invariant
            it.seq() == text@,
            chars@ == it.seq().take(it.index() as int),
    {
        chars.push(c);
    }
    chars
}

/// The string of the given characters.
pub(crate) fn string_of(chars: &Vec<char>) -> (text: String)
    ensures
        text@ == chars@,
{
    let mut text = String::new();
    let mut i: usize = 0;
    while i < chars.len()
        invariant
            i <= chars.len(),
            text@ == chars@.take(i as int),
        decreases chars.len() - i,
    {
        text.push(chars[i]);
        i += 1;
    }
    assert(chars@.take(i as int) == chars@);
    text
}

/// Whether two strings hold the same text.
pub(crate) fn same(a: &str, b: &str) -> (r: bool)
    ensures
        r == (a@ == b@),
{
    broadcast use vstd::utf8::encode_utf8_decode_utf8;

    let left = a.as_bytes();
    let right = b.as_bytes();
    if left.len() != right.len() {
        return false;
    }
    let mut i: usize = 0;
    while i < left.len()
        invariant
            left@ == encode_utf8(a@),
            right@ == encode_utf8(b@),
            left.len() == right.len(),
            i <= left.len(),
            left@.take(i as int) == right@.take(i as int),
        decreases left.len() - i,
    {
        if left[i] != right[i] {
            return false;
        }
        assert(left@.take(i + 1) == left@.take(i as int).push(left@[i as int]));
        assert(right@.take(i + 1) == right@.take(i as int).push(right@[i as int]));
        i += 1;
    }
    assert(left@.take(i as int) == left@);
    assert(right@.take(i as int) == right@);
    assert(vstd::utf8::decode_utf8(left@) == a@);
    assert(vstd::utf8::decode_utf8(right@) == b@);
    true
}

/// Whether `needle` stands somewhere in `text`.
pub(crate) fn contains(text: &str, needle: &str) -> (r: bool)
    ensures
        r == occurs(needle@, text@),
{
    let hay = chars(text);
    let pin = chars(needle);
    if pin.len() > hay.len() {
        return false;
    }
    let last = hay.len() - pin.len();
    let mut i: usize = 0;
    loop
        invariant
            hay@ == text@,
            pin@ == needle@,
            last == hay.len() - pin.len(),
            i <= last,
            forall|k: int| 0 <= k < i ==> !occurs_at(needle@, text@, k),
        decreases last - i,
    {
        let mut j: usize = 0;
        while j < pin.len() && hay[i + j] == pin[j]
            invariant
                i <= last,
                last == hay.len() - pin.len(),
                j <= pin.len(),
                forall|k: int| 0 <= k < j ==> hay@[i + k] == pin@[k],
            decreases pin.len() - j,
        {
            j += 1;
        }
        if j == pin.len() {
            assert(text@.subrange(i as int, i + needle@.len()) == needle@);
            assert(occurs_at(needle@, text@, i as int));
            return true;
        }
        proof {
            if occurs_at(needle@, text@, i as int) {
                assert(text@.subrange(i as int, i + needle@.len())[j as int] == needle@[j as int]);
            }
        }
        if i == last {
            return false;
        }
        i += 1;
    }
}

/// Whether two texts are in order.
pub(crate) fn in_order(a: &str, b: &str) -> (r: bool)
    ensures
        r == precedes(a@, b@),
{
    let left = chars(a);
    let right = chars(b);
    let mut i: usize = 0;
    assert(a@.skip(0) =~= a@ && b@.skip(0) =~= b@);
    while i < left.len() && i < right.len()
        invariant
            left@ == a@,
            right@ == b@,
            i <= left@.len(),
            i <= right@.len(),
            precedes(a@, b@) == precedes(a@.skip(i as int), b@.skip(i as int)),
        decreases left@.len() - i,
    {
        proof {
            assert(a@.skip(i as int).drop_first() =~= a@.skip(i + 1));
            assert(b@.skip(i as int).drop_first() =~= b@.skip(i + 1));
        }
        if left[i] != right[i] {
            return left[i] < right[i];
        }
        i += 1;
    }
    i == left.len()
}

/// Whether a text begins with another one.
pub(crate) fn starts_with(text: &str, prefix: &str) -> (r: bool)
    ensures
        r == prefix@.is_prefix_of(text@),
{
    let whole = chars(text);
    let start = chars(prefix);
    if start.len() > whole.len() {
        return false;
    }
    let mut i: usize = 0;
    while i < start.len()
        invariant
            whole@ == text@,
            start@ == prefix@,
            start@.len() <= whole@.len(),
            i <= start@.len(),
            forall|k: int| 0 <= k < i ==> whole@[k] == start@[k],
        decreases start@.len() - i,
    {
        if whole[i] != start[i] {
            assert(text@.subrange(0, prefix@.len() as int)[i as int] != prefix@[i as int]);
            return false;
        }
        i += 1;
    }
    assert(text@.subrange(0, prefix@.len() as int) =~= prefix@);
    true
}

fn lower(c: char) -> (r: char)
    ensures
        r == lowered(c),
{
    if c >= 'A' && c <= 'Z' {
        ((c as u8) + 32) as char
    } else {
        c
    }
}

/// Whether two strings are equal but for the case of ASCII letters.
pub(crate) fn same_ignoring_case(a: &str, b: &str) -> (r: bool)
    ensures
        r == same_letters(a@, b@),
{
    let left = chars(a);
    let right = chars(b);
    if left.len() != right.len() {
        return false;
    }
    let mut i: usize = 0;
    while i < left.len()
        invariant
            left@ == a@,
            right@ == b@,
            left.len() == right.len(),
            i <= left.len(),
            forall|k: int| 0 <= k < i ==> lowered(#[trigger] a@[k]) == lowered(b@[k]),
        decreases left.len() - i,
    {
        if lower(left[i]) != lower(right[i]) {
            assert(lowered(a@[i as int]) != lowered(b@[i as int]));
            return false;
        }
        i += 1;
    }
    true
}

// ---------------------------------------------------------------------------
// Laws

/// Texts are in order by the first character in which they differ; what begins like
/// another text and goes on comes after it.
pub proof fn law_order_of_texts(
    common: Seq<char>,
    low: char,
    high: char,
    a: Seq<char>,
    b: Seq<char>,
)
    requires
        low < high,
    ensures
        precedes(common + seq![low] + a, common + seq![high] + b),
        !precedes(common + seq![high] + b, common + seq![low] + a),
        precedes(common, common + b),
    decreases common.len(),
{
    let left = common + seq![low] + a;
    let right = common + seq![high] + b;
    if common.len() > 0 {
        let rest = common.drop_first();
        law_order_of_texts(rest, low, high, a, b);
        assert(left.drop_first() =~= rest + seq![low] + a);
        assert(right.drop_first() =~= rest + seq![high] + b);
        assert((common + b).drop_first() =~= rest + b);
    }
}

/// Texts are the same but for the case of letters only where they are as long, and
/// where each two characters are equal, or are the same ASCII letter in two cases.
pub proof fn law_letters_in_two_cases(a: Seq<char>, b: Seq<char>, i: int)
    requires
        same_letters(a, b),
        0 <= i < a.len(),
    ensures
        a.len() == b.len(),
        a[i] == b[i] || ('A' <= a[i] <= 'Z' && b[i] as int == a[i] as int + 32) || ('A' <= b[i]
            <= 'Z' && a[i] as int == b[i] as int + 32),
        same_letters(b, a),
        same_letters(a, a),
{
    assert(lowered(a[i]) == lowered(b[i]));
}

/// An ASCII letter in one case is the same letter in the other.
pub proof fn law_capitals_count_as_small_letters(c: char, d: char, before: Seq<char>, after: Seq<char>)
    requires
        'A' <= c <= 'Z',
        d as int == c as int + 32,
    ensures
        same_letters(before + seq![c] + after, before + seq![d] + after),
{
    let a = before + seq![c] + after;
    let b = before + seq![d] + after;
    assert forall|i: int| 0 <= i < a.len() implies lowered(#[trigger] a[i]) == lowered(b[i]) by {
        if i != before.len() {
            assert(a[i] == b[i]);
        }
    }
}

} // verus!
