//! JSON trees, and the crossings between trees and text.
use crate::text::{
    in_order, lemma_precedes_both, lemma_precedes_chain, lemma_precedes_itself,
    lemma_precedes_total, precedes, same, same_ignoring_case, same_letters,
};
use vstd::prelude::*;

verus! {

broadcast use vstd::string::group_string_axioms;

/// A JSON value. Integers can be plain; every other number is carried as
/// `serde_json` holds it. Where a key occurs twice in an object, the last one counts.
/// `==` compares what is written, the order of members included.
#[derive(Debug, PartialEq)]
pub enum Json {
    Null,
    Bool(bool),
    Unsigned(u64),
    Signed(i64),
    Number(serde_json::Number),
    Text(String),
    Array(Vec<Json>),
    Object(Vec<(String, Json)>),
}

/// What a [`Json`] means: text as characters, objects as maps.
pub enum Tree {
    Null,
    Bool(bool),
    Unsigned(u64),
    /// A negative integer.
    Signed(i64),
    /// Any other number.
    Number(serde_json::Number),
    Text(Seq<char>),
    Array(Seq<Tree>),
    Object(Map<Seq<char>, Tree>),
}

impl Tree {
    /// The member under a key, where this is an object that has one.
    pub open spec fn find(self, key: Seq<char>) -> Option<Tree> {
        match self {
            Tree::Object(map) => if map.dom().contains(key) {
                Some(map[key])
            } else {
                None
            },
            _ => None,
        }
    }

    /// The member under a key, and null where there is none.
    pub open spec fn at(self, key: Seq<char>) -> Tree {
        match self.find(key) {
            Some(member) => member,
            None => Tree::Null,
        }
    }

    pub open spec fn text(self) -> Option<Seq<char>> {
        match self {
            Tree::Text(text) => Some(text),
            _ => None,
        }
    }

    pub open spec fn unsigned(self) -> Option<u64> {
        match self {
            Tree::Unsigned(n) => Some(n),
            _ => None,
        }
    }

    /// The first element, where this is an array that has one.
    pub open spec fn first(self) -> Option<Tree> {
        match self {
            Tree::Array(items) => if items.len() > 0 {
                Some(items[0])
            } else {
                None
            },
            _ => None,
        }
    }

    /// The first of the object's keys, in the order of their characters, that is a
    /// name but for the case of ASCII letters.
    pub open spec fn key_like(self, name: Seq<char>) -> Option<Seq<char>> {
        match self {
            Tree::Object(map) => like(map, name),
            _ => None,
        }
    }

    /// Members can be written here: an object, or null, which counts as an empty one.
    pub open spec fn takes_members(self) -> bool {
        self is Object || self is Null
    }

    /// The object with one member written.
    pub open spec fn with(self, key: Seq<char>, value: Tree) -> Tree {
        match self {
            Tree::Object(map) => Tree::Object(map.insert(key, value)),
            _ => Tree::Object(Map::empty().insert(key, value)),
        }
    }
}

/// Among the keys that are a name but for the case of ASCII letters, this comes first.
pub open spec fn first_like(map: Map<Seq<char>, Tree>, name: Seq<char>, key: Seq<char>) -> bool {
    &&& map.dom().contains(key)
    &&& same_letters(key, name)
    &&& forall|other: Seq<char>|
        map.dom().contains(other) && #[trigger] same_letters(other, name) ==> precedes(key, other)
}

/// The first of the keys that are a name but for the case of ASCII letters.
pub open spec fn like(map: Map<Seq<char>, Tree>, name: Seq<char>) -> Option<Seq<char>> {
    if exists|key: Seq<char>| first_like(map, name, key) {
        Some(choose|key: Seq<char>| first_like(map, name, key))
    } else {
        None
    }
}

/// The object without members.
pub open spec fn no_members() -> Tree {
    Tree::Object(Map::empty())
}

/// The elements of an array, as trees.
pub open spec fn elements(items: Seq<Json>) -> Seq<Tree>
    decreases items,
{
    if items.len() == 0 {
        Seq::empty()
    } else {
        elements(items.drop_last()).push(items.last().tree())
    }
}

/// The members of an object, the last one of equal keys winning.
pub open spec fn members(pairs: Seq<(String, Json)>) -> Map<Seq<char>, Tree>
    decreases pairs,
{
    if pairs.len() == 0 {
        Map::empty()
    } else {
        members(pairs.drop_last()).insert(pairs.last().0@, pairs.last().1.tree())
    }
}

/// An integer.
pub open spec fn integer(i: i64) -> Tree {
    if i < 0 {
        Tree::Signed(i)
    } else {
        Tree::Unsigned(i as u64)
    }
}

/// A number of `serde_json`: an integer where it reads as one.
pub open spec fn number(n: serde_json::Number) -> Tree {
    match unsigned_of(n) {
        Some(u) => Tree::Unsigned(u),
        None => match signed_of(n) {
            Some(i) if i < 0 => Tree::Signed(i),
            _ => Tree::Number(n),
        },
    }
}

/// The tree that an optional value stands for.
pub open spec fn tree_of(value: Option<Json>) -> Option<Tree> {
    match value {
        Some(value) => Some(value@),
        None => None,
    }
}

impl View for Json {
    type V = Tree;

    open spec fn view(&self) -> Tree {
        self.tree()
    }
}

impl Json {
    pub open spec fn tree(self) -> Tree
        decreases self,
    {
        match self {
            Json::Null => Tree::Null,
            Json::Bool(b) => Tree::Bool(b),
            Json::Unsigned(n) => Tree::Unsigned(n),
            Json::Signed(i) => integer(i),
            Json::Number(n) => number(n),
            Json::Text(s) => Tree::Text(s@),
            Json::Array(items) => Tree::Array(elements(items@)),
            Json::Object(pairs) => Tree::Object(members(pairs@)),
        }
    }

    /// An object without members.
    pub fn object() -> (r: Json)
        ensures
            r@ == no_members(),
    {
        Json::Object(Vec::new())
    }

    /// A JSON string.
    pub fn string(text: &str) -> (r: Json)
        ensures
            r@ == Tree::Text(text@),
    {
        Json::Text(text.to_string())
    }

    /// An array of one element.
    pub fn single(item: Json) -> (r: Json)
        ensures
            r@ == Tree::Array(seq![item@]),
    {
        let mut items: Vec<Json> = Vec::new();
        items.push(item);
        proof {
            reveal_with_fuel(elements, 2);
            assert(items@.drop_last() == Seq::<Json>::empty());
            assert(elements(items@) == seq![item@]);
        }
        Json::Array(items)
    }

    /// An array.
    pub fn list(items: Vec<Json>) -> (r: Json)
        ensures
            r@ == Tree::Array(items@.map_values(|item: Json| item@)),
    {
        proof {
            lemma_elements(items@);
            assert(elements(items@) =~= items@.map_values(|item: Json| item@));
        }
        Json::Array(items)
    }

    /// The first of the object's keys, in the order of their characters, that is a
    /// name but for the case of ASCII letters.
    pub fn key_like(&self, name: &str) -> (r: Option<&str>)
        ensures
            match r {
                Some(key) => self@.key_like(name@) == Some(key@),
                None => self@.key_like(name@) is None,
            },
    {
        match self {
            Json::Object(pairs) => {
                let mut best: Option<usize> = None;
                let mut i: usize = 0;
                while i < pairs.len()
                    invariant
                        self@ == Tree::Object(members(pairs@)),
                        i <= pairs@.len(),
                        match best {
                            Some(b) => b < i && same_letters(pairs@[b as int].0@, name@)
                                && forall|k: int|
                                0 <= k < i && same_letters(#[trigger] pairs@[k].0@, name@)
                                    ==> precedes(pairs@[b as int].0@, pairs@[k].0@),
                            None => forall|k: int|
                                0 <= k < i ==> !same_letters(#[trigger] pairs@[k].0@, name@),
                        },
                    decreases pairs@.len() - i,
                {
                    let key = pairs[i].0.as_str();
                    if same_ignoring_case(key, name) {
                        proof {
                            lemma_precedes_itself(key@);
                        }
                        match best {
                            Some(b) => {
                                if !in_order(pairs[b].0.as_str(), key) {
                                    proof {
                                        let had = pairs@[b as int].0@;
                                        lemma_precedes_total(had, key@);
                                        assert forall|k: int|
                                            0 <= k < i && same_letters(
                                                #[trigger] pairs@[k].0@,
                                                name@,
                                            ) implies precedes(key@, pairs@[k].0@) by {
                                            lemma_precedes_chain(key@, had, pairs@[k].0@);
                                        }
                                    }
                                    best = Some(i);
                                }
                            },
                            None => {
                                best = Some(i);
                            },
                        }
                    }
                    i += 1;
                }
                proof {
                    lemma_keys(pairs@);
                }
                match best {
                    Some(b) => {
                        proof {
                            let key = pairs@[b as int].0@;
                            assert(first_like(members(pairs@), name@, key));
                            let other = like(members(pairs@), name@)->Some_0;
                            assert(first_like(members(pairs@), name@, other));
                            lemma_precedes_both(key, other);
                        }
                        Some(pairs[b].0.as_str())
                    },
                    None => {
                        proof {
                            assert(forall|key: Seq<char>|
                                !#[trigger] first_like(members(pairs@), name@, key));
                        }
                        None
                    },
                }
            },
            _ => None,
        }
    }

    /// The member under a key.
    pub fn get(&self, key: &str) -> (r: Option<&Json>)
        ensures
            match r {
                Some(member) => self@.find(key@) == Some(member@),
                None => self@.find(key@) is None,
            },
    {
        match self {
            Json::Object(pairs) => {
                let mut i: usize = pairs.len();
                while i > 0
                    invariant
                        self@ == Tree::Object(members(pairs@)),
                        i <= pairs.len(),
                        forall|k: int| i <= k < pairs.len() ==> pairs@[k].0@ != key@,
                    decreases i,
                {
                    i -= 1;
                    if same(pairs[i].0.as_str(), key) {
                        proof {
                            lemma_last_member(pairs@, i as int);
                        }
                        return Some(&pairs[i].1);
                    }
                }
                proof {
                    lemma_no_member(pairs@, key@);
                }
                None
            },
            _ => None,
        }
    }

    /// The text of a JSON string.
    pub fn text(&self) -> (r: Option<&str>)
        ensures
            match r {
                Some(text) => self@.text() == Some(text@),
                None => self@.text() is None,
            },
    {
        match self {
            Json::Text(text) => Some(text.as_str()),
            _ => None,
        }
    }

    /// The text of the member under a key.
    pub fn text_at(&self, key: &str) -> (r: Option<&str>)
        ensures
            match r {
                Some(text) => self@.at(key@).text() == Some(text@),
                None => self@.at(key@).text() is None,
            },
    {
        match self.get(key) {
            Some(member) => member.text(),
            None => None,
        }
    }

    /// Whether the member under a key is the given text.
    pub fn is_text_at(&self, key: &str, text: &str) -> (r: bool)
        ensures
            r == (self@.at(key@) == Tree::Text(text@)),
    {
        match self.text_at(key) {
            Some(found) => same(found, text),
            None => false,
        }
    }

    /// Whether the member under a key is `true`.
    pub fn is_true_at(&self, key: &str) -> (r: bool)
        ensures
            r == (self@.at(key@) == Tree::Bool(true)),
    {
        match self.get(key) {
            Some(Json::Bool(b)) => *b,
            _ => false,
        }
    }

    /// The unsigned integer under a key.
    pub fn unsigned_at(&self, key: &str) -> (r: Option<u64>)
        ensures
            r == self@.at(key@).unsigned(),
    {
        match self.get(key) {
            Some(Json::Unsigned(n)) => Some(*n),
            Some(Json::Signed(i)) => if *i >= 0 {
                Some(*i as u64)
            } else {
                None
            },
            Some(Json::Number(n)) => n.as_u64(),
            _ => None,
        }
    }

    pub fn is_object(&self) -> (r: bool)
        ensures
            r == self@ is Object,
    {
        match self {
            Json::Object(_) => true,
            _ => false,
        }
    }

    /// The first element of an array.
    pub fn first(&self) -> (r: Option<&Json>)
        ensures
            match r {
                Some(item) => self@.first() == Some(item@),
                None => self@.first() is None,
            },
    {
        match self {
            Json::Array(items) => {
                proof {
                    lemma_elements(items@);
                }
                if items.len() > 0 {
                    Some(&items[0])
                } else {
                    None
                }
            },
            _ => None,
        }
    }

    /// The object with one member written.
    pub fn with(self, key: &str, value: Json) -> (r: Json)
        requires
            self@.takes_members(),
        ensures
            r@ == self@.with(key@, value@),
    {
        let mut pairs: Vec<(String, Json)> = match self {
            Json::Object(pairs) => pairs,
            _ => Vec::new(),
        };
        let ghost before = pairs@;
        assert(self@.with(key@, value@) == Tree::Object(members(before).insert(key@, value@)));
        let mut i: usize = pairs.len();
        while i > 0
            invariant
                pairs@ == before,
                i <= pairs.len(),
                forall|k: int| i <= k < pairs.len() ==> before[k].0@ != key@,
                self@.with(key@, value@) == Tree::Object(members(before).insert(key@, value@)),
            decreases i,
        {
            i -= 1;
            if same(pairs[i].0.as_str(), key) {
                let pair = (key.to_string(), value);
                pairs[i] = pair;
                proof {
                    lemma_replace_member(before, i as int, pair);
                }
                return Json::Object(pairs);
            }
        }
        let pair = (key.to_string(), value);
        pairs.push(pair);
        assert(pairs@.drop_last() == before);
        Json::Object(pairs)
    }

    /// The member under a key, moved out; null where there is none.
    pub fn take(self, key: &str) -> (r: Json)
        ensures
            r@ == self@.at(key@),
    {
        match self {
            Json::Object(list) => {
                let mut pairs: Vec<(String, Json)> = list;
                while pairs.len() > 0
                    invariant
                        Tree::Object(members(pairs@)).at(key@) == self@.at(key@),
                    decreases pairs.len(),
                {
                    match pairs.pop() {
                        Some((name, member)) => {
                            if same(name.as_str(), key) {
                                return member;
                            }
                        },
                        None => {},
                    }
                }
                Json::Null
            },
            _ => Json::Null,
        }
    }

    fn copy(&self) -> (r: Json)
        ensures
            r@ == self@,
        decreases self,
    {
        match self {
            Json::Null => Json::Null,
            Json::Bool(b) => Json::Bool(*b),
            Json::Unsigned(n) => Json::Unsigned(*n),
            Json::Signed(i) => Json::Signed(*i),
            Json::Number(n) => Json::Number(n.clone()),
            Json::Text(s) => Json::Text(s.clone()),
            Json::Array(items) => {
                let mut out: Vec<Json> = Vec::new();
                let mut i: usize = 0;
                while i < items.len()
                    invariant
                        i <= items.len(),
                        elements(out@) == elements(items@.take(i as int)),
                        decreases_to!(self => items@),
                    decreases items.len() - i,
                {
                    let ghost before = out@;
                    out.push(items[i].copy());
                    assert(out@.drop_last() == before);
                    assert(items@.take(i + 1).drop_last() == items@.take(i as int));
                    i += 1;
                }
                assert(items@.take(i as int) == items@);
                Json::Array(out)
            },
            Json::Object(pairs) => {
                let mut out: Vec<(String, Json)> = Vec::new();
                let mut i: usize = 0;
                while i < pairs.len()
                    invariant
                        i <= pairs.len(),
                        members(out@) == members(pairs@.take(i as int)),
                        decreases_to!(self => pairs@),
                    decreases pairs.len() - i,
                {
                    let ghost before = out@;
                    out.push((pairs[i].0.clone(), pairs[i].1.copy()));
                    assert(out@.drop_last() == before);
                    assert(pairs@.take(i + 1).drop_last() == pairs@.take(i as int));
                    i += 1;
                }
                assert(pairs@.take(i as int) == pairs@);
                Json::Object(out)
            },
        }
    }
}

impl Clone for Json {
    fn clone(&self) -> (r: Self)
        ensures
            r@ == self@,
    {
        self.copy()
    }
}

proof fn lemma_elements(items: Seq<Json>)
    ensures
        elements(items).len() == items.len(),
        forall|i: int| 0 <= i < items.len() ==> #[trigger] elements(items)[i] == items[i].tree(),
    decreases items.len(),
{
    if items.len() > 0 {
        lemma_elements(items.drop_last());
    }
}

/// What is nested no deeper than some levels is nested no deeper than more.
pub proof fn lemma_plain_deeper(tree: Tree, depth: nat, more: nat)
    requires
        plain(tree, depth),
        depth <= more,
    ensures
        plain(tree, more),
    decreases depth,
{
    match tree {
        Tree::Array(items) => {
            assert forall|i: int| 0 <= i < items.len() implies plain(
                #[trigger] items[i],
                (more - 1) as nat,
            ) by {
                lemma_plain_deeper(items[i], (depth - 1) as nat, (more - 1) as nat);
            }
        },
        Tree::Object(map) => {
            assert forall|key: Seq<char>| #[trigger] map.dom().contains(key) implies plain(
                map[key],
                (more - 1) as nat,
            ) by {
                lemma_plain_deeper(map[key], (depth - 1) as nat, (more - 1) as nat);
            }
        },
        _ => {},
    }
}

proof fn lemma_keys(pairs: Seq<(String, Json)>)
    ensures
        forall|i: int| 0 <= i < pairs.len() ==> members(pairs).dom().contains(#[trigger] pairs[i].0@),
        forall|key: Seq<char>| #[trigger]
            members(pairs).dom().contains(key) ==> exists|i: int|
                0 <= i < pairs.len() && #[trigger] pairs[i].0@ == key,
    decreases pairs.len(),
{
    if pairs.len() > 0 {
        let front = pairs.drop_last();
        lemma_keys(front);
        assert forall|i: int| 0 <= i < pairs.len() implies members(pairs).dom().contains(
            #[trigger] pairs[i].0@,
        ) by {
            if i < front.len() {
                assert(front[i] == pairs[i]);
                assert(members(front).dom().contains(front[i].0@));
            }
        }
        assert forall|key: Seq<char>| #[trigger] members(pairs).dom().contains(key) implies exists|i: int|
            0 <= i < pairs.len() && #[trigger] pairs[i].0@ == key by {
            if key == pairs.last().0@ {
                assert(pairs[pairs.len() - 1].0@ == key);
            } else {
                assert(members(front).dom().contains(key));
                let i = choose|i: int| 0 <= i < front.len() && #[trigger] front[i].0@ == key;
                assert(pairs[i].0@ == key);
            }
        }
    }
}

proof fn lemma_last_member(pairs: Seq<(String, Json)>, i: int)
    requires
        0 <= i < pairs.len(),
        forall|k: int| i < k < pairs.len() ==> pairs[k].0@ != pairs[i].0@,
    ensures
        members(pairs).dom().contains(pairs[i].0@),
        members(pairs)[pairs[i].0@] == pairs[i].1.tree(),
    decreases pairs.len(),
{
    if i < pairs.len() - 1 {
        lemma_last_member(pairs.drop_last(), i);
    }
}

proof fn lemma_no_member(pairs: Seq<(String, Json)>, key: Seq<char>)
    requires
        forall|k: int| 0 <= k < pairs.len() ==> pairs[k].0@ != key,
    ensures
        !members(pairs).dom().contains(key),
    decreases pairs.len(),
{
    if pairs.len() > 0 {
        lemma_no_member(pairs.drop_last(), key);
    }
}

proof fn lemma_replace_member(pairs: Seq<(String, Json)>, i: int, pair: (String, Json))
    requires
        0 <= i < pairs.len(),
        pair.0@ == pairs[i].0@,
        forall|k: int| i < k < pairs.len() ==> pairs[k].0@ != pairs[i].0@,
    ensures
        members(pairs.update(i, pair)) == members(pairs).insert(pair.0@, pair.1.tree()),
    decreases pairs.len(),
{
    let next = pairs.update(i, pair);
    if i == pairs.len() - 1 {
        assert(next.drop_last() == pairs.drop_last());
    } else {
        lemma_replace_member(pairs.drop_last(), i, pair);
        assert(next.drop_last() == pairs.drop_last().update(i, pair));
    }
    assert(members(next) =~= members(pairs).insert(pair.0@, pair.1.tree()));
}

// ---------------------------------------------------------------------------
// Values of serde_json

/// A JSON number of `serde_json`, carried through unread.
#[verifier::external_type_specification]
#[verifier::external_body]
pub struct ExNumber(serde_json::Number);

/// A JSON value of `serde_json`.
#[verifier::external_type_specification]
#[verifier::external_body]
pub struct ExValue(serde_json::Value);

/// A JSON object of `serde_json`.
#[verifier::external_type_specification]
#[verifier::external_body]
#[verifier::reject_recursive_types(K)]
#[verifier::reject_recursive_types(V)]
pub struct ExMap<K, V>(serde_json::Map<K, V>);

/// `serde_json::Number::clone` gives the same number.
pub assume_specification[ <serde_json::Number as Clone>::clone ](number: &serde_json::Number) -> (r: serde_json::Number)
    ensures
        r == *number,
;

/// What `serde_json::Number::as_u64` reads from a number.
pub uninterp spec fn unsigned_of(number: serde_json::Number) -> Option<u64>;

/// `serde_json::Number::as_u64` gives the number as a `u64` where it is one.
pub assume_specification[ serde_json::Number::as_u64 ](number: &serde_json::Number) -> (r: Option<u64>)
    ensures
        r == unsigned_of(*number),
;

/// What `serde_json::Number::as_i64` reads from a number.
pub uninterp spec fn signed_of(number: serde_json::Number) -> Option<i64>;

/// `serde_json::Number::as_i64` gives the number as an `i64` where it is one.
pub assume_specification[ serde_json::Number::as_i64 ](number: &serde_json::Number) -> (r: Option<i64>)
    ensures
        r == signed_of(*number),
;

/// The members of an object of `serde_json`.
pub uninterp spec fn members_of(map: serde_json::Map<String, serde_json::Value>) -> Map<
    Seq<char>,
    Tree,
>;

/// `serde_json::Map::new` makes an object without members.
pub assume_specification[ serde_json::Map::<String, serde_json::Value>::new ]() -> (r:
    serde_json::Map<String, serde_json::Value>)
    ensures
        Tree::Object(members_of(r)) == no_members(),
;

/// `serde_json::Map::insert` writes a member, in place of one with the same key,
/// which it gives back.
pub assume_specification[ serde_json::Map::<String, serde_json::Value>::insert ](
    map: &mut serde_json::Map<String, serde_json::Value>,
    k: String,
    v: serde_json::Value,
) -> (r: Option<serde_json::Value>)
    ensures
        members_of(*final(map)) == members_of(*old(map)).insert(k@, held(v)),
        match r {
            Some(former) => members_of(*old(map)).dom().contains(k@) && held(former) == members_of(
                *old(map),
            )[k@],
            None => !members_of(*old(map)).dom().contains(k@),
        },
;

/// What a value of `serde_json` holds.
pub uninterp spec fn held(value: serde_json::Value) -> Tree;

/// One layer of a value of `serde_json`.
enum Layer {
    Null,
    Bool(bool),
    Number(serde_json::Number),
    Text(String),
    Array(Vec<serde_json::Value>),
    Object(serde_json::Map<String, serde_json::Value>),
}

impl Layer {
    spec fn tree(self) -> Tree {
        match self {
            Layer::Null => Tree::Null,
            Layer::Bool(b) => Tree::Bool(b),
            Layer::Number(n) => number(n),
            Layer::Text(s) => Tree::Text(s@),
            Layer::Array(items) => Tree::Array(items@.map_values(|v: serde_json::Value| held(v))),
            Layer::Object(map) => Tree::Object(members_of(map)),
        }
    }
}

/// The members that pairs of a key and a value make.
spec fn held_members(pairs: Seq<(String, serde_json::Value)>) -> Map<Seq<char>, Tree>
    decreases pairs.len(),
{
    if pairs.len() == 0 {
        Map::empty()
    } else {
        held_members(pairs.drop_last()).insert(pairs.last().0@, held(pairs.last().1))
    }
}

/// No key occurs twice.
spec fn distinct_keys(pairs: Seq<(String, serde_json::Value)>) -> bool {
    forall|i: int, j: int| 0 <= i < j < pairs.len() ==> pairs[i].0@ != pairs[j].0@
}

/// Tells the variants of `serde_json::Value` apart; the fields move over as they are.
#[verifier::external_body]
fn peel(value: serde_json::Value) -> (layer: Layer)
    ensures
        layer.tree() == held(value),
{
    match value {
        serde_json::Value::Null => Layer::Null,
        serde_json::Value::Bool(b) => Layer::Bool(b),
        serde_json::Value::Number(n) => Layer::Number(n),
        serde_json::Value::String(s) => Layer::Text(s),
        serde_json::Value::Array(items) => Layer::Array(items),
        serde_json::Value::Object(map) => Layer::Object(map),
    }
}

/// Makes a `serde_json::Value` of one layer; the fields move over as they are.
#[verifier::external_body]
fn wrap(layer: Layer) -> (value: serde_json::Value)
    ensures
        held(value) == layer.tree(),
{
    match layer {
        Layer::Null => serde_json::Value::Null,
        Layer::Bool(b) => serde_json::Value::Bool(b),
        Layer::Number(n) => serde_json::Value::Number(n),
        Layer::Text(s) => serde_json::Value::String(s),
        Layer::Array(items) => serde_json::Value::Array(items),
        Layer::Object(map) => serde_json::Value::Object(map),
    }
}

/// `serde_json::Number::from` a `u64` makes a number that reads as it.
#[verifier::external_body]
fn number_from_unsigned(n: u64) -> (r: serde_json::Number)
    ensures
        unsigned_of(r) == Some(n),
{
    serde_json::Number::from(n)
}

/// `serde_json::Number::from` an `i64` makes a number that reads as it, as a `u64`
/// too where it is not negative.
#[verifier::external_body]
fn number_from_signed(i: i64) -> (r: serde_json::Number)
    ensures
        signed_of(r) == Some(i),
        unsigned_of(r) == if i < 0 {
            None
        } else {
            Some(i as u64)
        },
{
    serde_json::Number::from(i)
}

/// The iteration over a `serde_json::Map` gives out every member, each key once.
#[verifier::external_body]
fn entries(map: serde_json::Map<String, serde_json::Value>) -> (pairs: Vec<
    (String, serde_json::Value),
>)
    ensures
        distinct_keys(pairs@),
        held_members(pairs@) == members_of(map),
{
    map.into_iter().collect()
}

proof fn lemma_held_member(pairs: Seq<(String, serde_json::Value)>, i: int)
    requires
        0 <= i < pairs.len(),
        distinct_keys(pairs),
    ensures
        held_members(pairs).dom().finite(),
        held_members(pairs).dom().contains(pairs[i].0@),
        held_members(pairs)[pairs[i].0@] == held(pairs[i].1),
    decreases pairs.len(),
{
    reveal_with_fuel(held_members, 2);
    if i < pairs.len() - 1 {
        lemma_held_member(pairs.drop_last(), i);
    } else if i > 0 {
        lemma_held_member(pairs.drop_last(), i - 1);
    }
}

fn from_value(value: serde_json::Value) -> (json: Json)
    ensures
        json@ == held(value),
    decreases held(value),
{
    match peel(value) {
        Layer::Null => Json::Null,
        Layer::Bool(b) => Json::Bool(b),
        Layer::Number(n) => match n.as_u64() {
            Some(u) => Json::Unsigned(u),
            None => match n.as_i64() {
                Some(i) if i < 0 => Json::Signed(i),
                _ => Json::Number(n),
            },
        },
        Layer::Text(s) => Json::Text(s),
        Layer::Array(items) => {
            let ghost trees = items@.map_values(|v: serde_json::Value| held(v));
            let ghost whole = items@;
            let mut out: Vec<Json> = Vec::new();
            for item in it: items
                invariant
                    it.seq() == whole,
                    trees == whole.map_values(|v: serde_json::Value| held(v)),
                    held(value) == Tree::Array(trees),
                    elements(out@) == trees.take(it.index() as int),
            {
                let ghost before = out@;
                assert(held(item) == trees[it.index() as int]);
                assert(decreases_to!(held(value) => held(value)->Array_0));
                assert(decreases_to!(trees => trees[it.index() as int]));
                out.push(from_value(item));
                assert(out@.drop_last() == before);
                assert(trees.take(it.index() + 1) == trees.take(it.index() as int).push(held(item)));
            }
            assert(trees.take(whole.len() as int) == trees);
            Json::Array(out)
        },
        Layer::Object(map) => {
            let pairs = entries(map);
            let ghost whole = pairs@;
            let mut out: Vec<(String, Json)> = Vec::new();
            for pair in it: pairs
                invariant
                    it.seq() == whole,
                    held(value) == Tree::Object(held_members(whole)),
                    distinct_keys(whole),
                    members(out@) == held_members(whole.take(it.index() as int)),
            {
                let ghost before = out@;
                proof {
                    assert(pair == whole[it.index() as int]);
                    lemma_held_member(whole, it.index() as int);
                    assert(decreases_to!(held(value) => held(value)->Object_0));
                    assert(decreases_to!(held_members(whole) => held_members(whole)[pair.0@]));
                    assert(whole.take(it.index() + 1).drop_last() == whole.take(it.index() as int));
                }
                out.push((pair.0, from_value(pair.1)));
                assert(out@.drop_last() == before);
            }
            assert(whole.take(whole.len() as int) == whole);
            Json::Object(out)
        },
    }
}

fn to_value(json: &Json) -> (value: serde_json::Value)
    ensures
        held(value) == json@,
    decreases json,
{
    match json {
        Json::Null => wrap(Layer::Null),
        Json::Bool(b) => wrap(Layer::Bool(*b)),
        Json::Unsigned(n) => wrap(Layer::Number(number_from_unsigned(*n))),
        Json::Signed(i) => wrap(Layer::Number(number_from_signed(*i))),
        Json::Number(n) => wrap(Layer::Number(n.clone())),
        Json::Text(s) => wrap(Layer::Text(s.clone())),
        Json::Array(items) => {
            let mut out: Vec<serde_json::Value> = Vec::new();
            let mut i: usize = 0;
            while i < items.len()
                invariant
                    i <= items.len(),
                    decreases_to!(json => items@),
                    out@.map_values(|v: serde_json::Value| held(v)) == elements(items@.take(i as int)),
                decreases items.len() - i,
            {
                let ghost before = out@.map_values(|v: serde_json::Value| held(v));
                out.push(to_value(&items[i]));
                assert(out@.map_values(|v: serde_json::Value| held(v)) == before.push(items@[i as int].tree()));
                assert(items@.take(i + 1).drop_last() == items@.take(i as int));
                i += 1;
            }
            assert(items@.take(i as int) == items@);
            wrap(Layer::Array(out))
        },
        Json::Object(pairs) => {
            let mut out: serde_json::Map<String, serde_json::Value> = serde_json::Map::new();
            let mut i: usize = 0;
            while i < pairs.len()
                invariant
                    i <= pairs.len(),
                    decreases_to!(json => pairs@),
                    members_of(out) == members(pairs@.take(i as int)),
                decreases pairs.len() - i,
            {
                let _ = out.insert(pairs[i].0.clone(), to_value(&pairs[i].1));
                assert(pairs@.take(i + 1).drop_last() == pairs@.take(i as int));
                i += 1;
            }
            assert(pairs@.take(i as int) == pairs@);
            wrap(Layer::Object(out))
        },
    }
}

// ---------------------------------------------------------------------------
// Text and bytes

/// What `serde_json` reads from a text.
pub uninterp spec fn read_text(text: Seq<char>) -> Option<Tree>;

/// What `serde_json` reads from bytes.
pub uninterp spec fn read_bytes(bytes: Seq<u8>) -> Option<Tree>;

/// A tree that is nested no deeper than so many levels and whose numbers are all
/// integers: `serde_json` reads it back as it wrote it. Other numbers may lose
/// digits, and deeper trees are refused.
pub open spec fn plain(tree: Tree, depth: nat) -> bool
    decreases depth,
{
    match tree {
        Tree::Number(_) => false,
        Tree::Array(items) => depth > 0 && forall|i: int|
            0 <= i < items.len() ==> plain(#[trigger] items[i], (depth - 1) as nat),
        Tree::Object(map) => depth > 0 && forall|key: Seq<char>| #[trigger]
            map.dom().contains(key) ==> plain(map[key], (depth - 1) as nat),
        _ => true,
    }
}

/// The levels that trees may be nested to be read back.
pub open spec fn readable_depth() -> nat {
    127
}

/// A tree that is read back from the text that is written for it.
pub open spec fn reads_back(tree: Tree) -> bool {
    read_text(written(tree)) == Some(tree)
}

/// A text without an end of line.
pub open spec fn single_line(text: Seq<char>) -> bool {
    forall|i: int| 0 <= i < text.len() ==> #[trigger] text[i] != '\n' && text[i] != '\r'
}

/// The compact text that `serde_json` writes for a tree.
pub uninterp spec fn written(tree: Tree) -> Seq<char>;

/// `serde_json::from_str` into a `serde_json::Value`: a function of the text.
#[verifier::external_body]
fn value_from_str(text: &str) -> (value: Option<serde_json::Value>)
    ensures
        match value {
            Some(value) => read_text(text@) == Some(held(value)),
            None => read_text(text@) is None,
        },
{
    serde_json::from_str::<serde_json::Value>(text).ok()
}

/// `serde_json::from_slice` into a `serde_json::Value`: a function of the bytes.
#[verifier::external_body]
fn value_from_slice(bytes: &[u8]) -> (value: Option<serde_json::Value>)
    ensures
        match value {
            Some(value) => read_bytes(bytes@) == Some(held(value)),
            None => read_bytes(bytes@) is None,
        },
{
    serde_json::from_slice::<serde_json::Value>(bytes).ok()
}

/// The `Display` of a `serde_json::Value`: compact text, the members of an
/// object in the order of their keys, so a function of what the value holds. It
/// has no line ends, as those inside strings are escaped. `serde_json::from_str`
/// reads it back, but for numbers that are not integers and for nesting beyond its
/// limit of 127 levels.
#[verifier::external_body]
fn value_to_string(value: &serde_json::Value) -> (text: String)
    ensures
        text@ == written(held(*value)),
        single_line(text@),
        plain(held(*value), readable_depth()) ==> read_text(text@) == Some(held(*value)),
{
    value.to_string()
}

impl Json {
    /// Reads a JSON text.
    pub fn parse(text: &str) -> (r: Option<Json>)
        ensures
            tree_of(r) == read_text(text@),
    {
        match value_from_str(text) {
            Some(value) => Some(from_value(value)),
            None => None,
        }
    }

    /// Reads JSON from bytes.
    pub fn parse_bytes(bytes: &[u8]) -> (r: Option<Json>)
        ensures
            tree_of(r) == read_bytes(bytes@),
    {
        match value_from_slice(bytes) {
            Some(value) => Some(from_value(value)),
            None => None,
        }
    }

    /// Writes the compact JSON text, in one line.
    pub fn render(&self) -> (text: String)
        ensures
            text@ == written(self@),
            single_line(text@),
            plain(self@, readable_depth()) ==> reads_back(self@),
    {
        let value = to_value(self);
        value_to_string(&value)
    }
}

// ---------------------------------------------------------------------------
// Laws

/// The object in a tree, if any, has finitely many members: as every tree does that
/// a value stands for.
pub open spec fn finite_members(tree: Tree) -> bool {
    tree matches Tree::Object(map) ==> map.dom().finite()
}

/// Every value stands for a tree with finitely many members.
pub proof fn law_values_have_finite_members(value: Json)
    ensures
        finite_members(value@),
{
    if let Json::Object(pairs) = value {
        lemma_members_finite(pairs@);
    }
}

proof fn lemma_members_finite(pairs: Seq<(String, Json)>)
    ensures
        members(pairs).dom().finite(),
    decreases pairs.len(),
{
    if pairs.len() > 0 {
        lemma_members_finite(pairs.drop_last());
    }
}

/// Of finitely many texts, one comes first.
proof fn lemma_least(candidates: Set<Seq<char>>)
    requires
        candidates.finite(),
        candidates.len() > 0,
    ensures
        exists|least: Seq<char>| #[trigger]
            candidates.contains(least) && forall|other: Seq<char>| #[trigger]
                candidates.contains(other) ==> precedes(least, other),
    decreases candidates.len(),
{
    let one = candidates.choose();
    assert(candidates.contains(one));
    let rest = candidates.remove(one);
    lemma_precedes_itself(one);
    if rest.len() == 0 {
        assert forall|other: Seq<char>| #[trigger] candidates.contains(other) implies precedes(
            one,
            other,
        ) by {
            if other != one {
                assert(rest.contains(other));
                assert(rest.len() > 0);
            }
        }
    } else {
        lemma_least(rest);
        let least = choose|least: Seq<char>| #[trigger]
            rest.contains(least) && forall|other: Seq<char>| #[trigger]
                rest.contains(other) ==> precedes(least, other);
        lemma_precedes_total(one, least);
        let first = if precedes(one, least) {
            one
        } else {
            least
        };
        assert forall|other: Seq<char>| #[trigger] candidates.contains(other) implies precedes(
            first,
            other,
        ) by {
            if other != one {
                assert(rest.contains(other));
                if precedes(one, least) {
                    lemma_precedes_chain(one, least, other);
                }
            }
        }
        assert(candidates.contains(first));
    }
}

/// A key is found that is a name but for the case of ASCII letters exactly where the
/// object has one, and of several the one that comes first.
pub proof fn law_keys_are_found_in_any_case(tree: Tree, name: Seq<char>, other: Seq<char>)
    requires
        finite_members(tree),
    ensures
        tree.key_like(name) is Some <==> exists|key: Seq<char>| #[trigger]
            tree.find(key) is Some && same_letters(key, name),
        tree.key_like(name) matches Some(key) ==> {
            &&& tree.find(key) is Some
            &&& same_letters(key, name)
            &&& tree.find(other) is Some && same_letters(other, name) ==> precedes(key, other)
        },
{
    if let Tree::Object(map) = tree {
        if let Some(key) = like(map, name) {
            assert(first_like(map, name, key));
            assert(tree.find(key) is Some);
        }
        if exists|key: Seq<char>| #[trigger] tree.find(key) is Some && same_letters(key, name) {
            let some = choose|key: Seq<char>| #[trigger]
                tree.find(key) is Some && same_letters(key, name);
            let candidates = map.dom().filter(|key: Seq<char>| same_letters(key, name));
            assert(candidates.contains(some));
            lemma_least(candidates);
            let least = choose|least: Seq<char>| #[trigger]
                candidates.contains(least) && forall|other: Seq<char>| #[trigger]
                    candidates.contains(other) ==> precedes(least, other);
            assert forall|other: Seq<char>|
                map.dom().contains(other) && #[trigger] same_letters(other, name) implies precedes(
                least,
                other,
            ) by {
                assert(candidates.contains(other));
            }
            assert(first_like(map, name, least));
        }
    }
}

/// Writing a member is reading it back, and leaves the other members as they were;
/// null becomes an object by it. What has no member reads as null.
pub proof fn law_members_are_read_back(tree: Tree, key: Seq<char>, value: Tree, other: Seq<char>)
    ensures
        tree.with(key, value) is Object,
        tree.with(key, value).find(key) == Some(value),
        tree.with(key, value).at(key) == value,
        other != key && tree is Object ==> tree.with(key, value).find(other) == tree.find(other),
        other != key && !(tree is Object) ==> tree.with(key, value).find(other) is None,
        tree.find(key) is None ==> tree.at(key) == Tree::Null,
        !(tree is Object) ==> tree.find(key) is None,
        no_members().find(key) is None,
{
}

/// What is read from a tree: a text from a text, a whole number from one that is not
/// negative, the first element from an array that is not empty, and else nothing.
pub proof fn law_trees_are_read_by_kind(tree: Tree)
    ensures
        tree.text() is Some <==> tree is Text,
        tree is Text ==> tree.text() == Some(tree->Text_0),
        tree.unsigned() is Some <==> tree is Unsigned,
        tree is Unsigned ==> tree.unsigned() == Some(tree->Unsigned_0),
        tree.first() is Some <==> tree is Array && tree->Array_0.len() > 0,
        tree is Array && tree->Array_0.len() > 0 ==> tree.first() == Some(tree->Array_0[0]),
{
}

/// Of equal keys in a value the last one counts, and the order of the others does not.
pub proof fn law_the_last_of_equal_keys_counts(
    pairs: Seq<(String, Json)>,
    pair: (String, Json),
    key: Seq<char>,
)
    ensures
        members(pairs.push(pair)).dom().contains(pair.0@),
        members(pairs.push(pair))[pair.0@] == pair.1@,
        key != pair.0@ ==> members(pairs.push(pair)).dom().contains(key) == members(pairs).dom().contains(
            key,
        ),
        key != pair.0@ && members(pairs).dom().contains(key) ==> members(pairs.push(pair))[key]
            == members(pairs)[key],
        members(Seq::empty()).dom() == Set::<Seq<char>>::empty(),
{
    assert(pairs.push(pair).drop_last() == pairs);
}

} // verus!
