//! JSON documents as plain values, read and written through `serde_json`.

use vstd::prelude::*;
use crate::text;

verus! {

// ---------------------------------------------------------------------------------------
// Model
// ---------------------------------------------------------------------------------------

/// What a JSON document says. Numbers that are no integers are not told apart.
pub enum JsonTree {
    Null,
    Bool(bool),
    Integer(int),
    Fraction,
    Text(Seq<char>),
    Array(Seq<JsonTree>),
    Object(Map<Seq<char>, JsonTree>),
}

impl JsonTree {
    /// The member `key` of an object.
    pub open spec fn child(self, key: Seq<char>) -> Option<JsonTree> {
        match self {
            JsonTree::Object(members) => if members.dom().contains(key) {
                Some(members[key])
            } else {
                None
            },
            _ => None,
        }
    }

    /// The text of a string.
    pub open spec fn text(self) -> Option<Seq<char>> {
        match self {
            JsonTree::Text(text) => Some(text),
            _ => None,
        }
    }

    /// The truth value of a boolean.
    pub open spec fn truth(self) -> Option<bool> {
        match self {
            JsonTree::Bool(truth) => Some(truth),
            _ => None,
        }
    }

    /// The value of an integer from `low` to `high`.
    pub open spec fn integer(self, low: int, high: int) -> Option<int> {
        match self {
            JsonTree::Integer(n) => if low <= n <= high {
                Some(n)
            } else {
                None
            },
            _ => None,
        }
    }

    /// No number in the document has a fractional part.
    pub open spec fn integral(self) -> bool
        decreases self,
    {
        match self {
            JsonTree::Fraction => false,
            JsonTree::Array(items) => forall|i: int|
                0 <= i < items.len() ==> (#[trigger] items[i]).integral(),
            JsonTree::Object(members) => forall|key: Seq<char>|
                members.dom().contains(key) ==> (#[trigger] members[key]).integral(),
            _ => true,
        }
    }

    /// Arrays and objects stand in each other at most `n` deep.
    pub open spec fn nested_within(self, n: nat) -> bool
        decreases n,
    {
        match self {
            JsonTree::Array(items) => n > 0 && forall|i: int|
                0 <= i < items.len() ==> (#[trigger] items[i]).nested_within((n - 1) as nat),
            JsonTree::Object(members) => n > 0 && forall|key: Seq<char>|
                members.dom().contains(key) ==> (#[trigger] members[key]).nested_within(
                    (n - 1) as nat,
                ),
            _ => true,
        }
    }
}

/// How deep arrays and objects may stand in each other in a document that is read.
pub const MAX_NESTING: usize = 127;

proof fn lemma_item_is_smaller(tree: JsonTree, i: int)
    requires
        tree is Array,
        0 <= i < tree->Array_0.len(),
    ensures
        decreases_to!(tree => tree->Array_0[i]),
{
    assert(decreases_to!(tree => tree->Array_0));
    assert(decreases_to!(tree->Array_0 => tree->Array_0[i]));
}

proof fn lemma_member_is_smaller(tree: JsonTree, key: Seq<char>)
    requires
        tree is Object,
        tree->Object_0.dom().contains(key),
    ensures
        decreases_to!(tree => tree->Object_0[key]),
{
}

/// The member `key` of an optional document.
pub open spec fn child_of(tree: Option<JsonTree>, key: Seq<char>) -> Option<JsonTree> {
    match tree {
        Some(t) => t.child(key),
        None => None,
    }
}

/// The text of an optional document.
pub open spec fn text_of(tree: Option<JsonTree>) -> Option<Seq<char>> {
    match tree {
        Some(t) => t.text(),
        None => None,
    }
}

/// The first of two optional documents that is there.
pub open spec fn or_tree(first: Option<JsonTree>, second: Option<JsonTree>) -> Option<JsonTree> {
    if first is Some {
        first
    } else {
        second
    }
}

// ---------------------------------------------------------------------------------------
// Values
// ---------------------------------------------------------------------------------------

/// A JSON document. In an object, a later member hides an earlier one with the same key.
#[derive(Debug)]
pub enum JsonValue {
    Null,
    Bool(bool),
    Unsigned(u64),
    Signed(i64),
    /// A number that is no integer, or none that `u64` or `i64` holds.
    Fraction,
    Text(String),
    Array(Vec<JsonValue>),
    Object(Vec<(String, JsonValue)>),
}

/// Member `i` is the last one with key `key`.
pub open spec fn is_last_member<T>(entries: Seq<(String, T)>, key: Seq<char>, i: int) -> bool {
    &&& 0 <= i < entries.len()
    &&& entries[i].0@ == key
    &&& forall|j: int| i < j < entries.len() ==> (#[trigger] entries[j]).0@ != key
}

/// The position of the last member with key `key`.
pub open spec fn last_member<T>(entries: Seq<(String, T)>, key: Seq<char>) -> int {
    choose|i: int| is_last_member(entries, key, i)
}

/// Some member has key `key`.
pub open spec fn has_member<T>(entries: Seq<(String, T)>, key: Seq<char>) -> bool {
    exists|i: int| is_last_member(entries, key, i)
}

/// There is only one last member with key `key`.
proof fn lemma_last_member<T>(entries: Seq<(String, T)>, key: Seq<char>, i: int)
    requires
        is_last_member(entries, key, i),
    ensures
        has_member(entries, key),
        last_member(entries, key) == i,
{
    let k = last_member(entries, key);
    assert(is_last_member(entries, key, k));
    if k < i {
        assert(entries[i].0@ != key);
    }
    if i < k {
        assert(entries[k].0@ != key);
    }
}

/// Lists with the same keys in the same places have the same last members.
proof fn lemma_same_keys<T, U>(a: Seq<(String, T)>, b: Seq<(String, U)>)
    requires
        a.len() == b.len(),
        forall|i: int| 0 <= i < a.len() ==> (#[trigger] a[i]).0@ == b[i].0@,
    ensures
        forall|key: Seq<char>| #[trigger] has_member(a, key) == has_member(b, key),
        forall|key: Seq<char>|
            has_member(a, key) ==> #[trigger] last_member(a, key) == last_member(b, key)
                && is_last_member(a, key, last_member(a, key)),
{
    assert forall|key: Seq<char>, i: int|
        is_last_member(a, key, i) == is_last_member(b, key, i) by {
        if is_last_member(a, key, i) {
            assert forall|j: int| i < j < b.len() implies (#[trigger] b[j]).0@ != key by {
                assert(a[j].0@ != key);
            }
        }
        if is_last_member(b, key, i) {
            assert forall|j: int| i < j < a.len() implies (#[trigger] a[j]).0@ != key by {
                assert(b[j].0@ != key);
            }
        }
    }
    assert forall|key: Seq<char>| #[trigger] has_member(a, key) == has_member(b, key) by {
        if has_member(a, key) {
            let i = choose|i: int| is_last_member(a, key, i);
            assert(is_last_member(b, key, i));
        }
        if has_member(b, key) {
            let i = choose|i: int| is_last_member(b, key, i);
            assert(is_last_member(a, key, i));
        }
    }
    assert forall|key: Seq<char>| has_member(a, key) implies #[trigger] last_member(a, key)
        == last_member(b, key) && is_last_member(a, key, last_member(a, key)) by {
        let i = last_member(a, key);
        assert(is_last_member(a, key, i));
        assert(is_last_member(b, key, i));
        lemma_last_member(b, key, i);
    }
}

impl JsonValue {
    /// What the document says.
    pub open spec fn tree(self) -> JsonTree
        decreases self,
    {
        match self {
            JsonValue::Null => JsonTree::Null,
            JsonValue::Bool(truth) => JsonTree::Bool(truth),
            JsonValue::Unsigned(n) => JsonTree::Integer(n as int),
            JsonValue::Signed(n) => JsonTree::Integer(n as int),
            JsonValue::Fraction => JsonTree::Fraction,
            JsonValue::Text(text) => JsonTree::Text(text@),
            JsonValue::Array(items) => JsonTree::Array(
                Seq::new(
                    items@.len(),
                    |i: int|
                        if 0 <= i < items@.len() {
                            items@[i].tree()
                        } else {
                            JsonTree::Null
                        },
                ),
            ),
            JsonValue::Object(entries) => JsonTree::Object(
                Map::new(
                    |key: Seq<char>| has_member(entries@, key),
                    |key: Seq<char>|
                        {
                            let i = last_member(entries@, key);
                            if 0 <= i < entries@.len() {
                                entries@[i].1.tree()
                            } else {
                                JsonTree::Null
                            }
                        },
                ),
            ),
        }
    }

    /// No number anywhere in the value, hidden members included, has a fractional part.
    pub open spec fn integral(self) -> bool
        decreases self,
    {
        match self {
            JsonValue::Fraction => false,
            JsonValue::Array(items) => forall|i: int|
                0 <= i < items@.len() ==> (#[trigger] items@[i]).integral(),
            JsonValue::Object(entries) => forall|i: int|
                0 <= i < entries@.len() ==> (#[trigger] entries@[i]).1.integral(),
            _ => true,
        }
    }
}

impl View for JsonValue {
    type V = JsonTree;

    open spec fn view(&self) -> JsonTree {
        self.tree()
    }
}

/// What an optional document says.
pub open spec fn opt_tree(json: Option<&JsonValue>) -> Option<JsonTree> {
    match json {
        Some(j) => Some(j@),
        None => None,
    }
}

impl JsonValue {
    /// The member `key` of an object.
    pub fn get(&self, key: &str) -> (child: Option<&JsonValue>)
        ensures
            opt_tree(child) == self@.child(key@),
    {
        match self {
            JsonValue::Object(entries) => {
                let mut i: usize = entries.len();
                while i > 0
                    invariant
                        i <= entries@.len(),
                        *self == JsonValue::Object(*entries),
                        forall|j: int| i <= j < entries@.len() ==> (#[trigger] entries@[j]).0@ != key@,
                    decreases i,
                {
                    i -= 1;
                    if text::same(entries[i].0.as_str(), key) {
                        proof {
                            lemma_last_member(entries@, key@, i as int);
                        }
                        return Some(&entries[i].1);
                    }
                }
                None
            },
            _ => None,
        }
    }

    /// Whether the document is `null`.
    pub fn is_null(&self) -> (yes: bool)
        ensures
            yes == (self@ is Null),
    {
        match self {
            JsonValue::Null => true,
            _ => false,
        }
    }

    /// The text of a string.
    pub fn as_str(&self) -> (text: Option<&str>)
        ensures
            text::opt_str(text) == self@.text(),
    {
        match self {
            JsonValue::Text(text) => Some(text.as_str()),
            _ => None,
        }
    }

    /// The truth value of a boolean.
    pub fn as_bool(&self) -> (truth: Option<bool>)
        ensures
            truth == self@.truth(),
    {
        match self {
            JsonValue::Bool(truth) => Some(*truth),
            _ => None,
        }
    }

    /// The value of an integer that `u64` holds.
    pub fn as_u64(&self) -> (n: Option<u64>)
        ensures
            self@.integer(0, u64::MAX as int) == (match n {
                Some(v) => Some(v as int),
                None => None,
            }),
    {
        match self {
            JsonValue::Unsigned(n) => Some(*n),
            JsonValue::Signed(n) => if *n >= 0 {
                Some(*n as u64)
            } else {
                None
            },
            _ => None,
        }
    }

    /// The value of an integer that `i64` holds.
    pub fn as_i64(&self) -> (n: Option<i64>)
        ensures
            self@.integer(i64::MIN as int, i64::MAX as int) == (match n {
                Some(v) => Some(v as int),
                None => None,
            }),
    {
        match self {
            JsonValue::Unsigned(n) => if *n <= i64::MAX as u64 {
                Some(*n as i64)
            } else {
                None
            },
            JsonValue::Signed(n) => Some(*n),
            _ => None,
        }
    }
}

// ---------------------------------------------------------------------------------------
// serde_json
// ---------------------------------------------------------------------------------------

/// A document of `serde_json`.
#[verifier::external_type_specification]
#[verifier::external_body]
pub struct ExValue(serde_json::Value);

/// What a document of `serde_json` holds.
pub uninterp spec fn value_tree(value: serde_json::Value) -> JsonTree;

/// What `serde_json::from_slice` reads out of a byte sequence: `None` if it is no JSON
/// document.
pub uninterp spec fn document_tree(bytes: Seq<u8>) -> Option<JsonTree>;

/// The bytes that `serde_json::to_vec` writes for a document; `None` if it fails.
pub uninterp spec fn document_bytes(tree: JsonTree) -> Option<Seq<u8>>;

/// The outermost layer of a document of `serde_json`.
pub enum JsonLayer {
    Null,
    Bool(bool),
    /// What a number is as an integer of either type, if it is one.
    Number { unsigned: Option<u64>, signed: Option<i64> },
    Text(String),
    Array(Vec<serde_json::Value>),
    Object(Vec<(String, serde_json::Value)>),
}

/// What a layer says, its inner documents included.
pub open spec fn layer_tree(layer: JsonLayer) -> JsonTree {
    match layer {
        JsonLayer::Null => JsonTree::Null,
        JsonLayer::Bool(truth) => JsonTree::Bool(truth),
        JsonLayer::Number { unsigned: Some(n), .. } => JsonTree::Integer(n as int),
        JsonLayer::Number { unsigned: None, signed: Some(n) } => JsonTree::Integer(n as int),
        JsonLayer::Number { unsigned: None, signed: None } => JsonTree::Fraction,
        JsonLayer::Text(text) => JsonTree::Text(text@),
        JsonLayer::Array(items) => JsonTree::Array(
            items@.map_values(|item: serde_json::Value| value_tree(item)),
        ),
        JsonLayer::Object(entries) => JsonTree::Object(members_tree(entries@)),
    }
}

/// What the members of an object say.
pub open spec fn members_tree(entries: Seq<(String, serde_json::Value)>) -> Map<
    Seq<char>,
    JsonTree,
> {
    Map::new(
        |key: Seq<char>| has_member(entries, key),
        |key: Seq<char>| value_tree(entries[last_member(entries, key)].1),
    )
}

/// No two members have the same key.
pub open spec fn distinct_keys<T>(entries: Seq<(String, T)>) -> bool {
    forall|i: int, j: int|
        0 <= i < j < entries.len() ==> (#[trigger] entries[i]).0@ != (#[trigger] entries[j]).0@
}

/// Calls `serde_json::from_slice`: whether the bytes are a JSON document, and which one,
/// depends on the bytes alone.
#[verifier::external_body]
fn read_value(bytes: &[u8]) -> (value: Option<serde_json::Value>)
    ensures
        document_tree(bytes@) == (match value {
            Some(v) => Some(value_tree(v)),
            None => None,
        }),
{
    serde_json::from_slice::<serde_json::Value>(bytes).ok()
}

/// Tells the variants of `serde_json::Value` apart. Of a number it calls `Number::as_u64` and
/// `Number::as_i64`: it is an integer exactly if one of them gives its value. The keys of an
/// object are distinct.
#[verifier::external_body]
fn open_value(value: serde_json::Value) -> (layer: JsonLayer)
    ensures
        layer_tree(layer) == value_tree(value),
        layer is Object ==> distinct_keys(layer->Object_0@),
{
    match value {
        serde_json::Value::Null => JsonLayer::Null,
        serde_json::Value::Bool(truth) => JsonLayer::Bool(truth),
        serde_json::Value::Number(n) => JsonLayer::Number {
            unsigned: n.as_u64(),
            signed: n.as_i64(),
        },
        serde_json::Value::String(text) => JsonLayer::Text(text),
        serde_json::Value::Array(items) => JsonLayer::Array(items),
        serde_json::Value::Object(members) => JsonLayer::Object(members.into_iter().collect()),
    }
}

/// Makes a `serde_json::Value` of a layer, with `Value::from` for what is no array and no
/// object. The keys of the members of an object have to differ. Nothing is made of a number that
/// is no integer.
#[verifier::external_body]
fn close_value(layer: JsonLayer) -> (value: serde_json::Value)
    requires
        layer_tree(layer) !is Fraction,
        layer is Object ==> distinct_keys(layer->Object_0@),
    ensures
        value_tree(value) == layer_tree(layer),
{
    match layer {
        JsonLayer::Null => serde_json::Value::Null,
        JsonLayer::Bool(truth) => serde_json::Value::from(truth),
        JsonLayer::Number { unsigned, signed } => unsigned
            .map(serde_json::Value::from)
            .or(signed.map(serde_json::Value::from))
            .unwrap_or_default(),
        JsonLayer::Text(text) => serde_json::Value::from(text),
        JsonLayer::Array(items) => serde_json::Value::Array(items),
        JsonLayer::Object(entries) => serde_json::Value::Object(entries.into_iter().collect()),
    }
}

/// Calls `serde_json::to_vec`: the bytes depend on what the document holds alone, and
/// `serde_json::from_slice` reads the same document out of them, as long as arrays and objects
/// do not stand deeper in each other than that function allows. What is written for a number
/// with a fractional part is left unsaid.
#[verifier::external_body]
fn write_value(value: &serde_json::Value) -> (bytes: Option<Vec<u8>>)
    ensures
        value_tree(*value).integral() ==> document_bytes(value_tree(*value)) == (match bytes {
            Some(b) => Some(b@),
            None => None,
        }),
        value_tree(*value).integral() && value_tree(*value).nested_within(MAX_NESTING as nat) ==> (
        match bytes {
            Some(b) => document_tree(b@) == Some(value_tree(*value)),
            None => false,
        }),
{
    serde_json::to_vec(value).ok()
}

fn from_value(value: serde_json::Value) -> (json: JsonValue)
    ensures
        json@ == value_tree(value),
    decreases value_tree(value),
{
    let ghost whole = value_tree(value);
    match open_value(value) {
        JsonLayer::Null => JsonValue::Null,
        JsonLayer::Bool(truth) => JsonValue::Bool(truth),
        JsonLayer::Number { unsigned: Some(n), .. } => JsonValue::Unsigned(n),
        JsonLayer::Number { unsigned: None, signed: Some(n) } => JsonValue::Signed(n),
        JsonLayer::Number { unsigned: None, signed: None } => JsonValue::Fraction,
        JsonLayer::Text(text) => JsonValue::Text(text),
        JsonLayer::Array(items) => {
            let ghost source = items@;
            let ghost trees = whole->Array_0;
            let mut out: Vec<JsonValue> = Vec::new();
            for item in it: items
                invariant
                    it.seq() == source,
                    whole == value_tree(value),
                    whole == JsonTree::Array(trees),
                    trees == source.map_values(|item: serde_json::Value| value_tree(item)),
                    out@.len() == it.index(),
                    forall|i: int| 0 <= i < it.index() ==> (#[trigger] out@[i])@ == trees[i],
            {
                proof {
                    assert(trees[it.index() as int] == value_tree(item));
                    lemma_item_is_smaller(whole, it.index() as int);
                }
                out.push(from_value(item));
            }
            let json = JsonValue::Array(out);
            assert(json@->Array_0 =~= trees);
            json
        },
        JsonLayer::Object(entries) => {
            let ghost source = entries@;
            let ghost members = whole->Object_0;
            let mut out: Vec<(String, JsonValue)> = Vec::new();
            for entry in it: entries
                invariant
                    it.seq() == source,
                    whole == value_tree(value),
                    whole == JsonTree::Object(members),
                    members == members_tree(source),
                    distinct_keys(source),
                    out@.len() == it.index(),
                    forall|i: int|
                        0 <= i < it.index() ==> (#[trigger] out@[i]).0@ == source[i].0@
                            && out@[i].1@ == value_tree(source[i].1),
            {
                proof {
                    let i = it.index() as int;
                    let key = source[i].0@;
                    assert(is_last_member(source, key, i));
                    lemma_last_member(source, key, i);
                    assert(members.dom().contains(key));
                    assert(members[key] == value_tree(entry.1));
                    lemma_member_is_smaller(whole, key);
                }
                out.push((entry.0, from_value(entry.1)));
            }
            let json = JsonValue::Object(out);
            proof {
                lemma_same_keys(out@, source);
                assert(json@->Object_0 =~= members);
            }
            json
        },
    }
}

/// A value without fractions says nothing with one.
proof fn lemma_integral_tree(json: JsonValue)
    requires
        json.integral(),
    ensures
        json@.integral(),
    decreases json,
{
    match json {
        JsonValue::Array(items) => {
            assert forall|i: int| 0 <= i < items@.len() implies (
            #[trigger] json@->Array_0[i]).integral() by {
                lemma_integral_tree(items@[i]);
            }
        },
        JsonValue::Object(entries) => {
            let members = json@->Object_0;
            assert forall|key: Seq<char>| members.dom().contains(key) implies (
            #[trigger] members[key]).integral() by {
                let i = last_member(entries@, key);
                assert(is_last_member(entries@, key, i));
                lemma_integral_tree(entries@[i].1);
            }
        },
        _ => {},
    }
}

proof fn lemma_inner_array(json: JsonValue, i: int)
    requires
        json is Array,
        json.integral(),
        0 <= i < json->Array_0@.len(),
    ensures
        decreases_to!(json => json->Array_0@[i]),
        json->Array_0@[i].integral(),
{
    assert(decreases_to!(json => json->Array_0));
    assert(decreases_to!(json->Array_0 => json->Array_0@));
    assert(decreases_to!(json->Array_0@ => json->Array_0@[i]));
}

proof fn lemma_inner_object(json: JsonValue, i: int)
    requires
        json is Object,
        json.integral(),
        0 <= i < json->Object_0@.len(),
    ensures
        decreases_to!(json => json->Object_0@[i].1),
        json->Object_0@[i].1.integral(),
{
    assert(decreases_to!(json => json->Object_0));
    assert(decreases_to!(json->Object_0 => json->Object_0@));
    assert(decreases_to!(json->Object_0@ => json->Object_0@[i]));
    assert(decreases_to!(json->Object_0@[i] => json->Object_0@[i].1));
}

/// Whether a later member has the same key as member `i`.
fn hidden_by_later(entries: &[(String, JsonValue)], i: usize) -> (yes: bool)
    requires
        i < entries@.len(),
    ensures
        yes == !is_last_member(entries@, entries@[i as int].0@, i as int),
{
    let count: usize = entries.len();
    let mut j: usize = i + 1;
    while j < count
        invariant
            i < j <= count,
            count == entries@.len(),
            forall|k: int| i < k < j ==> (#[trigger] entries@[k]).0@ != entries@[i as int].0@,
        decreases count - j,
    {
        if text::same(entries[j].0.as_str(), entries[i].0.as_str()) {
            return true;
        }
        j += 1;
    }
    false
}

/// `out` holds, in their order, members that no later one hides, namely those in `places`.
spec fn are_last_members(
    entries: Seq<(String, JsonValue)>,
    out: Seq<(String, serde_json::Value)>,
    places: Seq<int>,
) -> bool {
    &&& places.len() == out.len()
    &&& forall|a: int, b: int|
        0 <= a < b < places.len() ==> #[trigger] places[a] < #[trigger] places[b]
    &&& forall|k: int|
        0 <= k < places.len() ==> {
            &&& is_last_member(entries, out[k].0@, #[trigger] places[k])
            &&& value_tree(out[k].1) == entries[places[k]].1@
        }
}

/// Without the members that later ones hide, no key stands twice, and every key has the same
/// value as before.
proof fn lemma_last_members(
    entries: Seq<(String, JsonValue)>,
    out: Seq<(String, serde_json::Value)>,
    places: Seq<int>,
)
    requires
        are_last_members(entries, out, places),
        forall|j: int|
            0 <= j < entries.len() && #[trigger] is_last_member(entries, entries[j].0@, j)
                ==> places.contains(j),
    ensures
        distinct_keys(out),
        forall|key: Seq<char>| #[trigger] has_member(out, key) == has_member(entries, key),
        forall|key: Seq<char>| #[trigger]
            has_member(out, key) ==> value_tree(out[last_member(out, key)].1)
                == entries[last_member(entries, key)].1@,
{
    assert forall|a: int, b: int| 0 <= a < b < out.len() implies (#[trigger] out[a]).0@ != (
    #[trigger] out[b]).0@ by {
        assert(places[a] < places[b]);
        if out[a].0@ == out[b].0@ {
            lemma_last_member(entries, out[a].0@, places[a]);
            lemma_last_member(entries, out[b].0@, places[b]);
        }
    }
    assert forall|key: Seq<char>| #[trigger] has_member(out, key) implies has_member(entries, key)
        && value_tree(out[last_member(out, key)].1) == entries[last_member(entries, key)].1@ by {
        let k = last_member(out, key);
        assert(is_last_member(out, key, k));
        assert(is_last_member(entries, key, places[k]));
        lemma_last_member(entries, key, places[k]);
    }
    assert forall|key: Seq<char>| #[trigger] has_member(entries, key) implies has_member(
        out,
        key,
    ) by {
        let j = last_member(entries, key);
        assert(is_last_member(entries, key, j));
        assert(is_last_member(entries, entries[j].0@, j));
        let k = choose|k: int| 0 <= k < places.len() && places[k] == j;
        assert(is_last_member(entries, out[k].0@, places[k]));
        assert(is_last_member(out, key, k));
    }
}

fn to_value(json: &JsonValue) -> (value: serde_json::Value)
    requires
        json.integral(),
    ensures
        value_tree(value) == json@,
    decreases json,
{
    let layer = match json {
        JsonValue::Null | JsonValue::Fraction => JsonLayer::Null,
        JsonValue::Bool(truth) => JsonLayer::Bool(*truth),
        JsonValue::Unsigned(n) => JsonLayer::Number { unsigned: Some(*n), signed: None },
        JsonValue::Signed(n) => JsonLayer::Number { unsigned: None, signed: Some(*n) },
        JsonValue::Text(text) => JsonLayer::Text(text.clone()),
        JsonValue::Array(items) => {
            let mut out: Vec<serde_json::Value> = Vec::new();
            let mut i: usize = 0;
            while i < items.len()
                invariant
                    i <= items@.len(),
                    json.integral(),
                    *json == JsonValue::Array(*items),
                    out@.len() == i,
                    forall|k: int| 0 <= k < i ==> value_tree(#[trigger] out@[k]) == items@[k]@,
                decreases items@.len() - i,
            {
                proof {
                    lemma_inner_array(*json, i as int);
                }
                out.push(to_value(&items[i]));
                i += 1;
            }
            let layer = JsonLayer::Array(out);
            assert(layer_tree(layer)->Array_0 =~= json@->Array_0);
            layer
        },
        JsonValue::Object(entries) => {
            let mut out: Vec<(String, serde_json::Value)> = Vec::new();
            let ghost mut places: Seq<int> = Seq::empty();
            let mut i: usize = 0;
            while i < entries.len()
                invariant
                    i <= entries@.len(),
                    json.integral(),
                    *json == JsonValue::Object(*entries),
                    are_last_members(entries@, out@, places),
                    forall|k: int| 0 <= k < places.len() ==> #[trigger] places[k] < i,
                    forall|j: int|
                        0 <= j < i && #[trigger] is_last_member(entries@, entries@[j].0@, j)
                            ==> places.contains(j),
                decreases entries@.len() - i,
            {
                proof {
                    lemma_inner_object(*json, i as int);
                }
                let ghost before = places;
                if !hidden_by_later(entries.as_slice(), i) {
                    out.push((entries[i].0.clone(), to_value(&entries[i].1)));
                    proof {
                        places = before.push(i as int);
                    }
                }
                i += 1;
                proof {
                    assert forall|j: int|
                        0 <= j < i && #[trigger] is_last_member(
                            entries@,
                            entries@[j].0@,
                            j,
                        ) implies places.contains(j) by {
                        if before.contains(j) {
                            let k = choose|k: int| 0 <= k < before.len() && before[k] == j;
                            assert(places[k] == j);
                        } else {
                            assert(places[before.len() as int] == j);
                        }
                    }
                }
            }
            let layer = JsonLayer::Object(out);
            proof {
                lemma_last_members(entries@, out@, places);
                assert(layer_tree(layer)->Object_0 =~= json@->Object_0);
            }
            layer
        },
    };
    close_value(layer)
}

/// The JSON document that the bytes are.
pub fn parse_json(bytes: &[u8]) -> (json: Option<JsonValue>)
    ensures
        document_tree(bytes@) == (match json {
            Some(j) => Some(j@),
            None => None,
        }),
{
    match read_value(bytes) {
        Some(value) => Some(from_value(value)),
        None => None,
    }
}

/// The bytes of a JSON document without fractions.
pub fn json_bytes(json: &JsonValue) -> (bytes: Option<Vec<u8>>)
    requires
        json.integral(),
    ensures
        document_bytes(json@) == (match bytes {
            Some(b) => Some(b@),
            None => None,
        }),
        json@.nested_within(MAX_NESTING as nat) ==> (bytes matches Some(b) && document_tree(b@)
            == Some(json@)),
{
    let value = to_value(json);
    proof {
        lemma_integral_tree(*json);
    }
    write_value(&value)
}

/// An object with members whose keys differ says of each key what its member says, and
/// nothing of other keys.
pub proof fn object_says_its_members(entries: Vec<(String, JsonValue)>)
    requires
        distinct_keys(entries@),
    ensures
        JsonValue::Object(entries)@ is Object,
        forall|i: int|
            0 <= i < entries@.len() ==> {
                let m = JsonValue::Object(entries)@->Object_0;
                m.contains_key((#[trigger] entries@[i]).0@) && m[entries@[i].0@] == entries@[i].1@
            },
        forall|key: Seq<char>| #[trigger]
            JsonValue::Object(entries)@->Object_0.contains_key(key) ==> exists|i: int|
                0 <= i < entries@.len() && (#[trigger] entries@[i]).0@ == key,
{
    assert forall|i: int| 0 <= i < entries@.len() implies {
        let m = JsonValue::Object(entries)@->Object_0;
        m.contains_key((#[trigger] entries@[i]).0@) && m[entries@[i].0@] == entries@[i].1@
    } by {
        assert(is_last_member(entries@, entries@[i].0@, i)) by {
            assert forall|j: int| i < j < entries@.len() implies (#[trigger] entries@[j]).0@
                != entries@[i].0@ by {
            }
        }
        lemma_last_member(entries@, entries@[i].0@, i);
    }
    assert forall|key: Seq<char>| #[trigger]
        JsonValue::Object(entries)@->Object_0.contains_key(key) implies exists|i: int|
        0 <= i < entries@.len() && (#[trigger] entries@[i]).0@ == key by {
        let i = last_member(entries@, key);
        assert(is_last_member(entries@, key, i));
        assert(entries@[i].0@ == key);
    }
}

} // verus!
