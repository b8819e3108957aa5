//! Token usage and response ids in the JSON documents of an upstream response.

use vstd::prelude::*;
use crate::json;
use crate::json::{JsonTree, JsonValue};
use crate::text;

verus! {

/// Tokens that one response has used.
#[derive(Debug, Clone, Copy, PartialEq, Eq, Structural)]
pub struct UsageCapture {
    pub input_tokens: u64,
    pub output_tokens: u64,
    pub total_tokens: u64,
    pub cached_tokens: u64,
    pub reasoning_tokens: u64,
}

/// No tokens at all.
pub open spec fn no_usage() -> UsageCapture {
    UsageCapture {
        input_tokens: 0,
        output_tokens: 0,
        total_tokens: 0,
        cached_tokens: 0,
        reasoning_tokens: 0,
    }
}

impl Default for UsageCapture {
    fn default() -> (usage: Self)
        ensures
            usage == no_usage(),
    {
        UsageCapture {
            input_tokens: 0,
            output_tokens: 0,
            total_tokens: 0,
            cached_tokens: 0,
            reasoning_tokens: 0,
        }
    }
}

/// A document that is there and is not `null`.
pub open spec fn non_null(tree: Option<JsonTree>) -> Option<JsonTree> {
    match tree {
        Some(JsonTree::Null) => None,
        _ => tree,
    }
}

/// The token count that a document stands for: an integer that `u64` holds.
pub open spec fn count_of(tree: Option<JsonTree>) -> Option<u64> {
    match tree {
        Some(t) => match t.integer(0, u64::MAX as int) {
            Some(n) => Some(n as u64),
            None => None,
        },
        None => None,
    }
}

/// A token count, zero if there is none.
pub open spec fn count_or_zero(tree: Option<JsonTree>) -> u64 {
    match count_of(tree) {
        Some(n) => n,
        None => 0,
    }
}

/// The sum of two counts, or the largest `u64` where it holds no more.
pub open spec fn capped_sum(a: u64, b: u64) -> u64 {
    if a + b > u64::MAX {
        u64::MAX
    } else {
        (a + b) as u64
    }
}

/// Where a response reports its usage: the first of these places that holds anything but
/// `null`.
pub open spec fn usage_part(value: JsonTree) -> Option<JsonTree> {
    let response = value.child("response"@);
    let inner = json::child_of(response, "response"@);
    json::or_tree(
        non_null(value.child("usage"@)),
        json::or_tree(
            non_null(json::child_of(response, "usage"@)),
            json::or_tree(
                non_null(json::child_of(inner, "usage"@)),
                json::or_tree(
                    non_null(value.child("usageMetadata"@)),
                    json::or_tree(
                        non_null(value.child("usage_metadata"@)),
                        json::or_tree(
                            non_null(json::child_of(response, "usageMetadata"@)),
                            non_null(json::child_of(response, "usage_metadata"@)),
                        ),
                    ),
                ),
            ),
        ),
    )
}

/// The input tokens of a usage report.
pub open spec fn input_count(usage: JsonTree) -> u64 {
    count_or_zero(
        json::or_tree(
            usage.child("input_tokens"@),
            json::or_tree(usage.child("prompt_tokens"@), usage.child("promptTokenCount"@)),
        ),
    )
}

/// The output tokens of a usage report.
pub open spec fn output_count(usage: JsonTree) -> u64 {
    count_or_zero(
        json::or_tree(
            usage.child("output_tokens"@),
            json::or_tree(usage.child("completion_tokens"@), usage.child("candidatesTokenCount"@)),
        ),
    )
}

/// The total that a usage report states itself, zero if it states none.
pub open spec fn stated_total(usage: JsonTree) -> u64 {
    count_or_zero(
        json::or_tree(usage.child("total_tokens"@), usage.child("totalTokenCount"@)),
    )
}

/// The cached tokens of a usage report.
pub open spec fn cached_count(usage: JsonTree) -> u64 {
    let key = "cached_tokens"@;
    count_or_zero(
        json::or_tree(
            usage.child(key),
            json::or_tree(
                json::child_of(usage.child("input_tokens_details"@), key),
                json::or_tree(
                    json::child_of(usage.child("prompt_tokens_details"@), key),
                    usage.child("cachedContentTokenCount"@),
                ),
            ),
        ),
    )
}

/// The reasoning tokens of a usage report.
pub open spec fn reasoning_count(usage: JsonTree) -> u64 {
    let key = "reasoning_tokens"@;
    count_or_zero(
        json::or_tree(
            usage.child(key),
            json::or_tree(
                json::child_of(usage.child("output_tokens_details"@), key),
                json::or_tree(
                    json::child_of(usage.child("completion_tokens_details"@), key),
                    usage.child("thoughtsTokenCount"@),
                ),
            ),
        ),
    )
}

/// What a usage report says. Where it states no total, the total is the sum of input,
/// output and reasoning tokens.
pub open spec fn reported_usage(usage: JsonTree) -> UsageCapture {
    UsageCapture {
        input_tokens: input_count(usage),
        output_tokens: output_count(usage),
        total_tokens: if stated_total(usage) == 0 {
            capped_sum(
                capped_sum(input_count(usage), output_count(usage)),
                reasoning_count(usage),
            )
        } else {
            stated_total(usage)
        },
        cached_tokens: cached_count(usage),
        reasoning_tokens: reasoning_count(usage),
    }
}

/// The usage that a response document reports.
pub open spec fn usage_of(value: JsonTree) -> Option<UsageCapture> {
    match usage_part(value) {
        Some(usage) => Some(reported_usage(usage)),
        None => None,
    }
}

/// The id of a response: that of the document itself or, where that is no string, that of
/// its `response` part, trimmed; `None` if nothing is left.
pub open spec fn response_id_of(value: JsonTree) -> Option<Seq<char>> {
    let own = json::text_of(non_null(value.child("id"@)));
    let id = if own is Some {
        own
    } else {
        json::text_of(non_null(json::child_of(value.child("response"@), "id"@)))
    };
    match id {
        Some(t) => if text::trimmed(t).len() == 0 {
            None
        } else {
            Some(text::trimmed(t))
        },
        None => None,
    }
}

fn first_of<'a>(first: Option<&'a JsonValue>, second: Option<&'a JsonValue>) -> (found: Option<
    &'a JsonValue,
>)
    ensures
        json::opt_tree(found) == json::or_tree(json::opt_tree(first), json::opt_tree(second)),
{
    match first {
        Some(value) => Some(value),
        None => second,
    }
}

fn child<'a>(value: Option<&'a JsonValue>, key: &str) -> (found: Option<&'a JsonValue>)
    ensures
        json::opt_tree(found) == json::child_of(json::opt_tree(value), key@),
{
    match value {
        Some(v) => v.get(key),
        None => None,
    }
}

/// The token count that a document stands for.
pub fn usage_number(value: Option<&JsonValue>) -> (n: Option<u64>)
    ensures
        n == count_of(json::opt_tree(value)),
{
    match value {
        Some(v) => v.as_u64(),
        None => None,
    }
}

fn count(value: Option<&JsonValue>) -> (n: u64)
    ensures
        n == count_or_zero(json::opt_tree(value)),
{
    match usage_number(value) {
        Some(n) => n,
        None => 0,
    }
}

/// The member `key`, if there is one and it is not `null`.
pub fn non_null_child<'a>(value: &'a JsonValue, key: &str) -> (found: Option<&'a JsonValue>)
    ensures
        json::opt_tree(found) == non_null(value@.child(key@)),
{
    match value.get(key) {
        Some(item) => if item.is_null() {
            None
        } else {
            Some(item)
        },
        None => None,
    }
}

fn non_null_grandchild<'a>(value: Option<&'a JsonValue>, key: &str) -> (found: Option<
    &'a JsonValue,
>)
    ensures
        json::opt_tree(found) == non_null(json::child_of(json::opt_tree(value), key@)),
{
    match value {
        Some(v) => non_null_child(v, key),
        None => None,
    }
}

fn find_usage<'a>(value: &'a JsonValue) -> (usage: Option<&'a JsonValue>)
    ensures
        json::opt_tree(usage) == usage_part(value@),
{
    let response = value.get("response");
    let inner = child(response, "response");
    first_of(
        non_null_child(value, "usage"),
        first_of(
            non_null_grandchild(response, "usage"),
            first_of(
                non_null_grandchild(inner, "usage"),
                first_of(
                    non_null_child(value, "usageMetadata"),
                    first_of(
                        non_null_child(value, "usage_metadata"),
                        first_of(
                            non_null_grandchild(response, "usageMetadata"),
                            non_null_grandchild(response, "usage_metadata"),
                        ),
                    ),
                ),
            ),
        ),
    )
}

/// The usage that a response document reports.
pub fn extract_usage_capture(value: &JsonValue) -> (usage: Option<UsageCapture>)
    ensures
        usage == usage_of(value@),
{
    let usage = match find_usage(value) {
        Some(usage) => usage,
        None => return None,
    };
    let input_tokens = count(
        first_of(
            usage.get("input_tokens"),
            first_of(usage.get("prompt_tokens"), usage.get("promptTokenCount")),
        ),
    );
    let output_tokens = count(
        first_of(
            usage.get("output_tokens"),
            first_of(usage.get("completion_tokens"), usage.get("candidatesTokenCount")),
        ),
    );
    let stated = count(first_of(usage.get("total_tokens"), usage.get("totalTokenCount")));
    let cached_tokens = count(
        first_of(
            usage.get("cached_tokens"),
            first_of(
                child(usage.get("input_tokens_details"), "cached_tokens"),
                first_of(
                    child(usage.get("prompt_tokens_details"), "cached_tokens"),
                    usage.get("cachedContentTokenCount"),
                ),
            ),
        ),
    );
    let reasoning_tokens = count(
        first_of(
            usage.get("reasoning_tokens"),
            first_of(
                child(usage.get("output_tokens_details"), "reasoning_tokens"),
                first_of(
                    child(usage.get("completion_tokens_details"), "reasoning_tokens"),
                    usage.get("thoughtsTokenCount"),
                ),
            ),
        ),
    );
    Some(
        UsageCapture {
            input_tokens,
            output_tokens,
            total_tokens: if stated == 0 {
                input_tokens.saturating_add(output_tokens).saturating_add(reasoning_tokens)
            } else {
                stated
            },
            cached_tokens,
            reasoning_tokens,
        },
    )
}

/// The id of a response.
pub fn extract_response_id(value: &JsonValue) -> (id: Option<String>)
    ensures
        text::opt_text(id) == response_id_of(value@),
{
    let own = match non_null_child(value, "id") {
        Some(item) => item.as_str(),
        None => None,
    };
    let id = match own {
        Some(t) => Some(t),
        None => match non_null_grandchild(value.get("response"), "id") {
            Some(item) => item.as_str(),
            None => None,
        },
    };
    match id {
        Some(t) => text::trim_non_empty(t),
        None => None,
    }
}

// ---------------------------------------------------------------------------------------
// Laws
// ---------------------------------------------------------------------------------------

/// The places at which a response may report its usage, in the order in which they count.
pub open spec fn usage_places(value: JsonTree) -> Seq<Option<JsonTree>> {
    let response = value.child("response"@);
    let inner = json::child_of(response, "response"@);
    seq![
        value.child("usage"@),
        json::child_of(response, "usage"@),
        json::child_of(inner, "usage"@),
        value.child("usageMetadata"@),
        value.child("usage_metadata"@),
        json::child_of(response, "usageMetadata"@),
        json::child_of(response, "usage_metadata"@),
    ]
}

/// Something other than `null` stands there.
pub open spec fn is_filled(place: Option<JsonTree>) -> bool {
    place is Some && place->0 !is Null
}

/// A response reports its usage at the first place that is filled, wherever that is; it reports
/// none exactly if no place is filled.
pub proof fn first_report_counts(value: JsonTree, k: int)
    requires
        0 <= k < 7,
        forall|j: int| 0 <= j < k ==> !is_filled(#[trigger] usage_places(value)[j]),
    ensures
        is_filled(usage_places(value)[k]) ==> usage_of(value) == Some(
            reported_usage(usage_places(value)[k]->0),
        ),
        usage_of(value) is None <==> forall|j: int|
            0 <= j < 7 ==> !is_filled(#[trigger] usage_places(value)[j]),
{
    let places = usage_places(value);
    assert(is_filled(places[0]) == (non_null(places[0]) is Some));
    assert(is_filled(places[1]) == (non_null(places[1]) is Some));
    assert(is_filled(places[2]) == (non_null(places[2]) is Some));
    assert(is_filled(places[3]) == (non_null(places[3]) is Some));
    assert(is_filled(places[4]) == (non_null(places[4]) is Some));
    assert(is_filled(places[5]) == (non_null(places[5]) is Some));
    assert(is_filled(places[6]) == (non_null(places[6]) is Some));
    if usage_of(value) is None {
        assert forall|j: int| 0 <= j < 7 implies !is_filled(#[trigger] places[j]) by {
            assert(j == 0 || j == 1 || j == 2 || j == 3 || j == 4 || j == 5 || j == 6);
        }
    }
}

/// `n` is the count at the first place that is there, or zero where that is no count of type
/// `u64` or no place is there.
pub open spec fn is_count_at(places: Seq<Option<JsonTree>>, n: u64) -> bool {
    &&& forall|k: int|
        0 <= k < places.len() && (#[trigger] places[k]) is Some && (forall|j: int|
            0 <= j < k ==> (#[trigger] places[j]) is None) ==> (if places[k]->0 is Integer && 0
            <= places[k]->0->Integer_0 <= u64::MAX {
            n == places[k]->0->Integer_0
        } else {
            n == 0
        })
    &&& (forall|k: int| 0 <= k < places.len() ==> (#[trigger] places[k]) is None) ==> n == 0
}

proof fn lemma_count_of_three(
    a: Option<JsonTree>,
    b: Option<JsonTree>,
    c: Option<JsonTree>,
)
    ensures
        is_count_at(seq![a, b], count_or_zero(json::or_tree(a, b))),
        is_count_at(seq![a, b, c], count_or_zero(json::or_tree(a, json::or_tree(b, c)))),
{
    let two = seq![a, b];
    let three = seq![a, b, c];
    assert(two[0] == a && two[1] == b);
    assert(three[0] == a && three[1] == b && three[2] == c);
}

proof fn lemma_count_of_four(
    a: Option<JsonTree>,
    b: Option<JsonTree>,
    c: Option<JsonTree>,
    d: Option<JsonTree>,
)
    ensures
        is_count_at(
            seq![a, b, c, d],
            count_or_zero(json::or_tree(a, json::or_tree(b, json::or_tree(c, d)))),
        ),
{
    let four = seq![a, b, c, d];
    assert(four[0] == a && four[1] == b && four[2] == c && four[3] == d);
}

/// Every count of a report is what stands under the first of its names that is there. The
/// total is what the report states or, where it states none, the sum of input, output and
/// reasoning tokens, up to the largest `u64`.
pub proof fn counts_stand_under_their_names(usage: JsonTree, stated: u64)
    ensures
        ({
            let r = reported_usage(usage);
            let sum = r.input_tokens + r.output_tokens + r.reasoning_tokens;
            &&& is_count_at(
                seq![
                    usage.child("input_tokens"@),
                    usage.child("prompt_tokens"@),
                    usage.child("promptTokenCount"@),
                ],
                r.input_tokens,
            )
            &&& is_count_at(
                seq![
                    usage.child("output_tokens"@),
                    usage.child("completion_tokens"@),
                    usage.child("candidatesTokenCount"@),
                ],
                r.output_tokens,
            )
            &&& is_count_at(
                seq![
                    usage.child("cached_tokens"@),
                    json::child_of(usage.child("input_tokens_details"@), "cached_tokens"@),
                    json::child_of(usage.child("prompt_tokens_details"@), "cached_tokens"@),
                    usage.child("cachedContentTokenCount"@),
                ],
                r.cached_tokens,
            )
            &&& is_count_at(
                seq![
                    usage.child("reasoning_tokens"@),
                    json::child_of(usage.child("output_tokens_details"@), "reasoning_tokens"@),
                    json::child_of(usage.child("completion_tokens_details"@), "reasoning_tokens"@),
                    usage.child("thoughtsTokenCount"@),
                ],
                r.reasoning_tokens,
            )
            &&& is_count_at(
                seq![usage.child("total_tokens"@), usage.child("totalTokenCount"@)],
                stated,
            ) ==> {
                &&& stated > 0 ==> r.total_tokens == stated
                &&& stated == 0 && sum <= u64::MAX ==> r.total_tokens == sum
                &&& stated == 0 && sum > u64::MAX ==> r.total_tokens == u64::MAX
            }
        }),
{
    lemma_count_of_three(
        usage.child("input_tokens"@),
        usage.child("prompt_tokens"@),
        usage.child("promptTokenCount"@),
    );
    lemma_count_of_three(
        usage.child("output_tokens"@),
        usage.child("completion_tokens"@),
        usage.child("candidatesTokenCount"@),
    );
    lemma_count_of_four(
        usage.child("cached_tokens"@),
        json::child_of(usage.child("input_tokens_details"@), "cached_tokens"@),
        json::child_of(usage.child("prompt_tokens_details"@), "cached_tokens"@),
        usage.child("cachedContentTokenCount"@),
    );
    lemma_count_of_four(
        usage.child("reasoning_tokens"@),
        json::child_of(usage.child("output_tokens_details"@), "reasoning_tokens"@),
        json::child_of(usage.child("completion_tokens_details"@), "reasoning_tokens"@),
        usage.child("thoughtsTokenCount"@),
    );
    let totals = seq![usage.child("total_tokens"@), usage.child("totalTokenCount"@)];
    if is_count_at(totals, stated) {
        assert(totals[0] == usage.child("total_tokens"@));
        assert(totals[1] == usage.child("totalTokenCount"@));
        assert(stated == stated_total(usage)) by {
            if totals[0] is None && totals[1] is None {
                assert(forall|k: int| 0 <= k < totals.len() ==> (#[trigger] totals[k]) is None);
            }
        }
    }
}

/// A response is known by its own id or, where it has none, by that of its `response` part,
/// without the white space around it; a blank id is none.
pub proof fn responses_have_ids(value: JsonTree, id: Seq<char>)
    ensures
        value.child("id"@) == Some(JsonTree::Text(id)) ==> response_id_of(value) == (if text::trimmed(
            id,
        ).len() > 0 {
            Some(text::trimmed(id))
        } else {
            None
        }),
        !(value.child("id"@) matches Some(JsonTree::Text(_))) && json::child_of(
            value.child("response"@),
            "id"@,
        ) == Some(JsonTree::Text(id)) ==> response_id_of(value) == (if text::trimmed(id).len() > 0 {
            Some(text::trimmed(id))
        } else {
            None
        }),
        !(value.child("id"@) matches Some(JsonTree::Text(_))) && !(json::child_of(
            value.child("response"@),
            "id"@,
        ) matches Some(JsonTree::Text(_))) ==> response_id_of(value) is None,
{
}

} // verus!
