//! What a request is about: its target, and the models that the gateway lists itself.

use vstd::prelude::*;
use vstd::string::*;
use crate::json;
use crate::json::{JsonTree, JsonValue};
use crate::text;

verus! {

// ---------------------------------------------------------------------------------------
// Targets
// ---------------------------------------------------------------------------------------

/// What `url::Url::parse` reads in an address: its path and its query, or the text of the
/// error.
pub uninterp spec fn url_parts(address: Seq<char>) -> Result<
    (Seq<char>, Option<Seq<char>>),
    Seq<char>,
>;

/// Path and query of an address, or an error, as a mathematical value.
pub open spec fn parts_view(parts: Result<(String, Option<String>), String>) -> Result<
    (Seq<char>, Option<Seq<char>>),
    Seq<char>,
> {
    match parts {
        Ok((path, query)) => Ok((path@, text::opt_text(query))),
        Err(message) => Err(message@),
    }
}

/// Calls `url::Url::parse`, and `path` and `query` of what it returns: which path and which
/// query an address has, and whether it can be read at all, depends on the address alone.
#[verifier::external_body]
fn parse_url(address: &str) -> (parts: Result<(String, Option<String>), String>)
    ensures
        parts_view(parts) == url_parts(address@),
{
    match url::Url::parse(address) {
        Ok(url) => Ok((url.path().to_string(), url.query().map(str::to_string))),
        Err(error) => Err(error.to_string()),
    }
}

/// The target is a whole address.
pub open spec fn is_absolute(target: Seq<char>) -> bool {
    text::has_prefix(target, "http://"@) || text::has_prefix(target, "https://"@)
}

/// The target without scheme and host, from the parts of its address.
pub open spec fn target_of(
    parts: Result<(Seq<char>, Option<Seq<char>>), Seq<char>>,
    absolute: bool,
) -> Result<Seq<char>, Seq<char>> {
    match parts {
        Ok((path, Some(query))) => Ok(path.push('?') + query),
        Ok((path, None)) => Ok(path),
        Err(message) => Err(
            if absolute {
                "解析请求地址失败: "@ + message
            } else {
                "解析请求路径失败: "@ + message
            },
        ),
    }
}

/// A text or an error, as a mathematical value.
pub open spec fn text_view(content: Result<String, String>) -> Result<Seq<char>, Seq<char>> {
    match content {
        Ok(t) => Ok(t@),
        Err(message) => Err(message@),
    }
}

/// The target without scheme and host, from the parts of its address.
pub fn target_from_parts(
    parts: Result<(String, Option<String>), String>,
    absolute: bool,
) -> (target: Result<String, String>)
    ensures
        text_view(target) == target_of(parts_view(parts), absolute),
{
    match parts {
        Ok((path, query)) => {
            let mut next = path;
            match query {
                Some(query) => {
                    next.push('?');
                    next.append(query.as_str());
                },
                None => {},
            }
            Ok(next)
        },
        Err(reason) => {
            let mut message = if absolute {
                "解析请求地址失败: ".to_owned()
            } else {
                "解析请求路径失败: ".to_owned()
            };
            message.append(reason.as_str());
            Err(message)
        },
    }
}

/// The target of a request without scheme and host.
pub open spec fn path_of(address: Seq<char>) -> Result<Seq<char>, Seq<char>> {
    if is_absolute(address) {
        target_of(url_parts(address), true)
    } else {
        target_of(url_parts("http://localhost"@ + address), false)
    }
}

/// The target of a request without scheme and host.
pub fn normalize_proxy_target(target: &str) -> (next: Result<String, String>)
    ensures
        text_view(next) == path_of(target@),
{
    if text::starts_with(target, "http://") || text::starts_with(target, "https://") {
        return target_from_parts(parse_url(target), true);
    }
    let mut address = "http://localhost".to_owned();
    address.append(target);
    target_from_parts(parse_url(address.as_str()), false)
}

/// `s` without `part` at its beginning, as often as that stands there.
pub open spec fn without_prefixes(s: Seq<char>, part: Seq<char>) -> Seq<char>
    decreases s.len(),
{
    if part.len() > 0 && text::has_prefix(s, part) {
        without_prefixes(s.skip(part.len() as int), part)
    } else {
        s
    }
}

/// The path at the upstream that a target stands for.
pub open spec fn upstream_target(target: Seq<char>) -> Result<Seq<char>, Seq<char>> {
    if !text::has_prefix(target, "/v1"@) {
        Err("仅支持 /v1 路径"@)
    } else {
        let rest = without_prefixes(target, "/v1"@);
        if rest.len() > 0 && rest[0] == '/' {
            Ok(rest)
        } else {
            Ok("/"@ + rest)
        }
    }
}

fn strip_prefixes(content: &str, part: &str) -> (rest: String)
    requires
        part@.len() > 0,
    ensures
        rest@ == without_prefixes(content@, part@),
{
    let mut rest = content.to_owned();
    loop
        invariant
            part@.len() > 0,
            without_prefixes(rest@, part@) == without_prefixes(content@, part@),
        ensures
            rest@ == without_prefixes(content@, part@),
        decreases rest@.len(),
    {
        match text::strip_prefix(rest.as_str(), part) {
            Some(shorter) => {
                rest = shorter;
            },
            None => {
                break ;
            },
        }
    }
    rest
}

/// The path at the upstream that a target stands for.
pub fn resolve_upstream_target(target: &str) -> (path: Result<String, String>)
    ensures
        text_view(path) == upstream_target(target@),
{
    if !text::starts_with(target, "/v1") {
        return Err("仅支持 /v1 路径".to_owned());
    }
    proof {
        reveal_strlit("/v1");
        reveal_strlit("/");
    }
    let rest = strip_prefixes(target, "/v1");
    proof {
        if text::has_prefix(rest@, "/"@) {
            assert(rest@.subrange(0, 1)[0] == rest@[0]);
        }
        if rest@.len() > 0 && rest@[0] == '/' {
            assert(rest@.subrange(0, 1) =~= "/"@);
        }
    }
    if text::starts_with(rest.as_str(), "/") {
        return Ok(rest);
    }
    let mut path = "/".to_owned();
    path.append(rest.as_str());
    Ok(path)
}

/// A target with the prefix of the gateway stands for a path at the upstream, which begins
/// with a slash; nothing of the prefix is left in it where the prefix is followed by a slash.
pub proof fn upstream_targets_are_paths(target: Seq<char>)
    requires
        text::has_prefix(target, "/v1"@),
    ensures
        upstream_target(target) is Ok,
        upstream_target(target)->Ok_0.len() > 0,
        upstream_target(target)->Ok_0[0] == '/',
        text::has_prefix(without_prefixes(target, "/v1"@), "/"@) ==> !text::has_prefix(
            upstream_target(target)->Ok_0,
            "/v1"@,
        ),
{
    reveal_strlit("/v1");
    reveal_strlit("/");
    lemma_no_prefix_left(target, "/v1"@);
    let rest = without_prefixes(target, "/v1"@);
    if text::has_prefix(rest, "/"@) {
        assert(rest.subrange(0, 1)[0] == rest[0]);
    }
}

proof fn lemma_no_prefix_left(s: Seq<char>, part: Seq<char>)
    requires
        part.len() > 0,
    ensures
        !text::has_prefix(without_prefixes(s, part), part),
    decreases s.len(),
{
    if text::has_prefix(s, part) {
        lemma_no_prefix_left(s.skip(part.len() as int), part);
    }
}

// ---------------------------------------------------------------------------------------
// Models
// ---------------------------------------------------------------------------------------

/// Whether a request asks for the list of models.
pub fn is_local_models_request(target: &str) -> (yes: bool)
    ensures
        yes == (target@ == "/v1/models"@ || text::has_prefix(target@, "/v1/models?"@)),
{
    text::same(target, "/v1/models") || text::starts_with(target, "/v1/models?")
}

/// The models that the gateway lists.
pub open spec fn model_names() -> Seq<Seq<char>> {
    seq![
        "gpt-5-codex"@,
        "gpt-5-codex-mini"@,
        "gpt-5.4"@,
        "gpt-5.4-mini"@,
        "gpt-5.3-codex"@,
        "gpt-5.3-codex-spark"@,
        "gpt-5.2"@,
        "gpt-5.2-codex"@,
        "gpt-5.1-codex-max"@,
        "gpt-5.1-codex-mini"@,
    ]
}

/// The models that the gateway lists.
pub fn default_codex_models() -> (names: Vec<String>)
    ensures
        text::texts(names@) == model_names(),
{
    let mut names: Vec<String> = Vec::new();
    names.push("gpt-5-codex".to_owned());
    names.push("gpt-5-codex-mini".to_owned());
    names.push("gpt-5.4".to_owned());
    names.push("gpt-5.4-mini".to_owned());
    names.push("gpt-5.3-codex".to_owned());
    names.push("gpt-5.3-codex-spark".to_owned());
    names.push("gpt-5.2".to_owned());
    names.push("gpt-5.2-codex".to_owned());
    names.push("gpt-5.1-codex-max".to_owned());
    names.push("gpt-5.1-codex-mini".to_owned());
    assert(text::texts(names@) =~= model_names());
    names
}

/// The entry of a model in the list.
pub open spec fn model_tree(name: Seq<char>) -> JsonTree {
    JsonTree::Object(
        map![
            "id"@ => JsonTree::Text(name),
            "object"@ => JsonTree::Text("model"@),
            "created"@ => JsonTree::Integer(0),
            "owned_by"@ => JsonTree::Text("openai"@),
        ],
    )
}

/// The list of models.
pub open spec fn models_tree() -> JsonTree {
    JsonTree::Object(
        map![
            "object"@ => JsonTree::Text("list"@),
            "data"@ => JsonTree::Array(model_names().map_values(|name: Seq<char>| model_tree(name))),
        ],
    )
}

fn model_entry(name: &str) -> (entry: JsonValue)
    ensures
        entry@ == model_tree(name@),
        entry.integral(),
{
    let mut entries: Vec<(String, JsonValue)> = Vec::new();
    entries.push(("id".to_owned(), JsonValue::Text(name.to_owned())));
    entries.push(("object".to_owned(), JsonValue::Text("model".to_owned())));
    entries.push(("created".to_owned(), JsonValue::Unsigned(0)));
    entries.push(("owned_by".to_owned(), JsonValue::Text("openai".to_owned())));
    proof {
        reveal_strlit("id");
        reveal_strlit("object");
        reveal_strlit("created");
        reveal_strlit("owned_by");
        reveal_with_fuel(JsonValue::tree, 2);
        reveal_with_fuel(JsonValue::integral, 2);
        assert(entries@[0].0@ == "id"@ && "id"@.len() == 2);
        assert(entries@[1].0@ == "object"@ && "object"@.len() == 6);
        assert(entries@[2].0@ == "created"@ && "created"@.len() == 7);
        assert(entries@[3].0@ == "owned_by"@ && "owned_by"@.len() == 8);
        json::object_says_its_members(entries);
        let m = JsonValue::Object(entries)@->Object_0;
        assert(m =~= model_tree(name@)->Object_0);
    }
    JsonValue::Object(entries)
}

/// The list of models.
pub fn build_local_models_response() -> (list: JsonValue)
    ensures
        list@ == models_tree(),
        list.integral(),
{
    let names = default_codex_models();
    let mut data: Vec<JsonValue> = Vec::new();
    let mut i: usize = 0;
    while i < names.len()
        invariant
            i <= names@.len(),
            data@.len() == i,
            forall|k: int|
                0 <= k < i ==> (#[trigger] data@[k])@ == model_tree(names@[k]@)
                    && data@[k].integral(),
        decreases names@.len() - i,
    {
        data.push(model_entry(names[i].as_str()));
        i += 1;
    }
    let ghost items = data@;
    let mut entries: Vec<(String, JsonValue)> = Vec::new();
    entries.push(("object".to_owned(), JsonValue::Text("list".to_owned())));
    entries.push(("data".to_owned(), JsonValue::Array(data)));
    proof {
        reveal_strlit("object");
        reveal_strlit("data");
        let listed = model_names().map_values(|name: Seq<char>| model_tree(name));
        assert(entries@[0].0@ == "object"@ && "object"@.len() == 6);
        assert(entries@[1].0@ == "data"@ && "data"@.len() == 4);
        let array = entries@[1].1;
        assert forall|k: int| 0 <= k < items.len() implies items[k].tree() == listed[k] by {
            assert(items[k]@ == model_tree(names@[k]@));
            assert(text::texts(names@)[k] == names@[k]@);
        }
        assert(items.len() == listed.len()) by {
            assert(text::texts(names@).len() == names@.len());
        }
        assert(array@->Array_0 =~= listed);
        json::object_says_its_members(entries);
        assert(JsonValue::Object(entries)@->Object_0 =~= models_tree()->Object_0);
        assert(array.integral());
        assert(entries@[0].1.integral());
    }
    JsonValue::Object(entries)
}

/// The list of models is not too deep to be read.
pub proof fn models_are_readable()
    ensures
        models_tree().nested_within(json::MAX_NESTING as nat),
{
    reveal_with_fuel(JsonTree::nested_within, 4);
    let listed = model_names().map_values(|name: Seq<char>| model_tree(name));
    assert forall|i: int| 0 <= i < listed.len() implies (#[trigger] listed[i]).nested_within(125) by {
        assert(listed[i] == model_tree(model_names()[i]));
    }
    assert(JsonTree::Array(listed).nested_within(126));
}

/// The target of a request is path and query of its address, whether it was given whole or
/// without scheme and host.
pub proof fn targets_are_path_and_query(address: Seq<char>, path: Seq<char>, query: Seq<char>)
    ensures
        ({
            let whole = if text::has_prefix(address, "http://"@) || text::has_prefix(
                address,
                "https://"@,
            ) {
                address
            } else {
                "http://localhost"@ + address
            };
            &&& url_parts(whole) == Ok::<(Seq<char>, Option<Seq<char>>), Seq<char>>((path, None))
                ==> path_of(address) == Ok::<Seq<char>, Seq<char>>(path)
            &&& url_parts(whole) == Ok::<(Seq<char>, Option<Seq<char>>), Seq<char>>(
                (path, Some(query)),
            ) ==> path_of(address) == Ok::<Seq<char>, Seq<char>>(path + seq!['?'] + query)
            &&& url_parts(whole) is Err <==> path_of(address) is Err
        }),
{
    assert(path.push('?') + query =~= path + seq!['?'] + query);
}

/// The path at the upstream is what stands behind the prefix of the gateway, with a slash
/// before it where it has none; without the prefix there is none.
pub proof fn upstream_paths_stand_behind_the_prefix(target: Seq<char>, rest: Seq<char>)
    ensures
        target == "/v1"@ + rest && !text::has_prefix(rest, "/v1"@) ==> (if rest.len() > 0 && rest[0]
            == '/' {
            upstream_target(target) == Ok::<Seq<char>, Seq<char>>(rest)
        } else {
            upstream_target(target) == Ok::<Seq<char>, Seq<char>>(seq!['/'] + rest)
        }),
        target == "/v1"@ + rest && text::has_prefix(rest, "/v1"@) ==> upstream_target(target)
            == upstream_target(rest),
        (target.len() < 3 || target.take(3) != "/v1"@) ==> upstream_target(target) is Err,
{
    reveal_strlit("/v1");
    reveal_strlit("/");
    assert("/"@ =~= seq!['/']);
    if target == "/v1"@ + rest {
        assert(target.subrange(0, 3) =~= "/v1"@);
        assert(target.skip(3) =~= rest);
        assert(without_prefixes(target, "/v1"@) == without_prefixes(rest, "/v1"@));
        if !text::has_prefix(rest, "/v1"@) {
            assert(without_prefixes(rest, "/v1"@) == rest);
        }
    }
    if target.len() >= 3 {
        assert(target.subrange(0, 3) =~= target.take(3));
    }
}

/// The list holds one entry for each of the models, under its name.
pub proof fn models_are_listed(i: int)
    requires
        0 <= i < model_names().len(),
    ensures
        models_tree().child("data"@) matches Some(JsonTree::Array(entries)) && entries.len()
            == model_names().len() && entries[i].child("id"@) == Some(
            JsonTree::Text(model_names()[i]),
        ) && entries[i].child("object"@) == Some(JsonTree::Text("model"@)),
        models_tree().child("object"@) == Some(JsonTree::Text("list"@)),
{
    reveal_strlit("object");
    reveal_strlit("data");
    reveal_strlit("id");
    reveal_strlit("created");
    reveal_strlit("owned_by");
    assert("object"@.len() == 6 && "data"@.len() == 4 && "id"@.len() == 2 && "created"@.len() == 7
        && "owned_by"@.len() == 8);
}

} // verus!
