use serde_json::Value;
use vstd::prelude::*;

verus! {

/// One level of a JSON document: a scalar, or the members or items of an
/// object or array, each child kept as its own JSON text (to be read in turn
/// where it matters).  Numbers are kept as their text.
#[derive(Debug)]
pub enum JsonNode {
    Null,
    Bool(bool),
    Number(String),
    Str(String),
    Array(Vec<String>),
    Object(Vec<(String, String)>),
}

/// The mathematical form of a `JsonNode`.
pub enum NodeView {
    Null,
    Bool(bool),
    Number(Seq<char>),
    Str(Seq<char>),
    Array(Seq<Seq<char>>),
    Object(Seq<(Seq<char>, Seq<char>)>),
}

/// What `serde_json::from_str` makes of `text`, taken one level deep: `None`
/// when `text` is not a JSON document; otherwise the top value, with every
/// member or item of an object or array written back as JSON text
/// (`serde_json::Value::to_string`) and numbers as their text.
pub uninterp spec fn json_node(text: Seq<char>) -> Option<NodeView>;

impl View for JsonNode {
    type V = NodeView;

    open spec fn view(&self) -> NodeView {
        match self {
            JsonNode::Null => NodeView::Null,
            JsonNode::Bool(b) => NodeView::Bool(*b),
            JsonNode::Number(n) => NodeView::Number(n@),
            JsonNode::Str(s) => NodeView::Str(s@),
            JsonNode::Array(items) => NodeView::Array(items@.map_values(|t: String| t@)),
            JsonNode::Object(members) => NodeView::Object(
                members@.map_values(|m: (String, String)| (m.0@, m.1@)),
            ),
        }
    }
}

/// Calls `serde_json::from_str` into a `serde_json::Value` and takes its top
/// level apart: one arm per variant, children written back with `to_string`.
#[verifier::external_body]
fn json_from_str(text: &str) -> (r: Option<JsonNode>)
    ensures
        r is Some == json_node(text@) is Some,
        r matches Some(n) ==> n@ == json_node(text@)->0,
{
    match serde_json::from_str::<Value>(text) {
        Err(_) => None,
        Ok(Value::Null) => Some(JsonNode::Null),
        Ok(Value::Bool(b)) => Some(JsonNode::Bool(b)),
        Ok(Value::Number(n)) => Some(JsonNode::Number(n.to_string())),
        Ok(Value::String(s)) => Some(JsonNode::Str(s)),
        Ok(Value::Array(a)) => Some(JsonNode::Array(a.iter().map(|c| c.to_string()).collect())),
        Ok(Value::Object(m)) => Some(
            JsonNode::Object(m.iter().map(|(k, c)| (k.clone(), c.to_string())).collect()),
        ),
    }
}

/// The text of the first member called `key`, if any.
pub open spec fn member(members: Seq<(Seq<char>, Seq<char>)>, key: Seq<char>) -> Option<Seq<char>>
    decreases members.len(),
{
    if members.len() == 0 {
        None
    } else if members[0].0 == key {
        Some(members[0].1)
    } else {
        member(members.drop_first(), key)
    }
}

/// The string a JSON text holds, when it is a JSON string.
pub open spec fn json_string(text: Seq<char>) -> Option<Seq<char>> {
    match json_node(text) {
        Some(NodeView::Str(s)) => Some(s),
        _ => None,
    }
}

/// The members of a JSON text, when it is a JSON object.
pub open spec fn json_object(text: Seq<char>) -> Option<Seq<(Seq<char>, Seq<char>)>> {
    match json_node(text) {
        Some(NodeView::Object(ms)) => Some(ms),
        _ => None,
    }
}

/// The string held by member `key` of the JSON text `text` (how
/// `value[key].as_str()` reads it): nothing when `text` is not an object,
/// has no such member, or the member is not a string.
pub open spec fn string_member(text: Seq<char>, key: Seq<char>) -> Option<Seq<char>> {
    match json_object(text) {
        Some(ms) => match member(ms, key) {
            Some(t) => json_string(t),
            None => None,
        },
        None => None,
    }
}

/// The members whose value is a JSON string, with that string, in order.
pub open spec fn string_members(members: Seq<(Seq<char>, Seq<char>)>) -> Seq<(Seq<char>, Seq<char>)>
    decreases members.len(),
{
    if members.len() == 0 {
        Seq::empty()
    } else {
        let rest = string_members(members.drop_last());
        match json_string(members.last().1) {
            Some(s) => rest.push((members.last().0, s)),
            None => rest,
        }
    }
}

impl JsonNode {
    /// Reads the top level of the JSON document `text`; `None` when it is
    /// not one.
    pub fn parse(text: &str) -> (r: Option<JsonNode>)
        ensures
            r is Some == json_node(text@) is Some,
            r matches Some(n) ==> n@ == json_node(text@)->0,
    {
        json_from_str(text)
    }
}

/// The first member of `members` called `key`, if any.
pub fn find_member<'a>(members: &'a Vec<(String, String)>, key: &str) -> (r: Option<&'a String>)
    ensures
        match r {
            Some(t) => member(members@.map_values(|m: (String, String)| (m.0@, m.1@)), key@) == Some(t@),
            None => member(members@.map_values(|m: (String, String)| (m.0@, m.1@)), key@) is None,
        },
{
    let ghost ms = members@.map_values(|m: (String, String)| (m.0@, m.1@));
    let n = members.len();
    let mut i: usize = 0;
    assert(ms.subrange(0, n as int) =~= ms);
    while i < n
        invariant
            n == members@.len(),
            ms == members@.map_values(|m: (String, String)| (m.0@, m.1@)),
            i <= n,
            member(ms, key@) == member(ms.subrange(i as int, n as int), key@),
        decreases n - i,
    {
        let ghost rest = ms.subrange(i as int, n as int);
        assert(rest[0] == ms[i as int]);
        if crate::text::str_eq(members[i].0.as_str(), key) {
            return Some(&members[i].1);
        }
        assert(rest.drop_first() =~= ms.subrange(i + 1, n as int));
        i = i + 1;
    }
    None
}

/// The string `text` holds, when it is a JSON string.
pub fn string_of(text: &str) -> (r: Option<String>)
    ensures
        match r {
            Some(s) => json_string(text@) == Some(s@),
            None => json_string(text@) is None,
        },
{
    match JsonNode::parse(text) {
        Some(JsonNode::Str(s)) => Some(s),
        _ => None,
    }
}

/// The members of `text`, when it is a JSON object.
pub fn object_of(text: &str) -> (r: Option<Vec<(String, String)>>)
    ensures
        match r {
            Some(ms) => json_object(text@) == Some(ms@.map_values(|m: (String, String)| (m.0@, m.1@))),
            None => json_object(text@) is None,
        },
{
    match JsonNode::parse(text) {
        Some(JsonNode::Object(ms)) => Some(ms),
        _ => None,
    }
}

/// The string held by member `key` of the JSON object `text`.
pub fn string_member_of(text: &str, key: &str) -> (r: Option<String>)
    ensures
        match r {
            Some(s) => string_member(text@, key@) == Some(s@),
            None => string_member(text@, key@) is None,
        },
{
    match object_of(text) {
        Some(ms) => match find_member(&ms, key) {
            Some(t) => string_of(t.as_str()),
            None => None,
        },
        None => None,
    }
}

/// The members of `members` whose value is a JSON string, with that string.
pub fn string_members_of(members: &Vec<(String, String)>) -> (r: Vec<(String, String)>)
    ensures
        r@.map_values(|m: (String, String)| (m.0@, m.1@)) == string_members(
            members@.map_values(|m: (String, String)| (m.0@, m.1@)),
        ),
{
    let ghost ms = members@.map_values(|m: (String, String)| (m.0@, m.1@));
    let mut out: Vec<(String, String)> = Vec::new();
    let n = members.len();
    let mut i: usize = 0;
    assert(out@.map_values(|m: (String, String)| (m.0@, m.1@)) =~= string_members(ms.subrange(0, 0)));
    while i < n
        invariant
            n == members@.len(),
            ms == members@.map_values(|m: (String, String)| (m.0@, m.1@)),
            i <= n,
            out@.map_values(|m: (String, String)| (m.0@, m.1@)) == string_members(ms.subrange(0, i as int)),
        decreases n - i,
    {
        let ghost prev = out@;
        let ghost sub = ms.subrange(0, i + 1);
        proof {
            assert(sub.drop_last() =~= ms.subrange(0, i as int));
            assert(sub.last() == ms[i as int]);
        }
        match string_of(members[i].1.as_str()) {
            Some(s) => {
                out.push((crate::text::copy_str(members[i].0.as_str()), s));
                assert(out@.map_values(|m: (String, String)| (m.0@, m.1@)) =~= prev.map_values(
                    |m: (String, String)| (m.0@, m.1@),
                ).push((ms[i as int].0, json_string(ms[i as int].1)->0)));
            },
            None => {},
        }
        i = i + 1;
    }
    assert(ms.subrange(0, n as int) =~= ms);
    out
}

} // verus!
