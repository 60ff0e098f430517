//! A JSON document as the client and the collectors read it, and what they
//! read from it: the numbered listing of a reply and the token usage that
//! `ccusage --json` reports.
use vstd::prelude::*;
use crate::dashboard::{index_label, index_label_spec};
use crate::text::{chars_of, extend_chars, lossy_text, same_text, string_of, utf8_lossy};

verus! {

/// A JSON number: the `u64` it denotes, if it is one (serde_json's
/// `as_u64`), and its text.
pub struct JsonNumber {
    pub as_u64: Option<u64>,
    pub text: String,
}

/// A JSON value. An object keeps its members in order; a document parsed
/// by serde_json has no two members with the same key.
pub enum Json {
    Null,
    Bool(bool),
    Number(JsonNumber),
    Str(String),
    Array(Vec<Json>),
    Object(Vec<(String, Json)>),
}

/// Whether `i` is the first member of `members` with key `key`.
pub open spec fn is_first_member(members: Seq<(String, Json)>, key: Seq<char>, i: int) -> bool {
    &&& 0 <= i < members.len()
    &&& members[i].0@ == key
    &&& forall|j: int| 0 <= j < i ==> #[trigger] members[j].0@ != key
}

/// The member `key` of `v`, as `Value::get` finds it: only an object has
/// members.
pub open spec fn member(v: Json, key: Seq<char>) -> Option<Json> {
    match v {
        Json::Object(members) => first_member(members@, key),
        _ => None,
    }
}

/// The value of the first member of `members` with key `key`.
pub open spec fn first_member(members: Seq<(String, Json)>, key: Seq<char>) -> Option<Json> {
    if exists|i: int| is_first_member(members, key, i) {
        Some(members[choose|i: int| is_first_member(members, key, i)].1)
    } else {
        None
    }
}

/// The member `key` of `v` (see [`member`]).
pub fn get_member<'a>(v: &'a Json, key: &str) -> (r: Option<&'a Json>)
    ensures
        match r {
            Some(m) => member(*v, key@) == Some(*m),
            None => member(*v, key@) is None,
        },
{
    match v {
        Json::Object(members) => {
            let n = members.len();
            for i in 0..n
                invariant
                    n == members@.len(),
                    *v == Json::Object(*members),
                    forall|j: int| 0 <= j < i ==> #[trigger] members@[j].0@ != key@,
            {
                if same_text(members[i].0.as_str(), key) {
                    proof {
                        assert(is_first_member(members@, key@, i as int));
                        let k = choose|k: int| is_first_member(members@, key@, k);
                        if k < i {
                            assert(members@[k].0@ != key@);
                        } else if k > i {
                            assert(members@[i as int].0@ != key@);
                        }
                        assert(k == i);
                        assert(first_member(members@, key@) == Some(members@[i as int].1));
                    }
                    return Some(&members[i].1);
                }
            }
            None
        },
        _ => None,
    }
}

/// The text that the client prints for one entry of a listing: its
/// `text` member when that is a string, else nothing.
pub open spec fn entry_text(v: Json) -> Seq<char> {
    match member(v, "text"@) {
        Some(Json::Str(s)) => s@,
        _ => Seq::empty(),
    }
}

/// The lines that the client prints for the reply `body` whose JSON
/// reading is `doc`: a numbered line per entry when it is an array, else
/// the reply itself.
pub open spec fn listing(body: Seq<char>, doc: Option<Json>) -> Seq<Seq<char>> {
    match doc {
        Some(Json::Array(items)) => Seq::new(
            items@.len(),
            |i: int| index_label_spec(i as nat) + entry_text(items@[i]),
        ),
        _ => seq![body],
    }
}

/// The lines to print for the reply `body`, read as the JSON `doc` (`None`
/// when it is not JSON); see [`listing`].
pub fn listing_lines(body: &str, doc: Option<&Json>) -> (r: Vec<String>)
    ensures
        r@.map_values(|s: String| s@) == listing(body@, match doc {
            Some(d) => Some(*d),
            None => None,
        }),
{
    let ghost d = match doc {
        Some(d) => Some(*d),
        None => None::<Json>,
    };
    match doc {
        Some(Json::Array(items)) => {
            let mut out: Vec<String> = Vec::new();
            let n = items.len();
            for i in 0..n
                invariant
                    n == items@.len(),
                    d == Some(Json::Array(*items)),
                    out@.len() == i,
                    forall|j: int|
                        0 <= j < i ==> #[trigger] out@[j]@ == index_label_spec(j as nat)
                            + entry_text(items@[j]),
            {
                let mut line = chars_of(index_label(i).as_str());
                match get_member(&items[i], "text") {
                    Some(Json::Str(s)) => {
                        extend_chars(&mut line, &chars_of(s.as_str()));
                    },
                    _ => {},
                }
                out.push(string_of(&line));
            }
            assert(out@.map_values(|s: String| s@) == listing(body@, d));
            out
        },
        _ => {
            let mut out: Vec<String> = Vec::new();
            out.push(string_of(&chars_of(body)));
            assert(out@.map_values(|s: String| s@) == listing(body@, d));
            out
        },
    }
}

/// The entry of a `ccusage --json` report that holds today's figures: its
/// `today` member, or else the last element of its `daily` array.
pub open spec fn usage_entry(doc: Json) -> Option<Json> {
    match member(doc, "today"@) {
        Some(t) => Some(t),
        None => match member(doc, "daily"@) {
            Some(Json::Array(days)) => if days@.len() > 0 {
                Some(days@.last())
            } else {
                None
            },
            _ => None,
        },
    }
}

/// The entry of the report `doc` that holds today's figures (see
/// [`usage_entry`]).
pub fn find_usage_entry(doc: &Json) -> (r: Option<&Json>)
    ensures
        match r {
            Some(e) => usage_entry(*doc) == Some(*e),
            None => usage_entry(*doc) is None,
        },
{
    match get_member(doc, "today") {
        Some(t) => Some(t),
        None => match get_member(doc, "daily") {
            Some(Json::Array(days)) => {
                if days.len() > 0 {
                    Some(&days[days.len() - 1])
                } else {
                    None
                }
            },
            _ => None,
        },
    }
}

/// Today's token count in a usage entry: its `totalTokens` member when
/// that is a `u64`.
pub open spec fn entry_tokens(entry: Json) -> Option<u64> {
    match member(entry, "totalTokens"@) {
        Some(Json::Number(n)) => n.as_u64,
        _ => None,
    }
}

/// Today's cost in a usage entry, as the text of its `totalCost` member
/// when that is a number.
pub open spec fn entry_cost_text(entry: Json) -> Option<Seq<char>> {
    match member(entry, "totalCost"@) {
        Some(Json::Number(n)) => Some(n.text@),
        _ => None,
    }
}

/// Today's figures read from a usage report.
pub struct UsageReading {
    pub today_tokens: Option<u64>,
    pub today_cost: Option<String>,
}

/// Today's figures in the report `doc` (`None` when the output was not
/// JSON): tokens and cost from the entry of [`usage_entry`], nothing where
/// there is none.
pub fn read_usage(doc: Option<&Json>) -> (r: UsageReading)
    ensures
        match doc {
            Some(d) => match usage_entry(*d) {
                Some(e) => r.today_tokens == entry_tokens(e) && match r.today_cost {
                    Some(c) => entry_cost_text(e) == Some(c@),
                    None => entry_cost_text(e) is None,
                },
                None => r.today_tokens is None && r.today_cost is None,
            },
            None => r.today_tokens is None && r.today_cost is None,
        },
{
    let entry = match doc {
        Some(d) => find_usage_entry(d),
        None => None,
    };
    match entry {
        Some(e) => {
            let tokens = match get_member(e, "totalTokens") {
                Some(Json::Number(n)) => n.as_u64,
                _ => None,
            };
            let cost = match get_member(e, "totalCost") {
                Some(Json::Number(n)) => Some(n.text.clone()),
                _ => None,
            };
            UsageReading { today_tokens: tokens, today_cost: cost }
        },
        None => UsageReading { today_tokens: None, today_cost: None },
    }
}

#[verifier::external_type_specification]
#[verifier::external_body]
pub struct ExJsonValue(serde_json::Value);

/// What serde_json reads from the text `text`, as the library's model of
/// JSON; nothing when the text is not JSON.
pub uninterp spec fn json_reading(text: Seq<char>) -> Option<Json>;

/// serde_json's `from_str::<Value>` on `text`, the value carried over into
/// [`Json`] one variant for one (a number keeps its `as_u64` and its text).
/// The result is named, as a function of the text alone.
#[verifier::external_body]
pub(crate) fn parse_json(text: &str) -> (r: Option<Json>)
    ensures
        r == json_reading(text@),
{
    serde_json::from_str::<serde_json::Value>(text).ok().map(value_to_json)
}

/// Carries a serde_json `Value` over into [`Json`], one variant for one.
#[verifier::external_body]
fn value_to_json(v: serde_json::Value) -> Json {
    match v {
        serde_json::Value::Null => Json::Null,
        serde_json::Value::Bool(b) => Json::Bool(b),
        serde_json::Value::Number(n) => Json::Number(JsonNumber { as_u64: n.as_u64(), text: n.to_string() }),
        serde_json::Value::String(s) => Json::Str(s),
        serde_json::Value::Array(items) => Json::Array(items.into_iter().map(value_to_json).collect()),
        serde_json::Value::Object(members) => Json::Object(
            members.into_iter().map(|(k, v)| (k, value_to_json(v))).collect(),
        ),
    }
}

/// The lines that the client prints for the reply `body`: the numbered
/// entries when it is a JSON array, else the reply itself (see
/// [`listing`]).
pub fn print_lines(body: &str) -> (r: Vec<String>)
    ensures
        r@.map_values(|s: String| s@) == listing(body@, json_reading(body@)),
{
    let doc = parse_json(body);
    match &doc {
        Some(d) => listing_lines(body, Some(d)),
        None => listing_lines(body, None),
    }
}

/// Today's figures in the output `stdout` of `ccusage --json`: the output
/// read as UTF-8 (invalid bytes replaced) and then as JSON (see
/// [`read_usage`]).
pub fn usage_from_output(stdout: &[u8]) -> (r: UsageReading)
    ensures
        match json_reading(lossy_text(stdout@)) {
            Some(d) => match usage_entry(d) {
                Some(e) => r.today_tokens == entry_tokens(e) && match r.today_cost {
                    Some(c) => entry_cost_text(e) == Some(c@),
                    None => entry_cost_text(e) is None,
                },
                None => r.today_tokens is None && r.today_cost is None,
            },
            None => r.today_tokens is None && r.today_cost is None,
        },
{
    let text = utf8_lossy(stdout);
    let doc = parse_json(text.as_str());
    match &doc {
        Some(d) => read_usage(Some(d)),
        None => read_usage(None),
    }
}

/// The member read from an object is the value of its first member with
/// that key; values that are not objects have no members.
pub proof fn law_member_is_first_match(members: Seq<(String, Json)>, key: Seq<char>, i: int)
    requires
        is_first_member(members, key, i),
    ensures
        first_member(members, key) == Some(members[i].1),
{
    let k = choose|k: int| is_first_member(members, key, k);
    if k < i {
        assert(members[k].0@ != key);
    } else if k > i {
        assert(members[i].0@ != key);
    }
}

/// Which entry of a usage report holds today's figures: the `today` member
/// when there is one; otherwise the last element of a non-empty `daily`
/// array, a single day included; otherwise none.
pub proof fn law_usage_entry(doc: Json)
    ensures
        member(doc, "today"@) matches Some(t) ==> usage_entry(doc) == Some(t),
        member(doc, "today"@) is None ==> match member(doc, "daily"@) {
            Some(Json::Array(days)) => if days@.len() >= 1 {
                usage_entry(doc) == Some(days@[days@.len() - 1])
            } else {
                usage_entry(doc) is None
            },
            _ => usage_entry(doc) is None,
        },
{
}

/// Today's token count is the `totalTokens` member of that entry when it
/// is a number that fits a `u64`, and the cost is the text of its
/// `totalCost` member when that is a number.
pub proof fn law_usage_figures(entry: Json)
    ensures
        member(entry, "totalTokens"@) matches Some(Json::Number(n)) ==> entry_tokens(entry)
            == n.as_u64,
        !(member(entry, "totalTokens"@) matches Some(Json::Number(_))) ==> entry_tokens(entry)
            is None,
        member(entry, "totalCost"@) matches Some(Json::Number(n)) ==> entry_cost_text(entry)
            == Some(n.text@),
        !(member(entry, "totalCost"@) matches Some(Json::Number(_))) ==> entry_cost_text(entry)
            is None,
{
}

/// A listing numbers every entry of an array reply from 1, in order: line
/// `i` is the number `i + 1` right-aligned in two columns, `. `, and the
/// entry's `text` member when that is a string (nothing otherwise); a reply
/// that is not a JSON array is printed as it came.
pub proof fn law_listing_numbers_entries(body: Seq<char>, doc: Option<Json>)
    ensures
        doc matches Some(Json::Array(items)) ==> listing(body, doc).len() == items@.len()
            && forall|i: int|
            0 <= i < items@.len() ==> #[trigger] listing(body, doc)[i] == crate::text::pad_left(
                crate::text::decimal((i + 1) as nat),
                2,
            ) + ". "@ + entry_text(items@[i]),
        !(doc matches Some(Json::Array(_))) ==> listing(body, doc) == seq![body],
{
}

/// The text of an entry is its `text` member when that is a string, and
/// empty when it has no such member or it holds something else.
pub proof fn law_entry_text(v: Json)
    ensures
        member(v, "text"@) matches Some(Json::Str(s)) ==> entry_text(v) == s@,
        !(member(v, "text"@) matches Some(Json::Str(_))) ==> entry_text(v) == Seq::<char>::empty(),
{
}

} // verus!
