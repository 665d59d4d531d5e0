//! JSON documents as plain values. Text is read and written by `serde_json`.

use vstd::prelude::*;

use crate::text;

verus! {

/// A JSON document. A number is kept as its text.
#[derive(Debug, PartialEq, Eq)]
pub enum Json {
    Null,
    Bool(bool),
    Number(String),
    Text(String),
    Array(Vec<Json>),
    Object(Vec<(String, Json)>),
}

/// The mathematical value of a JSON document.
pub enum JsonView {
    Null,
    Bool(bool),
    Number(Seq<char>),
    Text(Seq<char>),
    Array(Seq<JsonView>),
    Object(Seq<(Seq<char>, JsonView)>),
}

impl View for Json {
    type V = JsonView;

    open spec fn view(&self) -> JsonView {
        json_view(*self)
    }
}

/// The value of `doc`.
pub open spec fn json_view(doc: Json) -> JsonView
    decreases doc,
{
    match doc {
        Json::Null => JsonView::Null,
        Json::Bool(b) => JsonView::Bool(b),
        Json::Number(n) => JsonView::Number(n@),
        Json::Text(t) => JsonView::Text(t@),
        Json::Array(items) => JsonView::Array(
            Seq::new(
                items@.len(),
                |i: int|
                    if 0 <= i < items@.len() {
                        json_view(items@[i])
                    } else {
                        JsonView::Null
                    },
            ),
        ),
        Json::Object(members) => JsonView::Object(
            Seq::new(
                members@.len(),
                |i: int|
                    if 0 <= i < members@.len() {
                        (members@[i].0@, json_view(members@[i].1))
                    } else {
                        (Seq::empty(), JsonView::Null)
                    },
            ),
        ),
    }
}

/// The values of a list of documents.
pub open spec fn item_views(items: Seq<Json>) -> Seq<JsonView> {
    Seq::new(items.len(), |i: int| json_view(items[i]))
}

/// The values of a list of object members.
pub open spec fn member_views(members: Seq<(String, Json)>) -> Seq<(Seq<char>, JsonView)> {
    Seq::new(members.len(), |i: int| (members[i].0@, json_view(members[i].1)))
}

/// The value of the first member with the given key.
pub open spec fn member(members: Seq<(Seq<char>, JsonView)>, key: Seq<char>) -> Option<JsonView>
    decreases members.len(),
{
    if members.len() == 0 {
        None
    } else if members[0].0 == key {
        Some(members[0].1)
    } else {
        member(members.drop_first(), key)
    }
}

/// The member of `doc` with the given key; none where `doc` is no object.
pub open spec fn field(doc: JsonView, key: Seq<char>) -> Option<JsonView> {
    match doc {
        JsonView::Object(members) => member(members, key),
        _ => None,
    }
}

/// Whether `a` comes before `b` in the order of their characters.
pub open spec fn before(a: Seq<char>, b: Seq<char>) -> bool {
    exists|k: int| #[trigger] differ_at(a, b, k)
}

/// Whether `a` and `b` are alike up to `k`, where `a` ends or has the smaller
/// character.
pub open spec fn differ_at(a: Seq<char>, b: Seq<char>, k: int) -> bool {
    &&& 0 <= k <= a.len()
    &&& k < b.len()
    &&& a.take(k) == b.take(k)
    &&& k < a.len() ==> a[k] < b[k]
}

/// Whether `doc` is made of strings, whole numbers and objects whose keys are in
/// order, at most `depth` objects deep.
pub open spec fn is_plain(doc: JsonView, depth: nat) -> bool
    decreases depth,
{
    match doc {
        JsonView::Text(_) => true,
        JsonView::Number(digits) => exists|n: u64| digits == #[trigger] text::decimal(n as nat),
        JsonView::Object(members) => {
            &&& depth > 0
            &&& forall|i: int, j: int|
                0 <= i < j < members.len() ==> before(
                    (#[trigger] members[i]).0,
                    (#[trigger] members[j]).0,
                )
            &&& forall|i: int|
                0 <= i < members.len() ==> is_plain((#[trigger] members[i]).1, (depth - 1) as nat)
        },
        _ => false,
    }
}

/// How deep a document is nested at most that is sure to be read back.
pub const PLAIN_DEPTH: u64 = 100;

/// The value type of `serde_json`.
#[verifier::external_type_specification]
#[verifier::external_body]
pub struct ExValue(serde_json::Value);

/// What `serde_json::from_str::<Value>` reads from a text; none where it reports
/// an error. Object members come in the order of the parsed map.
pub uninterp spec fn parsed(text: Seq<char>) -> Option<JsonView>;

/// What the `Display` impl of `serde_json::Value` writes for a document.
pub uninterp spec fn written(doc: JsonView) -> Seq<char>;

/// Turns a `serde_json::Value` into a document, part by part.
#[verifier::external_body]
fn from_value(value: serde_json::Value) -> (doc: Json) {
    match value {
        serde_json::Value::Null => Json::Null,
        serde_json::Value::Bool(b) => Json::Bool(b),
        serde_json::Value::Number(n) => Json::Number(n.to_string()),
        serde_json::Value::String(s) => Json::Text(s),
        serde_json::Value::Array(items) => Json::Array(items.into_iter().map(from_value).collect()),
        serde_json::Value::Object(members) => Json::Object(
            members.into_iter().map(|(key, item)| (key, from_value(item))).collect(),
        ),
    }
}

/// Turns a document into a `serde_json::Value`, part by part.
#[verifier::external_body]
fn to_value(doc: &Json) -> (value: serde_json::Value) {
    match doc {
        Json::Null => serde_json::Value::Null,
        Json::Bool(b) => serde_json::Value::Bool(*b),
        Json::Number(n) => n.parse().map_or(serde_json::Value::Null, serde_json::Value::Number),
        Json::Text(s) => serde_json::Value::String(s.clone()),
        Json::Array(items) => serde_json::Value::Array(items.iter().map(to_value).collect()),
        Json::Object(members) => serde_json::Value::Object(
            members.iter().map(|(key, item)| (key.clone(), to_value(item))).collect(),
        ),
    }
}

/// Calls `serde_json::from_str`, which depends on the text alone. What it reads
/// is named `parsed`.
#[verifier::external_body]
fn read(text: &str) -> (doc: Option<Json>)
    ensures
        match doc {
            Some(d) => parsed(text@) == Some(d@),
            None => parsed(text@) is None,
        },
{
    match serde_json::from_str(text) {
        Ok(value) => Some(from_value(value)),
        Err(_) => None,
    }
}

/// Calls `to_string` on a `serde_json::Value`. What it writes is named
/// `written`. `serde_json::from_str` reads back what was written, at least where
/// the document is made of strings, whole numbers and objects with ordered keys,
/// and is not nested as deep as the limit of the reader.
#[verifier::external_body]
fn write(doc: &Json) -> (text: String)
    ensures
        text@ == written(doc@),
        is_plain(doc@, PLAIN_DEPTH as nat) ==> parsed(text@) == Some(doc@),
{
    to_value(doc).to_string()
}

impl Json {
    /// Reads a document from its text; `None` where the text is no JSON.
    pub fn from_text(text: &str) -> (doc: Option<Json>)
        ensures
            match doc {
                Some(d) => parsed(text@) == Some(d@),
                None => parsed(text@) is None,
            },
    {
        read(text)
    }

    /// The text of the document.
    pub fn to_text(&self) -> (text: String)
        ensures
            text@ == written(self@),
            is_plain(self@, PLAIN_DEPTH as nat) ==> parsed(text@) == Some(self@),
    {
        write(self)
    }

    /// A string.
    pub fn text(s: &str) -> (doc: Json)
        ensures
            doc@ == JsonView::Text(s@),
    {
        Json::Text(s.to_owned())
    }

    /// A whole number.
    pub fn number(n: u64) -> (doc: Json)
        ensures
            doc@ == JsonView::Number(text::decimal(n as nat)),
    {
        let mut digits: String = String::new();
        text::push_decimal(&mut digits, n);
        assert(digits@ =~= text::decimal(n as nat));
        Json::Number(digits)
    }

    /// An object with the given members.
    pub fn object(members: Vec<(String, Json)>) -> (doc: Json)
        ensures
            doc@ == JsonView::Object(member_views(members@)),
    {
        let doc: Json = Json::Object(members);
        assert(doc@->Object_0 =~= member_views(members@));
        doc
    }

    /// The member with the given key.
    pub fn get(&self, key: &str) -> (r: Option<&Json>)
        ensures
            match r {
                Some(v) => field(self@, key@) == Some(v@),
                None => field(self@, key@) is None,
            },
    {
        match self {
            Json::Object(members) => {
                let ghost all = member_views(members@);
                assert(self@->Object_0 =~= all);
                let mut i: usize = 0;
                assert(all.skip(0) =~= all);
                while i < members.len()
                    invariant
                        i <= members.len(),
                        all == member_views(members@),
                        field(self@, key@) == member(all.skip(i as int), key@),
                    decreases members.len() - i,
                {
                    assert(all.skip(i as int).drop_first() =~= all.skip(i + 1));
                    assert(all.skip(i as int)[0] == all[i as int]);
                    if text::same_text(&members[i].0, key) {
                        return Some(&members[i].1);
                    }
                    i += 1;
                }
                None
            },
            _ => None,
        }
    }

    /// The string, where the document is one.
    pub fn as_text(&self) -> (r: Option<&String>)
        ensures
            match r {
                Some(t) => self@ == JsonView::Text(t@),
                None => !(self@ is Text),
            },
    {
        match self {
            Json::Text(t) => Some(t),
            _ => None,
        }
    }

    /// The items, where the document is an array.
    pub fn as_array(&self) -> (r: Option<&Vec<Json>>)
        ensures
            match r {
                Some(items) => self@ == JsonView::Array(item_views(items@)),
                None => !(self@ is Array),
            },
    {
        match self {
            Json::Array(items) => {
                assert(self@->Array_0 =~= item_views(items@));
                Some(items)
            },
            _ => None,
        }
    }
}

/// Adds a member to an object under construction.
pub fn push_member(members: &mut Vec<(String, Json)>, key: &str, value: Json)
    ensures
        member_views(final(members)@) == member_views(old(members)@).push((key@, value@)),
{
    let ghost before = member_views(members@);
    members.push((key.to_owned(), value));
    assert(member_views(members@) =~= before.push((key@, value@)));
}

impl Clone for Json {
    fn clone(&self) -> (copy: Self)
        ensures
            copy@ == self@,
        decreases self,
    {
        match self {
            Json::Null => Json::Null,
            Json::Bool(b) => Json::Bool(*b),
            Json::Number(n) => Json::Number(n.clone()),
            Json::Text(t) => Json::Text(t.clone()),
            Json::Array(items) => {
                let mut copies: Vec<Json> = Vec::new();
                let mut i: usize = 0;
                while i < items.len()
                    invariant
                        i <= items.len(),
                        *self == Json::Array(*items),
                        item_views(copies@) == item_views(items@).take(i as int),
                    decreases items.len() - i,
                {
                    let ghost before = item_views(copies@);
                    assert(decreases_to!(self => self->Array_0));
                    assert(decreases_to!(self->Array_0 => items@[i as int]));
                    let copy: Json = items[i].clone();
                    copies.push(copy);
                    assert(item_views(copies@) =~= before.push(copy@));
                    assert(item_views(items@).take(i + 1) =~= item_views(items@).take(
                        i as int,
                    ).push(items@[i as int]@));
                    i += 1;
                }
                assert(item_views(items@).take(i as int) =~= item_views(items@));
                let copy: Json = Json::Array(copies);
                assert(copy@->Array_0 =~= item_views(copies@));
                assert(self@->Array_0 =~= item_views(items@));
                copy
            },
            Json::Object(members) => {
                let mut copies: Vec<(String, Json)> = Vec::new();
                let mut i: usize = 0;
                while i < members.len()
                    invariant
                        i <= members.len(),
                        *self == Json::Object(*members),
                        member_views(copies@) == member_views(members@).take(i as int),
                    decreases members.len() - i,
                {
                    let ghost before = member_views(copies@);
                    assert(decreases_to!(self => self->Object_0));
                    assert(decreases_to!(self->Object_0 => members@[i as int]));
                    assert(decreases_to!(members@[i as int] => members@[i as int].1));
                    let copy: Json = members[i].1.clone();
                    copies.push((members[i].0.clone(), copy));
                    assert(member_views(copies@) =~= before.push((members@[i as int].0@, copy@)));
                    assert(member_views(members@).take(i + 1) =~= member_views(members@).take(
                        i as int,
                    ).push((members@[i as int].0@, members@[i as int].1@)));
                    i += 1;
                }
                assert(member_views(members@).take(i as int) =~= member_views(members@));
                let copy: Json = Json::Object(copies);
                assert(copy@->Object_0 =~= member_views(copies@));
                assert(self@->Object_0 =~= member_views(members@));
                copy
            },
        }
    }
}

/// The member with a key is the first one that has it; there is none only where no
/// member has it, or where the document is no object.
pub proof fn first_member_with_the_key_counts(
    members: Seq<(Seq<char>, JsonView)>,
    key: Seq<char>,
    other: JsonView,
)
    ensures
        match field(JsonView::Object(members), key) {
            Some(value) => exists|i: int|
                {
                    &&& 0 <= i < members.len()
                    &&& #[trigger] members[i] == (key, value)
                    &&& forall|j: int| 0 <= j < i ==> (#[trigger] members[j]).0 != key
                },
            None => forall|j: int| 0 <= j < members.len() ==> (#[trigger] members[j]).0 != key,
        },
        !(other is Object) ==> field(other, key) is None,
    decreases members.len(),
{
    if members.len() > 0 && members[0].0 != key {
        let rest = members.drop_first();
        first_member_with_the_key_counts(rest, key, other);
        assert forall|i: int| 1 <= i < members.len() implies rest[i - 1] == #[trigger] members[i] by {}
        match member(rest, key) {
            Some(value) => {
                let i = choose|i: int|
                    {
                        &&& 0 <= i < rest.len()
                        &&& #[trigger] rest[i] == (key, value)
                        &&& forall|j: int| 0 <= j < i ==> (#[trigger] rest[j]).0 != key
                    };
                assert(members[i + 1] == (key, value));
                assert forall|j: int| 0 <= j < i + 1 implies (#[trigger] members[j]).0 != key by {
                    if j > 0 {
                        assert(rest[j - 1].0 != key);
                    }
                }
            },
            None => {
                assert forall|j: int| 0 <= j < members.len() implies (
                #[trigger] members[j]).0 != key by {
                    if j > 0 {
                        assert(rest[j - 1].0 != key);
                    }
                }
            },
        }
    } else if members.len() > 0 {
        assert(members[0] == (key, members[0].1));
    }
}

/// The value of a document is made of the values of its parts, in order.
pub proof fn document_value_has_its_parts(doc: Json)
    ensures
        match doc {
            Json::Null => doc@ is Null,
            Json::Bool(b) => doc@ == JsonView::Bool(b),
            Json::Number(n) => doc@ == JsonView::Number(n@),
            Json::Text(t) => doc@ == JsonView::Text(t@),
            Json::Array(items) => doc@ matches JsonView::Array(values) && values.len()
                == items@.len() && forall|i: int|
                0 <= i < items@.len() ==> #[trigger] values[i] == items@[i]@,
            Json::Object(members) => doc@ matches JsonView::Object(values) && values.len()
                == members@.len() && forall|i: int|
                0 <= i < members@.len() ==> #[trigger] values[i] == (
                    members@[i].0@,
                    members@[i].1@,
                ),
        },
{
}

/// Lists of parts have their values one by one.
pub proof fn part_values_come_one_by_one(items: Seq<Json>, members: Seq<(String, Json)>)
    ensures
        item_views(items).len() == items.len(),
        forall|i: int| 0 <= i < items.len() ==> #[trigger] item_views(items)[i] == items[i]@,
        member_views(members).len() == members.len(),
        forall|i: int|
            0 <= i < members.len() ==> #[trigger] member_views(members)[i] == (
                members[i].0@,
                members[i].1@,
            ),
{
}

} // verus!
