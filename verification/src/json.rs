//! JSON texts as plain values.
use crate::text::same_text;
use vstd::prelude::*;

verus! {

/// A JSON value.
#[derive(Debug)]
pub enum JsonValue {
    Null,
    Truth(bool),
    /// A number, by its text.
    Number(String),
    Text(String),
    List(Vec<JsonValue>),
    /// The members of an object, each name once.
    Members(Vec<(String, JsonValue)>),
}

/// A `JsonValue` as a value.
pub enum JsonView {
    Null,
    Truth(bool),
    Number(Seq<char>),
    Text(Seq<char>),
    List(Seq<JsonView>),
    Members(Seq<(Seq<char>, JsonView)>),
}

/// The view of a value.
pub open spec fn json_view(v: JsonValue) -> JsonView
    decreases v,
{
    match v {
        JsonValue::Null => JsonView::Null,
        JsonValue::Truth(b) => JsonView::Truth(b),
        JsonValue::Number(s) => JsonView::Number(s@),
        JsonValue::Text(s) => JsonView::Text(s@),
        JsonValue::List(items) => JsonView::List(item_views(items@)),
        JsonValue::Members(ms) => JsonView::Members(member_views(ms@)),
    }
}

/// The views of a list.
pub open spec fn item_views(items: Seq<JsonValue>) -> Seq<JsonView>
    decreases items,
{
    if items.len() == 0 {
        seq![]
    } else {
        item_views(items.drop_last()).push(json_view(items.last()))
    }
}

/// The views of the members of an object.
pub open spec fn member_views(ms: Seq<(String, JsonValue)>) -> Seq<(Seq<char>, JsonView)>
    decreases ms,
{
    if ms.len() == 0 {
        seq![]
    } else {
        member_views(ms.drop_last()).push((ms.last().0@, json_view(ms.last().1)))
    }
}

/// A list has one view for each item, in order.
pub proof fn lemma_item_views(items: Seq<JsonValue>)
    ensures
        item_views(items).len() == items.len(),
        forall|i: int|
            0 <= i < items.len() ==> #[trigger] item_views(items)[i] == json_view(items[i]),
    decreases items.len(),
{
    if items.len() > 0 {
        lemma_item_views(items.drop_last());
        assert forall|i: int| 0 <= i < items.len() implies #[trigger] item_views(items)[i]
            == json_view(items[i]) by {
            if i < items.len() - 1 {
                assert(item_views(items)[i] == item_views(items.drop_last())[i]);
            }
        }
    }
}

proof fn lemma_member_views(ms: Seq<(String, JsonValue)>)
    ensures
        member_views(ms).len() == ms.len(),
        forall|i: int|
            0 <= i < ms.len() ==> #[trigger] member_views(ms)[i] == (
                ms[i].0@,
                json_view(ms[i].1),
            ),
    decreases ms.len(),
{
    if ms.len() > 0 {
        lemma_member_views(ms.drop_last());
        assert forall|i: int| 0 <= i < ms.len() implies #[trigger] member_views(ms)[i] == (
            ms[i].0@,
            json_view(ms[i].1),
        ) by {
            if i < ms.len() - 1 {
                assert(member_views(ms)[i] == member_views(ms.drop_last())[i]);
            }
        }
    }
}

/// `serde_json::Value`, which is carried from its parser to its conversion.
#[verifier::external_type_specification]
#[verifier::external_body]
pub struct ExValue(serde_json::Value);

/// What a `serde_json::Value` holds.
pub uninterp spec fn held_json(v: serde_json::Value) -> JsonView;

/// What `serde_json::from_str` reads in a text: nothing where the text is no
/// JSON text.
pub uninterp spec fn json_text(text: Seq<char>) -> Option<JsonView>;

/// Read a text with `serde_json::from_str`. What comes of it depends on the
/// text alone; the words of its error are not kept.
#[verifier::external_body]
fn parse_value(text: &str) -> (r: Option<serde_json::Value>)
    ensures
        json_text(text@) == (match r {
            Some(v) => Some(held_json(v)),
            None => None,
        }),
{
    serde_json::from_str(text).ok()
}

/// Take a `serde_json::Value` apart, one for one: null, a truth value, a
/// number by the text that its `to_string` gives, a text, the items of an
/// array in order, and the members of an object in the order in which its
/// map hands them out.
#[verifier::external_body]
fn plain_value(v: serde_json::Value) -> (r: JsonValue)
    ensures
        json_view(r) == held_json(v),
{
    match v {
        serde_json::Value::Null => JsonValue::Null,
        serde_json::Value::Bool(b) => JsonValue::Truth(b),
        serde_json::Value::Number(n) => JsonValue::Number(n.to_string()),
        serde_json::Value::String(s) => JsonValue::Text(s),
        serde_json::Value::Array(vs) => JsonValue::List(vs.into_iter().map(plain_value).collect()),
        serde_json::Value::Object(ms) => JsonValue::Members(
            ms.into_iter().map(|(k, v)| (k, plain_value(v))).collect(),
        ),
    }
}

/// Read a JSON text.
pub fn read_json(text: &str) -> (r: Option<JsonValue>)
    ensures
        match r {
            Some(v) => json_text(text@) == Some(json_view(v)),
            None => json_text(text@) is None,
        },
{
    match parse_value(text) {
        Some(v) => Some(plain_value(v)),
        None => None,
    }
}

/// The first member of this name.
pub open spec fn named(ms: Seq<(Seq<char>, JsonView)>, name: Seq<char>) -> Option<JsonView>
    decreases ms.len(),
{
    if ms.len() == 0 {
        None
    } else if ms[0].0 == name {
        Some(ms[0].1)
    } else {
        named(ms.drop_first(), name)
    }
}

/// The member of an object with this name; other values have none.
pub open spec fn member(v: JsonView, name: Seq<char>) -> Option<JsonView> {
    match v {
        JsonView::Members(ms) => named(ms, name),
        _ => None,
    }
}

/// The text of a member, where it is one.
pub open spec fn member_text(v: JsonView, name: Seq<char>) -> Option<Seq<char>> {
    match member(v, name) {
        Some(JsonView::Text(s)) => Some(s),
        _ => None,
    }
}

/// The truth value of a member, where it is one.
pub open spec fn member_truth(v: JsonView, name: Seq<char>) -> Option<bool> {
    match member(v, name) {
        Some(JsonView::Truth(b)) => Some(b),
        _ => None,
    }
}

/// The items of a member, where it is a list.
pub open spec fn member_items(v: JsonView, name: Seq<char>) -> Option<Seq<JsonView>> {
    match member(v, name) {
        Some(JsonView::List(items)) => Some(items),
        _ => None,
    }
}

impl JsonValue {
    /// The member with this name.
    pub fn get(&self, name: &str) -> (r: Option<&JsonValue>)
        ensures
            match r {
                Some(x) => member(json_view(*self), name@) == Some(json_view(*x)),
                None => member(json_view(*self), name@) is None,
            },
    {
        let ms: &Vec<(String, JsonValue)> = match self {
            JsonValue::Members(ms) => ms,
            _ => {
                return None;
            },
        };
        let ghost all = member_views(ms@);
        proof {
            lemma_member_views(ms@);
        }
        let mut i: usize = 0;
        assert(all.skip(0) =~= all);
        while i < ms.len()
            invariant
                i <= ms@.len(),
                all.len() == ms@.len(),
                forall|k: int|
                    0 <= k < ms@.len() ==> #[trigger] all[k] == (
                        ms@[k].0@,
                        json_view(ms@[k].1),
                    ),
                named(all, name@) == named(all.skip(i as int), name@),
                member(json_view(*self), name@) == named(all, name@),
            decreases ms@.len() - i,
        {
            let ghost rest = all.skip(i as int);
            assert(rest[0] == all[i as int]);
            assert(rest.drop_first() =~= all.skip(i as int + 1));
            if same_text(&ms[i].0, name) {
                return Some(&ms[i].1);
            }
            i += 1;
        }
        None
    }

    /// The text of a member, where it is one.
    pub fn text_at(&self, name: &str) -> (r: Option<String>)
        ensures
            crate::text::opt_text(r) == member_text(json_view(*self), name@),
    {
        match self.get(name) {
            Some(JsonValue::Text(s)) => Some(s.as_str().to_owned()),
            _ => None,
        }
    }

    /// The truth value of a member, where it is one.
    pub fn truth_at(&self, name: &str) -> (r: Option<bool>)
        ensures
            r == member_truth(json_view(*self), name@),
    {
        match self.get(name) {
            Some(JsonValue::Truth(b)) => Some(*b),
            _ => None,
        }
    }

    /// The items of a member, where it is a list.
    pub fn items_at(&self, name: &str) -> (r: Option<&Vec<JsonValue>>)
        ensures
            match r {
                Some(v) => member_items(json_view(*self), name@) == Some(item_views(v@)),
                None => member_items(json_view(*self), name@) is None,
            },
    {
        match self.get(name) {
            Some(JsonValue::List(items)) => Some(items),
            _ => None,
        }
    }
}

} // verus!
