//! JSON texts and what they hold.

use vstd::prelude::*;

use crate::text;

verus! {

/// A JSON value of the crate `serde_json`.
#[verifier::external_type_specification]
#[verifier::external_body]
pub struct ExValue(serde_json::Value);

/// A JSON value. A number is known by what it is as an unsigned and as a signed integer;
/// one that is neither is known to be a number, and no more.
#[derive(Debug)]
pub enum Json {
    Null,
    Bool(bool),
    Num(Option<u64>, Option<i64>),
    Text(String),
    List(Vec<Json>),
    Object(Vec<(String, Json)>),
}

/// A [`Json`] without its representation.
pub enum JsonView {
    Null,
    Bool(bool),
    Num(Option<u64>, Option<i64>),
    Text(Seq<char>),
    List(Seq<JsonView>),
    Object(Map<Seq<char>, JsonView>),
}

/// What a value is. Of members with the same name the first counts.
pub open spec fn json_view(j: Json) -> JsonView
    decreases j,
{
    match j {
        Json::Null => JsonView::Null,
        Json::Bool(b) => JsonView::Bool(b),
        Json::Num(u, i) => JsonView::Num(u, i),
        Json::Text(s) => JsonView::Text(s@),
        Json::List(v) => JsonView::List(list_view(v@)),
        Json::Object(v) => JsonView::Object(object_view(v@)),
    }
}

/// What the elements of a list are.
pub open spec fn list_view(s: Seq<Json>) -> Seq<JsonView>
    decreases s,
{
    if s.len() == 0 {
        Seq::empty()
    } else {
        list_view(s.drop_last()).push(json_view(s.last()))
    }
}

/// What the members of an object are.
pub open spec fn object_view(s: Seq<(String, Json)>) -> Map<Seq<char>, JsonView>
    decreases s,
{
    if s.len() == 0 {
        Map::empty()
    } else {
        object_view(s.skip(1)).insert(s[0].0@, json_view(s[0].1))
    }
}

impl View for Json {
    type V = JsonView;

    open spec fn view(&self) -> JsonView {
        json_view(*self)
    }
}

/// What a value of `serde_json` holds.
pub uninterp spec fn value_view(v: serde_json::Value) -> JsonView;

/// What `serde_json` makes of a text: the value that it denotes, or nothing if it is no JSON.
pub uninterp spec fn parsed(s: Seq<char>) -> Option<JsonView>;

/// Lists and objects are nested less than `n` deep.
pub open spec fn nested_below(v: JsonView, n: nat) -> bool
    decreases n,
{
    &&& n > 0
    &&& match v {
        JsonView::List(s) => forall|i: int|
            0 <= i < s.len() ==> nested_below(#[trigger] s[i], (n - 1) as nat),
        JsonView::Object(m) => forall|k: Seq<char>| #[trigger]
            m.contains_key(k) ==> nested_below(m[k], (n - 1) as nat),
        _ => true,
    }
}

/// Lists and objects are not nested deeper than `serde_json` reads them.
pub open spec fn readable(v: JsonView) -> bool {
    nested_below(v, 100)
}

/// The two readings of a whole number belong together.
pub open spec fn whole(u: Option<u64>, i: Option<i64>) -> bool {
    match (u, i) {
        (Some(x), Some(y)) => x == y,
        (Some(x), None) => x > i64::MAX,
        (None, Some(y)) => y < 0,
        (None, None) => false,
    }
}

/// Every number is whole.
pub open spec fn whole_numbers(j: Json) -> bool
    decreases j,
{
    match j {
        Json::Num(u, i) => whole(u, i),
        Json::List(v) => whole_list(v@),
        Json::Object(v) => whole_members(v@),
        _ => true,
    }
}

/// Every number in a list is whole.
pub open spec fn whole_list(s: Seq<Json>) -> bool
    decreases s,
{
    s.len() == 0 || (whole_list(s.drop_last()) && whole_numbers(s.last()))
}

/// Every number in the members is whole.
pub open spec fn whole_members(s: Seq<(String, Json)>) -> bool
    decreases s,
{
    s.len() == 0 || (whole_members(s.skip(1)) && whole_numbers(s[0].1))
}

/// Reads a text: `serde_json::from_str`. It gives the value that the text denotes, or
/// nothing if the text is no JSON.
#[verifier::external_body]
pub(crate) fn parse_value(s: &str) -> (r: Option<serde_json::Value>)
    ensures
        match r {
            Some(v) => parsed(s@) == Some(value_view(v)),
            None => parsed(s@) is None,
        },
{
    serde_json::from_str::<serde_json::Value>(s).ok()
}

/// Takes a value of `serde_json` apart, variant by variant: what is taken out is what it
/// holds. A number is read with `as_u64` and `as_i64`.
#[verifier::external_body]
pub(crate) fn from_value(v: serde_json::Value) -> (r: Json)
    ensures
        r@ == value_view(v),
{
    match v {
        serde_json::Value::Null => Json::Null,
        serde_json::Value::Bool(b) => Json::Bool(b),
        serde_json::Value::Number(n) => Json::Num(n.as_u64(), n.as_i64()),
        serde_json::Value::String(s) => Json::Text(s),
        serde_json::Value::Array(a) => Json::List(a.into_iter().map(from_value).collect()),
        serde_json::Value::Object(m) => {
            Json::Object(m.into_iter().map(|(k, x)| (k, from_value(x))).collect())
        },
    }
}

/// Puts a value of `serde_json` together, variant by variant: it holds what was put in. Only
/// whole numbers can be put in.
#[verifier::external_body]
pub(crate) fn to_value(j: &Json) -> (r: serde_json::Value)
    requires
        whole_numbers(*j),
    ensures
        value_view(r) == j@,
{
    match j {
        Json::Null => serde_json::Value::Null,
        Json::Bool(b) => serde_json::Value::from(*b),
        Json::Num(Some(u), _) => serde_json::Value::from(*u),
        Json::Num(None, i) => serde_json::Value::from(i.unwrap_or_default()),
        Json::Text(s) => serde_json::Value::from(s.as_str()),
        Json::List(a) => serde_json::Value::Array(a.iter().map(to_value).collect()),
        Json::Object(m) => serde_json::Value::Object(
            m.iter().rev().map(|(k, x)| (k.clone(), to_value(x))).collect(),
        ),
    }
}

/// Writes a value as a text: `serde_json::Value::to_string`. Reading the text again gives
/// back what was written, unless it is nested too deep to be read.
#[verifier::external_body]
pub(crate) fn write_value(v: &serde_json::Value) -> (r: String)
    ensures
        readable(value_view(*v)) ==> parsed(r@) == Some(value_view(*v)),
{
    v.to_string()
}

/// Reads a JSON text.
pub fn read(s: &str) -> (r: Option<Json>)
    ensures
        match r {
            Some(j) => parsed(s@) == Some(j@),
            None => parsed(s@) is None,
        },
{
    match parse_value(s) {
        Some(v) => Some(from_value(v)),
        None => None,
    }
}

/// Writes a JSON text, which reads as what was written.
pub fn write(j: &Json) -> (r: String)
    requires
        whole_numbers(*j),
    ensures
        readable(j@) ==> parsed(r@) == Some(j@),
{
    let v = to_value(j);
    write_value(&v)
}

impl JsonView {
    /// The member of an object.
    pub open spec fn member(self, key: Seq<char>) -> Option<JsonView> {
        match self {
            JsonView::Object(m) => if m.contains_key(key) {
                Some(m[key])
            } else {
                None
            },
            _ => None,
        }
    }

    /// The text that a value is.
    pub open spec fn text(self) -> Option<Seq<char>> {
        match self {
            JsonView::Text(s) => Some(s),
            _ => None,
        }
    }

    /// The unsigned integer that a value is.
    pub open spec fn unsigned(self) -> Option<u64> {
        match self {
            JsonView::Num(u, _) => u,
            _ => None,
        }
    }

    /// The signed integer that a value is.
    pub open spec fn signed(self) -> Option<i64> {
        match self {
            JsonView::Num(_, i) => i,
            _ => None,
        }
    }

    /// The text of a member.
    pub open spec fn member_text(self, key: Seq<char>) -> Option<Seq<char>> {
        match self.member(key) {
            Some(v) => v.text(),
            None => None,
        }
    }

    /// The unsigned integer of a member; zero if there is none.
    pub open spec fn member_unsigned(self, key: Seq<char>) -> u64 {
        match self.member(key) {
            Some(v) => match v.unsigned() {
                Some(u) => u,
                None => 0,
            },
            None => 0,
        }
    }

    /// The signed integer of a member.
    pub open spec fn member_signed(self, key: Seq<char>) -> Option<i64> {
        match self.member(key) {
            Some(v) => v.signed(),
            None => None,
        }
    }

    /// The list of a member.
    pub open spec fn member_list(self, key: Seq<char>) -> Option<Seq<JsonView>> {
        match self.member(key) {
            Some(JsonView::List(s)) => Some(s),
            _ => None,
        }
    }
}

pub proof fn lemma_list_view(s: Seq<Json>)
    ensures
        list_view(s).len() == s.len(),
        forall|i: int| 0 <= i < s.len() ==> #[trigger] list_view(s)[i] == s[i]@,
    decreases s.len(),
{
    if s.len() > 0 {
        lemma_list_view(s.drop_last());
        assert forall|i: int| 0 <= i < s.len() implies #[trigger] list_view(s)[i] == s[i]@ by {
            if i < s.len() - 1 {
                assert(list_view(s.drop_last())[i] == s.drop_last()[i]@);
            }
        }
    }
}

impl Json {
    /// The member of an object.
    pub fn get(&self, key: &str) -> (r: Option<&Json>)
        ensures
            match r {
                Some(v) => self@.member(key@) == Some(v@),
                None => self@.member(key@) is None,
            },
    {
        match self {
            Json::Object(m) => {
                let ghost all = m@;
                assert(all.skip(0) =~= all);
                for i in 0..m.len()
                    invariant
                        all == m@,
                        *self == Json::Object(*m),
                        object_view(all).contains_key(key@) == object_view(
                            all.skip(i as int),
                        ).contains_key(key@),
                        object_view(all).contains_key(key@) ==> object_view(all)[key@]
                            == object_view(all.skip(i as int))[key@],
                {
                    assert(all.skip(i as int).skip(1) =~= all.skip(i + 1));
                    assert(all.skip(i as int)[0] == all[i as int]);
                    if text::same(m[i].0.as_str(), key) {
                        return Some(&m[i].1);
                    }
                }
                None
            },
            _ => None,
        }
    }

    /// The text of a member.
    pub fn get_text(&self, key: &str) -> (r: Option<&str>)
        ensures
            match r {
                Some(s) => self@.member_text(key@) == Some(s@),
                None => self@.member_text(key@) is None,
            },
    {
        match self.get(key) {
            Some(Json::Text(s)) => Some(s.as_str()),
            _ => None,
        }
    }

    /// The unsigned integer of a member; zero if there is none.
    pub fn get_unsigned(&self, key: &str) -> (r: u64)
        ensures
            r == self@.member_unsigned(key@),
    {
        match self.get(key) {
            Some(Json::Num(Some(u), _)) => *u,
            _ => 0,
        }
    }

    /// The signed integer of a member.
    pub fn get_signed(&self, key: &str) -> (r: Option<i64>)
        ensures
            r == self@.member_signed(key@),
    {
        match self.get(key) {
            Some(Json::Num(_, i)) => *i,
            _ => None,
        }
    }

    /// The list of a member.
    pub fn get_list(&self, key: &str) -> (r: Option<&Vec<Json>>)
        ensures
            match r {
                Some(v) => self@.member_list(key@) == Some(list_view(v@)),
                None => self@.member_list(key@) is None,
            },
    {
        match self.get(key) {
            Some(Json::List(v)) => Some(v),
            _ => None,
        }
    }

    /// An unsigned integer.
    pub fn unsigned(u: u64) -> (r: Json)
        ensures
            r@ == JsonView::Num(
                Some(u),
                if u <= i64::MAX {
                    Some(u as i64)
                } else {
                    None
                },
            ),
            whole_numbers(r),
    {
        if u <= 0x7fff_ffff_ffff_ffff {
            Json::Num(Some(u), Some(u as i64))
        } else {
            Json::Num(Some(u), None)
        }
    }

    /// A signed integer.
    pub fn signed(i: i64) -> (r: Json)
        ensures
            r@ == JsonView::Num(
                if i >= 0 {
                    Some(i as u64)
                } else {
                    None
                },
                Some(i),
            ),
            whole_numbers(r),
    {
        if i >= 0 {
            Json::Num(Some(i as u64), Some(i))
        } else {
            Json::Num(None, Some(i))
        }
    }
}

} // verus!
