//! JSON values: what the server sends and what documents carry.

use crate::text::{copy_text, same_text};
use vstd::prelude::*;

verus! {

/// `serde_json::Value`, as it is handed to the serializer.
#[verifier::external_type_specification]
#[verifier::external_body]
pub struct ExValue(serde_json::Value);

/// `serde_json::Number`: a JSON number, carried as it came.
#[verifier::external_type_specification]
#[verifier::external_body]
pub struct ExNumber(serde_json::Number);

/// `serde_json::Error`, which the serializer may return.
#[verifier::external_type_specification]
#[verifier::external_body]
pub struct ExSerdeError(serde_json::Error);

/// A JSON value.
pub enum Json {
    Null,
    Bool(bool),
    Number(serde_json::Number),
    Text(String),
    Array(Vec<Json>),
    /// Members in any order; of two members with one key the later counts.
    Object(Vec<(String, Json)>),
}

/// What a JSON value says.
pub ghost enum JsonView {
    Null,
    Bool(bool),
    Number(serde_json::Number),
    Text(Seq<char>),
    Array(Seq<JsonView>),
    Object(Map<Seq<char>, JsonView>),
}

/// What a JSON value says, read off its structure.
pub open spec fn json_view(j: Json) -> JsonView
    decreases j,
{
    match j {
        Json::Null => JsonView::Null,
        Json::Bool(b) => JsonView::Bool(b),
        Json::Number(n) => JsonView::Number(n),
        Json::Text(s) => JsonView::Text(s@),
        Json::Array(v) => JsonView::Array(json_views(v@)),
        Json::Object(v) => JsonView::Object(members(v@)),
    }
}

/// What each of a list of JSON values says.
pub open spec fn json_views(s: Seq<Json>) -> Seq<JsonView>
    decreases s,
{
    if s.len() == 0 {
        Seq::empty()
    } else {
        json_views(s.drop_last()).push(json_view(s.last()))
    }
}

/// The map that a list of members stands for.
pub open spec fn members(s: Seq<(String, Json)>) -> Map<Seq<char>, JsonView>
    decreases s,
{
    if s.len() == 0 {
        Map::empty()
    } else {
        members(s.drop_last()).insert(s.last().0@, json_view(s.last().1))
    }
}

/// The views of a list of values stand in the order of the values.
pub broadcast proof fn lemma_json_views(s: Seq<Json>)
    ensures
        #![trigger json_views(s)]
        json_views(s).len() == s.len(),
        forall|i: int| 0 <= i < s.len() ==> #[trigger] json_views(s)[i] == json_view(s[i]),
    decreases s.len(),
{
    if s.len() > 0 {
        lemma_json_views(s.drop_last());
    }
}

impl View for Json {
    type V = JsonView;

    open spec fn view(&self) -> JsonView {
        json_view(*self)
    }
}

/// What `serde_json::Number::as_u64` returns: the number, where it is a non-negative integer
/// that fits.
pub uninterp spec fn number_u64(n: serde_json::Number) -> Option<u64>;

/// What `serde_json::Number::from` makes of an unsigned integer.
pub uninterp spec fn number_from(n: u64) -> serde_json::Number;

/// `serde_json::Number::as_u64` reads a number as an unsigned integer.
pub assume_specification[ serde_json::Number::as_u64 ](n: &serde_json::Number) -> (r: Option<u64>)
    ensures
        r == number_u64(*n),
;

/// `serde_json::Number::from` for `u64`: the number that reads back as `n`.
#[verifier::external_body]
fn number_of(n: u64) -> (r: serde_json::Number)
    ensures
        r == number_from(n),
        number_u64(r) == Some(n),
{
    serde_json::Number::from(n)
}

/// `serde_json::Number::clone`: an equal number.
#[verifier::external_body]
fn copy_number(n: &serde_json::Number) -> (r: serde_json::Number)
    ensures
        r == *n,
{
    n.clone()
}

impl JsonView {
    /// The member of a key, where the value is an object that has it.
    pub open spec fn member(self, k: Seq<char>) -> Option<JsonView> {
        match self {
            JsonView::Object(m) => if m.contains_key(k) {
                Some(m[k])
            } else {
                None
            },
            _ => None,
        }
    }

    /// The text, where the value is one.
    pub open spec fn text(self) -> Option<Seq<char>> {
        match self {
            JsonView::Text(s) => Some(s),
            _ => None,
        }
    }

    /// The text of the member of a key.
    pub open spec fn member_text(self, k: Seq<char>) -> Option<Seq<char>> {
        match self.member(k) {
            Some(v) => v.text(),
            None => None,
        }
    }

    /// The truth value, where the value is one.
    pub open spec fn truth(self) -> Option<bool> {
        match self {
            JsonView::Bool(b) => Some(b),
            _ => None,
        }
    }

    /// The unsigned integer, where the value is one.
    pub open spec fn uint(self) -> Option<u64> {
        match self {
            JsonView::Number(n) => number_u64(n),
            _ => None,
        }
    }

    /// The unsigned integer of the member of a key.
    pub open spec fn member_uint(self, k: Seq<char>) -> Option<u64> {
        match self.member(k) {
            Some(v) => v.uint(),
            None => None,
        }
    }

    /// The items, where the value is an array.
    pub open spec fn items(self) -> Option<Seq<JsonView>> {
        match self {
            JsonView::Array(s) => Some(s),
            _ => None,
        }
    }

    /// The items of the member of a key.
    pub open spec fn member_items(self, k: Seq<char>) -> Option<Seq<JsonView>> {
        match self.member(k) {
            Some(v) => v.items(),
            None => None,
        }
    }

    /// Whether the value is an object with a text under a key.
    pub open spec fn says(self, k: Seq<char>, s: Seq<char>) -> bool {
        self is Object && self->Object_0.contains_key(k) && self->Object_0[k] == JsonView::Text(s)
    }

    /// Whether the value is no object with a text under a key.
    pub open spec fn says_nothing(self, k: Seq<char>) -> bool {
        forall|s: Seq<char>| !#[trigger] self.says(k, s)
    }

    /// The value can get members: it is an object, or nothing yet.
    pub open spec fn takes_members(self) -> bool {
        self is Null || self is Object
    }

    /// The members of a value that can get members.
    pub open spec fn all_members(self) -> Map<Seq<char>, JsonView> {
        match self {
            JsonView::Object(m) => m,
            _ => Map::empty(),
        }
    }

    /// The value with a member set.
    pub open spec fn with_member(self, k: Seq<char>, v: JsonView) -> JsonView {
        JsonView::Object(self.all_members().insert(k, v))
    }

    /// The value without a member.
    pub open spec fn without_member(self, k: Seq<char>) -> JsonView {
        match self {
            JsonView::Object(m) => JsonView::Object(m.remove(k)),
            _ => self,
        }
    }
}

proof fn lemma_members_last(s: Seq<(String, Json)>, k: Seq<char>, i: int)
    requires
        0 <= i < s.len(),
        s[i].0@ == k,
        forall|j: int| i < j < s.len() ==> (#[trigger] s[j]).0@ != k,
    ensures
        members(s).contains_key(k),
        members(s)[k] == json_view(s[i].1),
    decreases s.len(),
{
    if i < s.len() - 1 {
        assert(s[s.len() - 1].0@ != k);
        lemma_members_last(s.drop_last(), k, i);
    }
}

proof fn lemma_members_none(s: Seq<(String, Json)>, k: Seq<char>)
    requires
        forall|j: int| 0 <= j < s.len() ==> (#[trigger] s[j]).0@ != k,
    ensures
        !members(s).contains_key(k),
    decreases s.len(),
{
    if s.len() > 0 {
        assert(s[s.len() - 1].0@ != k);
        lemma_members_none(s.drop_last(), k);
    }
}

/// Lists with the same keys and the same values in the same places stand for one map.
proof fn lemma_members_same(s: Seq<(String, Json)>, t: Seq<(String, Json)>)
    requires
        s.len() == t.len(),
        forall|j: int|
            0 <= j < s.len() ==> (#[trigger] s[j]).0@ == t[j].0@ && json_view(s[j].1) == json_view(
                t[j].1,
            ),
    ensures
        members(s) == members(t),
    decreases s.len(),
{
    if s.len() > 0 {
        assert(s[s.len() - 1].0@ == t[t.len() - 1].0@);
        lemma_members_same(s.drop_last(), t.drop_last());
    }
}

impl Json {
    /// A text value.
    pub fn text(s: &str) -> (r: Json)
        ensures
            r@ == JsonView::Text(s@),
    {
        Json::Text(copy_text(s))
    }

    /// An unsigned integer.
    pub fn uint(n: u64) -> (r: Json)
        ensures
            r@ == JsonView::Number(number_from(n)),
            r@.uint() == Some(n),
    {
        Json::Number(number_of(n))
    }

    /// An object without members.
    pub fn object() -> (r: Json)
        ensures
            r@ == JsonView::Object(Map::empty()),
    {
        let v: Vec<(String, Json)> = Vec::new();
        Json::Object(v)
    }

    /// An array.
    pub fn array(v: Vec<Json>) -> (r: Json)
        ensures
            r@ == JsonView::Array(json_views(v@)),
    {
        Json::Array(v)
    }

    /// The object with one more member.
    pub fn with(self, k: &str, v: Json) -> (r: Json)
        requires
            self@.takes_members(),
        ensures
            r@ == self@.with_member(k@, v@),
    {
        let mut j = self;
        j.set(k, v);
        j
    }

    /// The member of a key.
    pub fn get(&self, k: &str) -> (r: Option<&Json>)
        ensures
            self@.member(k@) == (match r {
                Some(j) => Some(j@),
                None => None,
            }),
    {
        match self {
            Json::Object(v) => {
                let mut i: usize = v.len();
                while i > 0
                    invariant
                        *self == Json::Object(*v),
                        i <= v@.len(),
                        forall|j: int| i <= j < v@.len() ==> (#[trigger] v@[j]).0@ != k@,
                    decreases i,
                {
                    i = i - 1;
                    if same_text(v[i].0.as_str(), k) {
                        proof {
                            lemma_members_last(v@, k@, i as int);
                        }
                        return Some(&v[i].1);
                    }
                }
                proof {
                    lemma_members_none(v@, k@);
                }
                None
            },
            _ => None,
        }
    }

    /// The text, where the value is one.
    pub fn as_str(&self) -> (r: Option<&String>)
        ensures
            self@.text() == (match r {
                Some(s) => Some(s@),
                None => None,
            }),
    {
        match self {
            Json::Text(s) => Some(s),
            _ => None,
        }
    }

    /// The text of the member of a key.
    pub fn get_str(&self, k: &str) -> (r: Option<&String>)
        ensures
            self@.member_text(k@) == (match r {
                Some(s) => Some(s@),
                None => None,
            }),
    {
        match self.get(k) {
            Some(v) => v.as_str(),
            None => None,
        }
    }

    /// The truth value, where the value is one.
    pub fn as_bool(&self) -> (r: Option<bool>)
        ensures
            r == self@.truth(),
    {
        match self {
            Json::Bool(b) => Some(*b),
            _ => None,
        }
    }

    /// The unsigned integer, where the value is one.
    pub fn as_u64(&self) -> (r: Option<u64>)
        ensures
            r == self@.uint(),
    {
        match self {
            Json::Number(n) => n.as_u64(),
            _ => None,
        }
    }

    /// The unsigned integer of the member of a key.
    pub fn get_u64(&self, k: &str) -> (r: Option<u64>)
        ensures
            r == self@.member_uint(k@),
    {
        match self.get(k) {
            Some(v) => v.as_u64(),
            None => None,
        }
    }

    /// The items, where the value is an array.
    pub fn as_array(&self) -> (r: Option<&Vec<Json>>)
        ensures
            self@.items() == (match r {
                Some(v) => Some(json_views(v@)),
                None => None,
            }),
    {
        match self {
            Json::Array(v) => {
                Some(v)
            },
            _ => None,
        }
    }

    /// The items of the member of a key.
    pub fn get_array(&self, k: &str) -> (r: Option<&Vec<Json>>)
        ensures
            self@.member_items(k@) == (match r {
                Some(v) => Some(json_views(v@)),
                None => None,
            }),
    {
        match self.get(k) {
            Some(v) => v.as_array(),
            None => None,
        }
    }

    /// Sets the member of a key.
    pub fn set(&mut self, k: &str, v: Json)
        requires
            old(self)@.takes_members(),
        ensures
            final(self)@ == old(self)@.with_member(k@, v@),
    {
        let mut taken = Json::Null;
        std::mem::swap(self, &mut taken);
        let mut list: Vec<(String, Json)> = match taken {
            Json::Object(list) => {
                without_key(list, k)
            },
            _ => Vec::new(),
        };
        let ghost before = list@;
        let ghost vv = v@;
        assert(members(before) =~= old(self)@.all_members().remove(k@));
        list.push((copy_text(k), v));
        proof {
            assert(list@.drop_last() =~= before);
            assert(members(list@) =~= old(self)@.all_members().insert(k@, vv));
        }
        *self = Json::Object(list);
    }

    /// Removes the member of a key.
    pub fn unset(&mut self, k: &str)
        ensures
            final(self)@ == old(self)@.without_member(k@),
    {
        let mut taken = Json::Null;
        std::mem::swap(self, &mut taken);
        match taken {
            Json::Object(list) => {
                let kept = without_key(list, k);
                *self = Json::Object(kept);
            },
            other => {
                *self = other;
            },
        }
    }

    /// A copy that says the same.
    pub fn copy(&self) -> (r: Json)
        ensures
            r@ == self@,
        decreases self,
    {
        match self {
            Json::Null => Json::Null,
            Json::Bool(b) => Json::Bool(*b),
            Json::Number(n) => Json::Number(copy_number(n)),
            Json::Text(s) => Json::Text(copy_text(s.as_str())),
            Json::Array(v) => {
                let mut out: Vec<Json> = Vec::new();
                let mut i: usize = 0;
                while i < v.len()
                    invariant
                        *self == Json::Array(*v),
                        i <= v@.len(),
                        out@.len() == i,
                        forall|j: int|
                            0 <= j < i ==> json_view(#[trigger] out@[j]) == json_view(v@[j]),
                    decreases v@.len() - i,
                {
                    proof {
                        assert(decreases_to!(*self => self->Array_0));
                        assert(decreases_to!(*v => v@));
                        assert(decreases_to!(v@ => v@[i as int]));
                    }
                    let c = v[i].copy();
                    out.push(c);
                    i = i + 1;
                }
                proof {
                    broadcast use lemma_json_views;
                    assert(json_views(out@) =~= json_views(v@));
                }
                Json::Array(out)
            },
            Json::Object(v) => {
                let mut out: Vec<(String, Json)> = Vec::new();
                let mut i: usize = 0;
                while i < v.len()
                    invariant
                        *self == Json::Object(*v),
                        i <= v@.len(),
                        out@.len() == i,
                        forall|j: int|
                            0 <= j < i ==> (#[trigger] out@[j]).0@ == v@[j].0@ && json_view(
                                out@[j].1,
                            ) == json_view(v@[j].1),
                    decreases v@.len() - i,
                {
                    proof {
                        assert(decreases_to!(*self => self->Object_0));
                        assert(decreases_to!(*v => v@));
                        assert(decreases_to!(v@ => v@[i as int]));
                        assert(decreases_to!(v@[i as int] => v@[i as int].1));
                    }
                    let c = v[i].1.copy();
                    out.push((copy_text(v[i].0.as_str()), c));
                    i = i + 1;
                }
                proof {
                    lemma_members_same(out@, v@);
                }
                Json::Object(out)
            },
        }
    }
}

/// The members of a list but those with one key.
fn without_key(list: Vec<(String, Json)>, k: &str) -> (r: Vec<(String, Json)>)
    ensures
        members(r@) == members(list@).remove(k@),
    decreases list@.len(),
{
    let ghost all = list@;
    let mut rest = list;
    match rest.pop() {
        None => {
            assert(members(rest@) =~= members(all).remove(k@));
            rest
        },
        Some(p) => {
            assert(rest@ =~= all.drop_last());
            let mut out = without_key(rest, k);
            if !same_text(p.0.as_str(), k) {
                let ghost o = out@;
                out.push(p);
                assert(out@.drop_last() =~= o);
            }
            assert(members(out@) =~= members(all).remove(k@));
            out
        },
    }
}

/// What a `serde_json::Value` holds.
pub uninterp spec fn json_contents(v: serde_json::Value) -> JsonView;

/// What `serde_json::to_vec_pretty` returns for a value that says this.
pub uninterp spec fn pretty_json(v: JsonView) -> Option<Seq<u8>>;

/// `serde_json::Value::Null` holds nothing.
#[verifier::external_body]
fn value_null() -> (r: serde_json::Value)
    ensures
        json_contents(r) == JsonView::Null,
{
    serde_json::Value::Null
}

/// `serde_json::Value::Bool` holds the truth value it is made of.
#[verifier::external_body]
fn value_bool(b: bool) -> (r: serde_json::Value)
    ensures
        json_contents(r) == JsonView::Bool(b),
{
    serde_json::Value::Bool(b)
}

/// `serde_json::Value::Number` holds the number it is made of.
#[verifier::external_body]
fn value_number(n: serde_json::Number) -> (r: serde_json::Value)
    ensures
        json_contents(r) == JsonView::Number(n),
{
    serde_json::Value::Number(n)
}

/// `serde_json::Value::String` holds the text it is made of.
#[verifier::external_body]
fn value_text(s: String) -> (r: serde_json::Value)
    ensures
        json_contents(r) == JsonView::Text(s@),
{
    serde_json::Value::String(s)
}

/// `serde_json::Value::Array` holds the items it is made of.
#[verifier::external_body]
fn value_array(v: Vec<serde_json::Value>) -> (r: serde_json::Value)
    ensures
        json_contents(r) == JsonView::Array(
            Seq::new(v@.len(), |i: int| json_contents(v@[i])),
        ),
{
    serde_json::Value::Array(v)
}

/// Whether no two members of a list have the same key.
spec fn keys_differ(s: Seq<(String, serde_json::Value)>) -> bool {
    forall|i: int, j: int|
        0 <= i < j < s.len() ==> (#[trigger] s[i]).0@ != (#[trigger] s[j]).0@
}

/// Whether a map has the members of a list and no others.
spec fn holds_members(
    m: Map<Seq<char>, JsonView>,
    s: Seq<(String, serde_json::Value)>,
) -> bool {
    &&& forall|i: int|
        0 <= i < s.len() ==> m.contains_key((#[trigger] s[i]).0@) && m[s[i].0@] == json_contents(
            s[i].1,
        )
    &&& forall|k: Seq<char>| #[trigger]
        m.contains_key(k) ==> exists|i: int| 0 <= i < s.len() && (#[trigger] s[i]).0@ == k
}

/// `serde_json::Map::from_iter`, for members with different keys: an object with these members
/// and no others.
#[verifier::external_body]
fn value_object(v: Vec<(String, serde_json::Value)>) -> (r: serde_json::Value)
    requires
        keys_differ(v@),
    ensures
        json_contents(r) is Object,
        holds_members(json_contents(r)->Object_0, v@),
{
    serde_json::Value::Object(serde_json::Map::from_iter(v))
}

/// Whether a member of a list is the last one with its key.
spec fn is_last(s: Seq<(String, Json)>, j: int) -> bool {
    0 <= j < s.len() && forall|i: int| j < i < s.len() ==> (#[trigger] s[i]).0@ != s[j].0@
}

/// Whether a value is that of the last member with its key.
spec fn is_of_last(s: Seq<(String, Json)>, p: (String, serde_json::Value)) -> bool {
    exists|j: int| #[trigger]
        is_last(s, j) && p.0@ == s[j].0@ && json_contents(p.1) == json_view(s[j].1)
}

/// Whether a list has a member with a key.
spec fn has_member(s: Seq<(String, serde_json::Value)>, k: Seq<char>) -> bool {
    exists|i: int| 0 <= i < s.len() && (#[trigger] s[i]).0@ == k
}

/// Looks for a member with a key.
fn find_member(v: &Vec<(String, serde_json::Value)>, k: &str) -> (r: bool)
    ensures
        r == has_member(v@, k@),
{
    let mut i: usize = 0;
    while i < v.len()
        invariant
            i <= v@.len(),
            forall|j: int| 0 <= j < i ==> (#[trigger] v@[j]).0@ != k@,
        decreases v@.len() - i,
    {
        if same_text(v[i].0.as_str(), k) {
            assert(v@[i as int].0@ == k@);
            return true;
        }
        i = i + 1;
    }
    false
}

/// The last member of each key makes up the map that a list of members stands for.
proof fn lemma_last_members(
    m: Map<Seq<char>, JsonView>,
    s: Seq<(String, serde_json::Value)>,
    t: Seq<(String, Json)>,
)
    requires
        holds_members(m, s),
        forall|i: int| 0 <= i < s.len() ==> is_of_last(t, #[trigger] s[i]),
        forall|j: int| 0 <= j < t.len() ==> has_member(s, (#[trigger] t[j]).0@),
    ensures
        m == members(t),
{
    assert forall|k: Seq<char>| #[trigger] m.contains_key(k) implies members(t).contains_key(k)
        && members(t)[k] == m[k] by {
        let i = choose|i: int| 0 <= i < s.len() && (#[trigger] s[i]).0@ == k;
        assert(is_of_last(t, s[i]));
        let j = choose|j: int| #[trigger]
            is_last(t, j) && s[i].0@ == t[j].0@ && json_contents(s[i].1) == json_view(t[j].1);
        lemma_members_last(t, k, j);
    }
    assert forall|k: Seq<char>| #[trigger] members(t).contains_key(k) implies m.contains_key(k) by {
        if forall|j: int| 0 <= j < t.len() ==> (#[trigger] t[j]).0@ != k {
            lemma_members_none(t, k);
        } else {
            let j = choose|j: int| 0 <= j < t.len() && (#[trigger] t[j]).0@ == k;
            assert(has_member(s, t[j].0@));
            let i = choose|i: int| 0 <= i < s.len() && (#[trigger] s[i]).0@ == k;
            assert(m.contains_key(s[i].0@));
        }
    }
    assert(m =~= members(t));
}

/// `serde_json::to_vec_pretty`: the value as indented JSON text, which depends on what the
/// value holds alone. The text itself is not spelled out.
#[verifier::external_body]
fn to_vec_pretty(v: &serde_json::Value) -> (r: Result<Vec<u8>, serde_json::Error>)
    ensures
        pretty_json(json_contents(*v)) == (match r {
            Ok(b) => Some(b@),
            Err(_) => None,
        }),
{
    serde_json::to_vec_pretty(v)
}

/// The indented JSON text of a value; empty where it has none.
pub open spec fn pretty_bytes(v: JsonView) -> Seq<u8> {
    match pretty_json(v) {
        Some(b) => b,
        None => Seq::empty(),
    }
}

impl Json {
    /// The value as the serializer takes it.
    pub fn to_value(&self) -> (r: serde_json::Value)
        ensures
            json_contents(r) == self@,
        decreases self,
    {
        match self {
            Json::Null => value_null(),
            Json::Bool(b) => value_bool(*b),
            Json::Number(n) => value_number(copy_number(n)),
            Json::Text(s) => value_text(copy_text(s.as_str())),
            Json::Array(v) => {
                let mut out: Vec<serde_json::Value> = Vec::new();
                let mut i: usize = 0;
                while i < v.len()
                    invariant
                        *self == Json::Array(*v),
                        i <= v@.len(),
                        out@.len() == i,
                        forall|j: int|
                            0 <= j < i ==> json_contents(#[trigger] out@[j]) == json_view(v@[j]),
                    decreases v@.len() - i,
                {
                    proof {
                        assert(decreases_to!(*self => self->Array_0));
                        assert(decreases_to!(*v => v@));
                        assert(decreases_to!(v@ => v@[i as int]));
                    }
                    let c = v[i].to_value();
                    out.push(c);
                    i = i + 1;
                }
                proof {
                    broadcast use lemma_json_views;
                    assert(Seq::new(out@.len(), |i: int| json_contents(out@[i])) =~= json_views(v@));
                }
                value_array(out)
            },
            Json::Object(v) => {
                // of two members with one key the later counts, so they are taken from the end
                let mut out: Vec<(String, serde_json::Value)> = Vec::new();
                let mut i: usize = v.len();
                while i > 0
                    invariant
                        *self == Json::Object(*v),
                        i <= v@.len(),
                        keys_differ(out@),
                        forall|x: int| 0 <= x < out@.len() ==> is_of_last(v@, #[trigger] out@[x]),
                        forall|j: int|
                            i <= j < v@.len() ==> has_member(out@, (#[trigger] v@[j]).0@),
                        forall|k: Seq<char>| #[trigger]
                            has_member(out@, k) ==> exists|j: int|
                                i <= j < v@.len() && (#[trigger] v@[j]).0@ == k,
                    decreases i,
                {
                    i = i - 1;
                    let ghost o = out@;
                    let ghost at = i as int;
                    if !find_member(&out, v[i].0.as_str()) {
                        proof {
                            assert(decreases_to!(*self => self->Object_0));
                            assert(decreases_to!(*v => v@));
                            assert(decreases_to!(v@ => v@[i as int]));
                            assert(decreases_to!(v@[i as int] => v@[i as int].1));
                        }
                        let c = v[i].1.to_value();
                        out.push((copy_text(v[i].0.as_str()), c));
                        proof {
                            assert(is_last(v@, at)) by {
                                assert forall|j: int| at < j < v@.len() implies (#[trigger] v@[j]).0@
                                    != v@[at].0@ by {
                                    assert(has_member(o, v@[j].0@));
                                }
                            }
                            assert(is_of_last(v@, out@[o.len() as int]));
                            assert forall|x: int, y: int| 0 <= x < y < out@.len() implies (
                            #[trigger] out@[x]).0@ != (#[trigger] out@[y]).0@ by {
                                if y == o.len() {
                                    assert(o[x].0@ == out@[x].0@);
                                    if o[x].0@ == v@[at].0@ {
                                        assert(has_member(o, v@[at].0@));
                                    }
                                }
                            }
                        }
                    }
                    proof {
                        assert forall|k: Seq<char>| #[trigger] has_member(o, k) implies has_member(
                            out@,
                            k,
                        ) by {
                            let x = choose|x: int| 0 <= x < o.len() && (#[trigger] o[x]).0@ == k;
                            assert(out@[x].0@ == k);
                        }
                        assert(has_member(out@, v@[at].0@)) by {
                            if !has_member(o, v@[at].0@) {
                                assert(out@[o.len() as int].0@ == v@[at].0@);
                            }
                        }
                        assert forall|k: Seq<char>| #[trigger] has_member(out@, k) implies exists|
                            j: int,
                        |
                            i <= j < v@.len() && (#[trigger] v@[j]).0@ == k by {
                            let x = choose|x: int|
                                0 <= x < out@.len() && (#[trigger] out@[x]).0@ == k;
                            if x < o.len() {
                                assert(o[x].0@ == k);
                                assert(has_member(o, k));
                            } else {
                                assert(v@[at].0@ == k);
                            }
                        }
                    }
                }
                let ghost all = out@;
                let r = value_object(out);
                proof {
                    lemma_last_members(json_contents(r)->Object_0, all, v@);
                }
                r
            },
        }
    }

    /// The indented JSON text of the value.
    pub fn pretty(&self) -> (r: Vec<u8>)
        ensures
            r@ == pretty_bytes(self@),
    {
        match to_vec_pretty(&self.to_value()) {
            Ok(b) => b,
            Err(_) => Vec::new(),
        }
    }
}

/// What a `serde_json::Value` is made of.
enum Parts<'a> {
    Null,
    Bool(bool),
    Number(&'a serde_json::Number),
    Text(&'a String),
    Array(&'a Vec<serde_json::Value>),
    Object(Vec<(&'a String, &'a serde_json::Value)>),
}

/// Whether a list holds the members of a map, each once.
spec fn lists_members(
    m: Map<Seq<char>, JsonView>,
    s: Seq<(&String, &serde_json::Value)>,
) -> bool {
    &&& forall|i: int|
        0 <= i < s.len() ==> m.contains_key((#[trigger] s[i]).0@) && m[s[i].0@] == json_contents(
            *s[i].1,
        )
    &&& forall|k: Seq<char>| #[trigger]
        m.contains_key(k) ==> exists|i: int| 0 <= i < s.len() && (#[trigger] s[i]).0@ == k
    &&& forall|i: int, j: int|
        0 <= i < j < s.len() ==> (#[trigger] s[i]).0@ != (#[trigger] s[j]).0@
}

/// The variants of `serde_json::Value`, with what they hold: an array its items, an object its
/// members, each once.
#[verifier::external_body]
fn split<'a>(v: &'a serde_json::Value) -> (r: Parts<'a>)
    ensures
        (match r {
            Parts::Null => json_contents(*v) == JsonView::Null,
            Parts::Bool(b) => json_contents(*v) == JsonView::Bool(b),
            Parts::Number(n) => json_contents(*v) == JsonView::Number(*n),
            Parts::Text(s) => json_contents(*v) == JsonView::Text(s@),
            Parts::Array(a) => json_contents(*v) == JsonView::Array(
                Seq::new(a@.len(), |i: int| json_contents(a@[i])),
            ),
            Parts::Object(o) => json_contents(*v) is Object && lists_members(
                json_contents(*v)->Object_0,
                o@,
            ),
        }),
{
    match v {
        serde_json::Value::Null => Parts::Null,
        serde_json::Value::Bool(b) => Parts::Bool(*b),
        serde_json::Value::Number(n) => Parts::Number(n),
        serde_json::Value::String(s) => Parts::Text(s),
        serde_json::Value::Array(a) => Parts::Array(a),
        serde_json::Value::Object(o) => Parts::Object(o.iter().collect()),
    }
}

/// What `serde_json::from_str` reads off a text, where it is JSON.
pub uninterp spec fn text_json(s: Seq<char>) -> Option<JsonView>;

/// `serde_json::from_str`: the value that a text writes down, which depends on the text alone.
/// Which texts are JSON, and what they say, is not spelled out.
#[verifier::external_body]
fn from_str(s: &str) -> (r: Result<serde_json::Value, serde_json::Error>)
    ensures
        text_json(s@) == (match r {
            Ok(v) => Some(json_contents(v)),
            Err(_) => None,
        }),
{
    serde_json::from_str(s)
}

/// A map whose members a list holds is finite.
proof fn lemma_listed_finite(
    m: Map<Seq<char>, JsonView>,
    s: Seq<(&String, &serde_json::Value)>,
)
    requires
        lists_members(m, s),
    ensures
        m.dom().finite(),
{
    let keys = Seq::new(s.len(), |i: int| s[i].0@);
    assert forall|k: Seq<char>| m.dom().contains(k) <==> keys.to_set().contains(k) by {
        if m.contains_key(k) {
            let i = choose|i: int| 0 <= i < s.len() && (#[trigger] s[i]).0@ == k;
            assert(keys[i] == k);
        }
        if keys.contains(k) {
            let i = choose|i: int| 0 <= i < keys.len() && keys[i] == k;
            assert(s[i].0@ == k);
        }
    }
    assert(m.dom() =~= keys.to_set());
    vstd::seq_lib::seq_to_set_is_finite(keys);
}

/// A list with the members of a map stands for that map.
proof fn lemma_listed_members(
    m: Map<Seq<char>, JsonView>,
    s: Seq<(&String, &serde_json::Value)>,
    t: Seq<(String, Json)>,
)
    requires
        lists_members(m, s),
        t.len() == s.len(),
        forall|j: int|
            0 <= j < s.len() ==> (#[trigger] t[j]).0@ == s[j].0@ && json_view(t[j].1)
                == json_contents(*s[j].1),
    ensures
        members(t) == m,
{
    assert forall|k: Seq<char>| m.contains_key(k) <==> #[trigger] members(t).contains_key(k) by {
        if m.contains_key(k) {
            let i = choose|i: int| 0 <= i < s.len() && (#[trigger] s[i]).0@ == k;
            lemma_listed_member(m, s, t, i);
        } else {
            assert forall|j: int| 0 <= j < t.len() implies (#[trigger] t[j]).0@ != k by {
                assert(m.contains_key(s[j].0@));
            }
            lemma_members_none(t, k);
        }
    }
    assert forall|k: Seq<char>| #[trigger] m.contains_key(k) implies m[k] == members(t)[k] by {
        let i = choose|i: int| 0 <= i < s.len() && (#[trigger] s[i]).0@ == k;
        lemma_listed_member(m, s, t, i);
    }
    assert(members(t) =~= m);
}

proof fn lemma_listed_member(
    m: Map<Seq<char>, JsonView>,
    s: Seq<(&String, &serde_json::Value)>,
    t: Seq<(String, Json)>,
    i: int,
)
    requires
        lists_members(m, s),
        t.len() == s.len(),
        forall|j: int|
            0 <= j < s.len() ==> (#[trigger] t[j]).0@ == s[j].0@ && json_view(t[j].1)
                == json_contents(*s[j].1),
        0 <= i < s.len(),
    ensures
        members(t).contains_key(s[i].0@),
        members(t)[s[i].0@] == m[s[i].0@],
{
    assert(t[i].0@ == s[i].0@);
    assert forall|j: int| i < j < t.len() implies (#[trigger] t[j]).0@ != s[i].0@ by {
        assert(s[i].0@ != s[j].0@);
    }
    lemma_members_last(t, s[i].0@, i);
}

impl Json {
    /// Reads what a value of the outside holds.
    pub fn from_value(v: &serde_json::Value) -> (r: Json)
        ensures
            r@ == json_contents(*v),
        decreases json_contents(*v),
    {
        match split(v) {
            Parts::Null => Json::Null,
            Parts::Bool(b) => Json::Bool(b),
            Parts::Number(n) => Json::Number(copy_number(n)),
            Parts::Text(s) => Json::Text(copy_text(s.as_str())),
            Parts::Array(a) => {
                let mut out: Vec<Json> = Vec::new();
                let mut i: usize = 0;
                while i < a.len()
                    invariant
                        json_contents(*v) == JsonView::Array(
                            Seq::new(a@.len(), |i: int| json_contents(a@[i])),
                        ),
                        i <= a@.len(),
                        out@.len() == i,
                        forall|j: int|
                            0 <= j < i ==> json_view(#[trigger] out@[j]) == json_contents(a@[j]),
                    decreases a@.len() - i,
                {
                    proof {
                        let items = json_contents(*v)->Array_0;
                        assert(items[i as int] == json_contents(a@[i as int]));
                        assert(decreases_to!(json_contents(*v) => items));
                        assert(decreases_to!(items => items[i as int]));
                    }
                    out.push(Json::from_value(&a[i]));
                    i = i + 1;
                }
                proof {
                    lemma_json_views(out@);
                    assert(json_views(out@) =~= Seq::new(a@.len(), |i: int| json_contents(a@[i])));
                }
                Json::Array(out)
            },
            Parts::Object(o) => {
                let ghost m = json_contents(*v)->Object_0;
                proof {
                    lemma_listed_finite(m, o@);
                }
                let mut out: Vec<(String, Json)> = Vec::new();
                let mut i: usize = 0;
                while i < o.len()
                    invariant
                        json_contents(*v) == JsonView::Object(m),
                        lists_members(m, o@),
                        m.dom().finite(),
                        i <= o@.len(),
                        out@.len() == i,
                        forall|j: int|
                            0 <= j < i ==> (#[trigger] out@[j]).0@ == o@[j].0@ && json_view(
                                out@[j].1,
                            ) == json_contents(*o@[j].1),
                    decreases o@.len() - i,
                {
                    let (k, x) = o[i];
                    proof {
                        assert(o@[i as int].0@ == k@);
                        assert(m[k@] == json_contents(*x));
                        assert(decreases_to!(json_contents(*v) => json_contents(*v)->Object_0));
                        assert(decreases_to!(m => m[k@]));
                    }
                    out.push((copy_text(k.as_str()), Json::from_value(x)));
                    i = i + 1;
                }
                proof {
                    lemma_listed_members(m, o@, out@);
                }
                Json::Object(out)
            },
        }
    }
}

/// Reads a text as JSON.
pub fn parse_json(s: &str) -> (r: Option<Json>)
    ensures
        text_json(s@) == (match r {
            Some(j) => Some(j@),
            None => None,
        }),
{
    match from_str(s) {
        Ok(v) => Some(Json::from_value(&v)),
        Err(_) => None,
    }
}

} // verus!
