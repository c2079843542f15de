//! A JSON value as the library reads and writes it.
use vstd::prelude::*;

verus! {

/// A JSON value; a number is kept as the text it is written with.
pub enum Json {
    Null,
    Bool(bool),
    Number(String),
    Str(String),
    Array(Vec<Json>),
    Object(Vec<(String, Json)>),
}

/// A JSON value as plain values.
pub ghost enum JsonView {
    Null,
    Bool(bool),
    Number(Seq<char>),
    Str(Seq<char>),
    Array(Seq<JsonView>),
    Object(Seq<(Seq<char>, JsonView)>),
}

/// The value as plain values.
pub open spec fn json_view(j: Json) -> JsonView
    decreases j,
{
    match j {
        Json::Null => JsonView::Null,
        Json::Bool(b) => JsonView::Bool(b),
        Json::Number(n) => JsonView::Number(n@),
        Json::Str(s) => JsonView::Str(s@),
        Json::Array(v) => JsonView::Array(Seq::new(v@.len(), |i: int|
            if 0 <= i < v@.len() {
                proof {
                    assert(decreases_to!(j => v));
                    assert(decreases_to!(v => v@));
                    assert(decreases_to!(v@ => v@[i]));
                }
                json_view(v@[i])
            } else {
                JsonView::Null
            }
        )),
        Json::Object(m) => JsonView::Object(Seq::new(m@.len(), |i: int|
            if 0 <= i < m@.len() {
                proof {
                    assert(decreases_to!(j => m));
                    assert(decreases_to!(m => m@));
                    assert(decreases_to!(m@ => m@[i]));
                    assert(decreases_to!(m@[i] => m@[i].1));
                }
                (m@[i].0@, json_view(m@[i].1))
            } else {
                (seq![], JsonView::Null)
            }
        )),
    }
}

impl View for Json {
    type V = JsonView;

    open spec fn view(&self) -> JsonView {
        json_view(*self)
    }
}

/// The members of an object as plain values.
pub open spec fn member_views(m: Seq<(String, Json)>) -> Seq<(Seq<char>, JsonView)> {
    Seq::new(m.len(), |i: int| (m[i].0@, m[i].1@))
}

/// The elements of an array as plain values.
pub open spec fn element_views(v: Seq<Json>) -> Seq<JsonView> {
    Seq::new(v.len(), |i: int| v[i]@)
}

/// The value of the first member named `key` from position `i` on.
pub open spec fn member_from(m: Seq<(Seq<char>, JsonView)>, key: Seq<char>, i: int) -> Option<JsonView>
    decreases m.len() - i,
{
    if i < 0 || i >= m.len() {
        None
    } else if m[i].0 == key {
        Some(m[i].1)
    } else {
        member_from(m, key, i + 1)
    }
}

/// The view of an array is that of its elements.
pub proof fn lemma_array_view(v: Vec<Json>)
    ensures
        Json::Array(v)@ == JsonView::Array(element_views(v@)),
{
    let j = Json::Array(v);
    assert(j@ == json_view(j));
    if let JsonView::Array(s) = j@ {
        assert(s =~= element_views(v@));
    }
}

/// The view of an object is that of its members.
pub proof fn lemma_object_view(m: Vec<(String, Json)>)
    ensures
        Json::Object(m)@ == JsonView::Object(member_views(m@)),
{
    let j = Json::Object(m);
    assert(j@ == json_view(j));
    if let JsonView::Object(s) = j@ {
        assert(s =~= member_views(m@));
    }
}

/// The member `key` of an object (serde_json's `Value::get` with a key):
/// none for a value that is no object.
pub open spec fn field(v: JsonView, key: Seq<char>) -> Option<JsonView> {
    match v {
        JsonView::Object(m) => member_from(m, key, 0),
        _ => None,
    }
}

/// The text of a string value (serde_json's `Value::as_str`).
pub open spec fn text_of(v: Option<JsonView>) -> Option<Seq<char>> {
    match v {
        Some(JsonView::Str(s)) => Some(s),
        _ => None,
    }
}

/// A string value.
pub open spec fn jstr(s: Seq<char>) -> JsonView {
    JsonView::Str(s)
}

impl Json {
    /// A copy of the value.
    pub fn duplicate(&self) -> (r: Json)
        ensures
            r@ == self@,
        decreases self,
    {
        match self {
            Json::Null => Json::Null,
            Json::Bool(b) => Json::Bool(*b),
            Json::Number(n) => Json::Number(n.clone()),
            Json::Str(t) => Json::Str(t.clone()),
            Json::Array(v) => {
                let mut w: Vec<Json> = Vec::new();
                let mut i: usize = 0;
                while i < v.len()
                    invariant
                        i <= v@.len(),
                        *self is Array,
                        (*self)->Array_0 == *v,
                        w@.len() == i,
                        forall|k: int| 0 <= k < i ==> #[trigger] w@[k]@ == v@[k]@,
                    decreases v@.len() - i,
                {
                    proof {
                        let ghost vv = (*self)->Array_0;
                        assert(decreases_to!(*self => vv));
                        assert(decreases_to!(vv => vv@));
                        assert(decreases_to!(vv@ => vv@[i as int]));
                    }
                    let x = v[i].duplicate();
                    w.push(x);
                    i = i + 1;
                }
                let r = Json::Array(w);
                proof {
                    lemma_array_view(w);
                    lemma_array_view(*v);
                    assert(element_views(w@) =~= element_views(v@));
                }
                r
            },
            Json::Object(m) => {
                let mut w: Vec<(String, Json)> = Vec::new();
                let mut i: usize = 0;
                while i < m.len()
                    invariant
                        i <= m@.len(),
                        *self is Object,
                        (*self)->Object_0 == *m,
                        w@.len() == i,
                        forall|k: int| 0 <= k < i ==> #[trigger] w@[k].0@ == m@[k].0@ && w@[k].1@ == m@[k].1@,
                    decreases m@.len() - i,
                {
                    proof {
                        let ghost mm = (*self)->Object_0;
                        assert(decreases_to!(*self => mm));
                        assert(decreases_to!(mm => mm@));
                        assert(decreases_to!(mm@ => mm@[i as int]));
                        assert(decreases_to!(mm@[i as int] => mm@[i as int].1));
                    }
                    let x = m[i].1.duplicate();
                    w.push((m[i].0.clone(), x));
                    i = i + 1;
                }
                let r = Json::Object(w);
                proof {
                    lemma_object_view(w);
                    lemma_object_view(*m);
                    assert(member_views(w@) =~= member_views(m@));
                }
                r
            },
        }
    }

    /// The member `key` of this value, if it is an object that has one
    /// (see [`field`]).
    pub fn get(&self, key: &str) -> (r: Option<&Json>)
        ensures
            match field(self@, key@) {
                Some(x) => r matches Some(y) && y@ == x,
                None => r is None,
            },
    {
        match self {
            Json::Object(m) => {
                proof {
                    lemma_object_view(*m);
                }
                let k = key.to_owned();
                let ghost mv = member_views(m@);
                let mut i: usize = 0;
                while i < m.len()
                    invariant
                        i <= m@.len(),
                        mv == member_views(m@),
                        self@ == JsonView::Object(mv),
                        k@ == key@,
                        member_from(mv, key@, 0) == member_from(mv, key@, i as int),
                    decreases m@.len() - i,
                {
                    if m[i].0 == k {
                        return Some(&m[i].1);
                    }
                    i = i + 1;
                }
                None
            },
            _ => None,
        }
    }

    /// The text of this value, if it is a string (see [`text_of`]).
    pub fn as_str(&self) -> (r: Option<&String>)
        ensures
            match text_of(Some(self@)) {
                Some(t) => r matches Some(s) && s@ == t,
                None => r is None,
            },
    {
        match self {
            Json::Str(t) => Some(t),
            _ => None,
        }
    }
}


#[verifier::external_type_specification]
#[verifier::external_body]
pub struct ExValue(serde_json::Value);

/// The text `serde_json::to_string` writes for the value `j` (compact; an
/// object's members as serde_json's map holds them).
pub uninterp spec fn json_text_of(j: JsonView) -> Seq<char>;

/// serde_json's value of `j`: a number from its text (a text serde_json
/// cannot read as a number stays a string), an object's members inserted
/// in order.
#[verifier::external_body]
fn json_value(j: &Json) -> serde_json::Value {
    match j {
        Json::Null => serde_json::Value::Null,
        Json::Bool(b) => serde_json::Value::Bool(*b),
        Json::Number(t) => match t.parse::<serde_json::Number>() {
            Ok(n) => serde_json::Value::Number(n),
            Err(_) => serde_json::Value::String(t.clone()),
        },
        Json::Str(t) => serde_json::Value::String(t.clone()),
        Json::Array(v) => serde_json::Value::Array(v.iter().map(json_value).collect()),
        Json::Object(m) => serde_json::Value::Object(m.iter().map(|(k, v)| (k.clone(), json_value(v))).collect()),
    }
}

/// The compact JSON text of `j`, as `serde_json::to_string` writes it for
/// serde_json's form of the value (named [`json_text_of`]); that text is
/// not stated here.
#[verifier::external_body]
pub(crate) fn json_text(j: &Json) -> (r: String)
    ensures
        r@ == json_text_of(j@),
{
    serde_json::to_string(&json_value(j)).unwrap_or_default()
}

} // verus!
