//! JSON values as data.
use vstd::prelude::*;

use crate::text::{opt_text, same_text};

verus! {

/// A JSON value. An object keeps its members in the order in which they were
/// added.
#[derive(Debug)]
pub enum JsonValue {
    Null,
    Bool(bool),
    Number(u128),
    Text(String),
    List(Vec<JsonValue>),
    Object(Vec<Member>),
}

/// A member of an object.
#[derive(Debug)]
pub struct Member {
    pub name: String,
    pub value: JsonValue,
}

/// What a JSON value says.
pub enum JsonView {
    Null,
    Bool(bool),
    Number(nat),
    Text(Seq<char>),
    List(Seq<JsonView>),
    Object(Seq<(Seq<char>, JsonView)>),
}

impl JsonValue {
    pub open spec fn model(self) -> JsonView
        decreases self,
    {
        match self {
            JsonValue::Null => JsonView::Null,
            JsonValue::Bool(b) => JsonView::Bool(b),
            JsonValue::Number(n) => JsonView::Number(n as nat),
            JsonValue::Text(s) => JsonView::Text(s@),
            JsonValue::List(v) => JsonView::List(
                Seq::new(
                    v@.len(),
                    |i: int|
                        if 0 <= i < v@.len() {
                            v@[i].model()
                        } else {
                            arbitrary()
                        },
                ),
            ),
            JsonValue::Object(v) => JsonView::Object(
                Seq::new(
                    v@.len(),
                    |i: int|
                        if 0 <= i < v@.len() {
                            (v@[i].name@, v@[i].value.model())
                        } else {
                            arbitrary()
                        },
                ),
            ),
        }
    }
}

impl View for JsonValue {
    type V = JsonView;

    open spec fn view(&self) -> JsonView {
        self.model()
    }
}

/// What the values of a list say.
pub open spec fn values_view(v: Seq<JsonValue>) -> Seq<JsonView> {
    v.map_values(|x: JsonValue| x@)
}

/// What the members of an object say.
pub open spec fn members_view(v: Seq<Member>) -> Seq<(Seq<char>, JsonView)> {
    v.map_values(|m: Member| (m.name@, m.value@))
}

/// The text as a value.
pub fn text(s: &str) -> (r: JsonValue)
    ensures
        r@ == JsonView::Text(s@),
{
    JsonValue::Text(s.to_owned())
}

/// The number as a value.
pub fn number(n: usize) -> (r: JsonValue)
    ensures
        r@ == JsonView::Number(n as nat),
{
    JsonValue::Number(n as u128)
}

/// The list as a value.
pub fn list(v: Vec<JsonValue>) -> (r: JsonValue)
    ensures
        r@ == JsonView::List(values_view(v@)),
{
    let r = JsonValue::List(v);
    assert(r@->List_0 =~= values_view(v@));
    r
}

/// The object as a value.
pub fn object(v: Vec<Member>) -> (r: JsonValue)
    ensures
        r@ == JsonView::Object(members_view(v@)),
{
    let r = JsonValue::Object(v);
    assert(r@->Object_0 =~= members_view(v@));
    r
}

/// Adds a member to an object.
pub fn with(v: &mut Vec<Member>, name: &str, value: JsonValue)
    ensures
        members_view(final(v)@) == members_view(old(v)@).push((name@, value@)),
{
    let m = Member { name: name.to_owned(), value };
    let ghost before = v@;
    v.push(m);
    assert(members_view(v@) =~= members_view(before).push((name@, value@)));
}

/// An object without members.
pub fn members() -> (r: Vec<Member>)
    ensures
        members_view(r@) == Seq::<(Seq<char>, JsonView)>::empty(),
{
    let r: Vec<Member> = Vec::new();
    assert(members_view(r@) =~= Seq::<(Seq<char>, JsonView)>::empty());
    r
}

// ---------------------------------------------------------------------------
// Reading
// ---------------------------------------------------------------------------

/// The value of the first member of that name, from the `i`-th on.
pub open spec fn member_from(o: Seq<(Seq<char>, JsonView)>, name: Seq<char>, i: int) -> Option<JsonView>
    decreases o.len() - i,
{
    if i < 0 || i >= o.len() {
        None
    } else if o[i].0 == name {
        Some(o[i].1)
    } else {
        member_from(o, name, i + 1)
    }
}

/// The member of that name, where the value is an object that has one.
pub open spec fn member(v: JsonView, name: Seq<char>) -> Option<JsonView> {
    match v {
        JsonView::Object(o) => member_from(o, name, 0),
        _ => None,
    }
}

/// What an optional value says.
pub open spec fn opt_value(v: Option<&JsonValue>) -> Option<JsonView> {
    match v {
        Some(x) => Some(x@),
        None => None,
    }
}

/// The member of that name, where the value is an object that has one.
pub fn get<'a>(v: &'a JsonValue, name: &str) -> (r: Option<&'a JsonValue>)
    ensures
        opt_value(r) == member(v@, name@),
{
    match v {
        JsonValue::Object(o) => {
            let ghost w = members_view(o@);
            assert(v@->Object_0 =~= w);
            let mut i: usize = 0;
            while i < o.len()
                invariant
                    i <= o@.len(),
                    w == members_view(o@),
                    w.len() == o@.len(),
                    member(v@, name@) == member_from(w, name@, i as int),
                decreases o@.len() - i,
            {
                assert(w[i as int] == (o@[i as int].name@, o@[i as int].value@));
                if same_text(o[i].name.as_str(), name) {
                    return Some(&o[i].value);
                }
                i = i + 1;
            }
            None
        },
        _ => None,
    }
}

/// The text of the member of that name.
pub open spec fn member_text(v: JsonView, name: Seq<char>) -> Option<Seq<char>> {
    match member(v, name) {
        Some(JsonView::Text(s)) => Some(s),
        _ => None,
    }
}

/// The text of the member of that name.
pub fn text_at(v: &JsonValue, name: &str) -> (r: Option<String>)
    ensures
        opt_text(r) == member_text(v@, name@),
{
    match get(v, name) {
        Some(JsonValue::Text(s)) => Some(s.clone()),
        _ => None,
    }
}

/// The number of the member of that name, where it is not too large.
pub open spec fn member_number(v: JsonView, name: Seq<char>) -> Option<u64> {
    match member(v, name) {
        Some(JsonView::Number(n)) => if n <= u64::MAX {
            Some(n as u64)
        } else {
            None
        },
        _ => None,
    }
}

/// The number of the member of that name, where it is not too large.
pub fn number_at(v: &JsonValue, name: &str) -> (r: Option<u64>)
    ensures
        r == member_number(v@, name@),
{
    match get(v, name) {
        Some(JsonValue::Number(n)) => if *n <= u64::MAX as u128 {
            Some(*n as u64)
        } else {
            None
        },
        _ => None,
    }
}

/// Whether the member of that name is true.
pub open spec fn member_true(v: JsonView, name: Seq<char>) -> bool {
    member(v, name) == Some(JsonView::Bool(true))
}

/// Whether the member of that name is true.
pub fn true_at(v: &JsonValue, name: &str) -> (r: bool)
    ensures
        r == member_true(v@, name@),
{
    match get(v, name) {
        Some(JsonValue::Bool(b)) => *b,
        _ => false,
    }
}

/// The texts among values; where a value is no text, nothing.
pub open spec fn texts_in(v: Seq<JsonView>) -> Seq<Option<Seq<char>>> {
    v.map_values(
        |x: JsonView|
            match x {
                JsonView::Text(s) => Some(s),
                _ => None,
            },
    )
}

/// What optional texts say.
pub open spec fn opt_texts(v: Seq<Option<String>>) -> Seq<Option<Seq<char>>> {
    v.map_values(|x: Option<String>| opt_text(x))
}

/// The texts in the list that is the member of that name.
pub open spec fn member_texts(v: JsonView, name: Seq<char>) -> Option<Seq<Option<Seq<char>>>> {
    match member(v, name) {
        Some(JsonView::List(l)) => Some(texts_in(l)),
        _ => None,
    }
}

/// The texts in the list that is the member of that name.
pub fn texts_at(v: &JsonValue, name: &str) -> (r: Option<Vec<Option<String>>>)
    ensures
        match r {
            Some(t) => member_texts(v@, name@) == Some(opt_texts(t@)),
            None => member_texts(v@, name@) is None,
        },
{
    match get(v, name) {
        Some(x) => match x {
            JsonValue::List(l) => {
                let ghost w = values_view(l@);
                assert(x@->List_0 =~= w);
                let mut out: Vec<Option<String>> = Vec::new();
                let mut i: usize = 0;
                while i < l.len()
                    invariant
                        i <= l@.len(),
                        w == values_view(l@),
                        out@.len() == i,
                        forall|k: int|
                            0 <= k < i ==> opt_text(#[trigger] out@[k]) == texts_in(w)[k],
                    decreases l@.len() - i,
                {
                    assert(w[i as int] == l@[i as int]@);
                    let t = match &l[i] {
                        JsonValue::Text(s) => Some(s.clone()),
                        _ => None,
                    };
                    out.push(t);
                    i = i + 1;
                }
                assert(opt_texts(out@) =~= texts_in(w));
                Some(out)
            },
            _ => None,
        },
        None => None,
    }
}

/// A member is found where there is one of that name: the first.
pub proof fn law_members_are_found(o: Seq<(Seq<char>, JsonView)>, name: Seq<char>, i: int)
    requires
        0 <= i <= o.len(),
    ensures
        match member_from(o, name, i) {
            Some(v) => exists|k: int|
                i <= k < o.len() && (#[trigger] o[k]).0 == name && o[k].1 == v && forall|j: int|
                    i <= j < k ==> (#[trigger] o[j]).0 != name,
            None => forall|k: int| i <= k < o.len() ==> (#[trigger] o[k]).0 != name,
        },
    decreases o.len() - i,
{
    if i < o.len() && o[i].0 != name {
        law_members_are_found(o, name, i + 1);
        match member_from(o, name, i + 1) {
            Some(v) => {
                let k = choose|k: int|
                    i + 1 <= k < o.len() && (#[trigger] o[k]).0 == name && o[k].1 == v && forall|
                        j: int,
                    |
                        i + 1 <= j < k ==> (#[trigger] o[j]).0 != name;
                assert(o[k].0 == name);
            },
            None => {},
        }
    }
}

/// A member that is added is read back, and no other member of another name changes.
pub proof fn law_added_member_is_read_back(
    o: Seq<(Seq<char>, JsonView)>,
    name: Seq<char>,
    value: JsonView,
    other: Seq<char>,
)
    requires
        forall|k: int| 0 <= k < o.len() ==> (#[trigger] o[k]).0 != name,
        other != name,
    ensures
        member(JsonView::Object(o.push((name, value))), name) == Some(value),
        member(JsonView::Object(o.push((name, value))), other) == member(
            JsonView::Object(o),
            other,
        ),
{
    lemma_added(o, name, value, name, 0);
    lemma_added(o, name, value, other, 0);
    law_members_are_found(o, name, 0);
}

proof fn lemma_added(
    o: Seq<(Seq<char>, JsonView)>,
    name: Seq<char>,
    value: JsonView,
    wanted: Seq<char>,
    i: int,
)
    requires
        0 <= i <= o.len(),
    ensures
        member_from(o.push((name, value)), wanted, i) == match member_from(o, wanted, i) {
            Some(v) => Some(v),
            None => if wanted == name {
                Some(value)
            } else {
                None
            },
        },
    decreases o.len() - i,
{
    let p = o.push((name, value));
    if i < o.len() {
        assert(p[i] == o[i]);
        if o[i].0 != wanted {
            lemma_added(o, name, value, wanted, i + 1);
        }
    } else {
        assert(member_from(p, wanted, i + 1) is None);
    }
}

} // verus!
