//! JSON documents.

use serde_json::{Number, Value};
use vstd::prelude::*;
use vstd::string::*;

use crate::number;
use crate::text;
use crate::text::same;

verus! {

/// A JSON value.
#[derive(Debug)]
pub enum Json {
    /// Nothing.
    Null,
    /// True or false.
    Bool(bool),
    /// A whole number that is not negative.
    Natural(u64),
    /// A negative whole number.
    Negative(i64),
    /// A double, and how it is written.
    Float(u64, String),
    /// A text.
    Text(String),
    /// A list.
    List(Vec<Json>),
    /// An object. The names of its members are meant to be distinct; their order is that of writing.
    Object(Vec<Member>),
}

/// A member of a JSON object.
#[derive(Debug)]
pub struct Member {
    /// Its name.
    pub name: String,
    /// Its value.
    pub value: Json,
}

/// What a JSON value is.
pub enum JsonView {
    /// Nothing.
    Null,
    /// True or false.
    Bool(bool),
    /// A whole number that is not negative.
    Natural(u64),
    /// A negative whole number.
    Negative(i64),
    /// A double, and how it is written.
    Float(u64, Seq<char>),
    /// A text.
    Text(Seq<char>),
    /// A list.
    List(Seq<JsonView>),
    /// An object.
    Object(Seq<(Seq<char>, JsonView)>),
}

impl Json {
    /// What the value is.
    pub open spec fn doc(self) -> JsonView
        decreases self,
    {
        match self {
            Json::Null => JsonView::Null,
            Json::Bool(b) => JsonView::Bool(b),
            Json::Natural(n) => JsonView::Natural(n),
            Json::Negative(n) => JsonView::Negative(n),
            Json::Float(bits, s) => JsonView::Float(bits, s@),
            Json::Text(s) => JsonView::Text(s@),
            Json::List(v) => JsonView::List(
                Seq::new(
                    v@.len(),
                    |i: int|
                        if 0 <= i < v@.len() {
                            v@[i].doc()
                        } else {
                            JsonView::Null
                        },
                ),
            ),
            Json::Object(v) => JsonView::Object(
                Seq::new(
                    v@.len(),
                    |i: int|
                        if 0 <= i < v@.len() {
                            (v@[i].name@, v@[i].value.doc())
                        } else {
                            (Seq::empty(), JsonView::Null)
                        },
                ),
            ),
        }
    }
}

/// What values are.
pub open spec fn docs(s: Seq<Json>) -> Seq<JsonView> {
    s.map_values(|j: Json| j.doc())
}

/// What members are.
pub open spec fn members(s: Seq<Member>) -> Seq<(Seq<char>, JsonView)> {
    s.map_values(|m: Member| (m.name@, m.value.doc()))
}

/// What a list is.
pub broadcast proof fn lemma_list(v: Vec<Json>)
    ensures
        #[trigger] Json::List(v).doc() == JsonView::List(docs(v@)),
{
    assert(Json::List(v).doc()->List_0 =~= docs(v@));
}

/// What an object is.
pub broadcast proof fn lemma_object(v: Vec<Member>)
    ensures
        #[trigger] Json::Object(v).doc() == JsonView::Object(members(v@)),
{
    assert(Json::Object(v).doc()->Object_0 =~= members(v@));
}

/// One value more.
pub broadcast proof fn lemma_docs_push(s: Seq<Json>, j: Json)
    ensures
        #[trigger] docs(s.push(j)) == docs(s).push(j.doc()),
{
    assert(docs(s.push(j)) =~= docs(s).push(j.doc()));
}

/// One member more.
pub broadcast proof fn lemma_members_push(s: Seq<Member>, m: Member)
    ensures
        #[trigger] members(s.push(m)) == members(s).push((m.name@, m.value.doc())),
{
    assert(members(s.push(m)) =~= members(s).push((m.name@, m.value.doc())));
}

/// What is known of documents.
pub broadcast group group_json {
    lemma_list,
    lemma_object,
    lemma_docs_push,
    lemma_members_push,
}

/// Whether two values are equal: lists item by item, and objects whatever the order of their members.
/// A number equals one of its own kind, and a double not a number equals none.
pub open spec fn json_eq(a: JsonView, b: JsonView) -> bool
    decreases a,
{
    match (a, b) {
        (JsonView::Null, JsonView::Null) => true,
        (JsonView::Bool(x), JsonView::Bool(y)) => x == y,
        (JsonView::Natural(x), JsonView::Natural(y)) => x == y,
        (JsonView::Negative(x), JsonView::Negative(y)) => x == y,
        (JsonView::Float(x, _), JsonView::Float(y, _)) => number::equal(x, y),
        (JsonView::Text(x), JsonView::Text(y)) => x == y,
        (JsonView::List(x), JsonView::List(y)) => x.len() == y.len() && forall|i: int|
            0 <= i < x.len() ==> json_eq(#[trigger] x[i], y[i]),
        (JsonView::Object(x), JsonView::Object(y)) => x.len() == y.len() && forall|i: int|
            0 <= i < x.len() ==> has_member(#[trigger] x[i], y),
        _ => false,
    }
}

/// Whether an object has a member of the same name as another, with an equal value.
pub open spec fn has_member(m: (Seq<char>, JsonView), y: Seq<(Seq<char>, JsonView)>) -> bool
    decreases m,
{
    exists|j: int| 0 <= j < y.len() && (#[trigger] y[j]).0 == m.0 && json_eq(m.1, y[j].1)
}

/// Whether an object has a member of the same name as another, with an equal value.
fn holds_member(m: &Member, y: &Vec<Member>) -> (r: bool)
    ensures
        r == has_member((m.name@, m.value.doc()), members(y@)),
    decreases m,
{
    let ghost (p, q) = ((m.name@, m.value.doc()), members(y@));
    let mut j: usize = 0;
    while j < y.len()
        invariant
            j <= y@.len(),
            p == (m.name@, m.value.doc()),
            q == members(y@),
            forall|k: int| 0 <= k < j ==> !((#[trigger] q[k]).0 == p.0 && json_eq(p.1, q[k].1)),
        decreases y@.len() - j,
    {
        assert(q[j as int] == (y@[j as int].name@, y@[j as int].value.doc()));
        if same(y[j].name.as_str(), m.name.as_str()) {
            if same_json(&m.value, &y[j].value) {
                return true;
            }
        }
        j = j + 1;
    }
    false
}

/// Whether two values are equal.
pub fn same_json(a: &Json, b: &Json) -> (r: bool)
    ensures
        r == json_eq(a.doc(), b.doc()),
    decreases a,
{
    broadcast use group_json;

    match (a, b) {
        (Json::Null, Json::Null) => true,
        (Json::Bool(x), Json::Bool(y)) => *x == *y,
        (Json::Natural(x), Json::Natural(y)) => *x == *y,
        (Json::Negative(x), Json::Negative(y)) => *x == *y,
        (Json::Float(x, _), Json::Float(y, _)) => number::eq(*x, *y),
        (Json::Text(x), Json::Text(y)) => same(x.as_str(), y.as_str()),
        (Json::List(x), Json::List(y)) => {
            let ghost (p, q) = (docs(x@), docs(y@));
            if x.len() != y.len() {
                return false;
            }
            let mut i: usize = 0;
            while i < x.len()
                invariant
                    i <= x@.len(),
                    x@.len() == y@.len(),
                    a == Json::List(*x),
                    p == docs(x@),
                    q == docs(y@),
                    a.doc() == JsonView::List(p),
                    b.doc() == JsonView::List(q),
                    forall|k: int| 0 <= k < i ==> json_eq(#[trigger] p[k], q[k]),
                decreases x@.len() - i,
            {
                assert(p[i as int] == x@[i as int].doc());
                assert(q[i as int] == y@[i as int].doc());
                if !same_json(&x[i], &y[i]) {
                    return false;
                }
                i = i + 1;
            }
            true
        },
        (Json::Object(x), Json::Object(y)) => {
            let ghost (p, q) = (members(x@), members(y@));
            if x.len() != y.len() {
                return false;
            }
            let mut i: usize = 0;
            while i < x.len()
                invariant
                    i <= x@.len(),
                    x@.len() == y@.len(),
                    a == Json::Object(*x),
                    p == members(x@),
                    q == members(y@),
                    a.doc() == JsonView::Object(p),
                    b.doc() == JsonView::Object(q),
                    forall|k: int| 0 <= k < i ==> has_member(#[trigger] p[k], q),
                decreases x@.len() - i,
            {
                assert(p[i as int] == (x@[i as int].name@, x@[i as int].value.doc()));
                if !holds_member(&x[i], y) {
                    return false;
                }
                i = i + 1;
            }
            true
        },
        _ => false,
    }
}

/// A copy of a value.
pub fn copy_json(a: &Json) -> (r: Json)
    ensures
        r.doc() == a.doc(),
    decreases a,
{
    broadcast use group_json;

    match a {
        Json::Null => Json::Null,
        Json::Bool(x) => Json::Bool(*x),
        Json::Natural(x) => Json::Natural(*x),
        Json::Negative(x) => Json::Negative(*x),
        Json::Float(x, s) => Json::Float(*x, s.clone()),
        Json::Text(s) => Json::Text(s.clone()),
        Json::List(x) => {
            let ghost p = docs(x@);
            let mut out: Vec<Json> = Vec::new();
            let mut i: usize = 0;
            assert(docs(out@) =~= p.take(0));
            while i < x.len()
                invariant
                    i <= x@.len(),
                    a == Json::List(*x),
                    p == docs(x@),
                    a.doc() == JsonView::List(p),
                    docs(out@) == p.take(i as int),
                decreases x@.len() - i,
            {
                assert(p[i as int] == x@[i as int].doc());
                out.push(copy_json(&x[i]));
                assert(p.take(i + 1) =~= p.take(i as int).push(p[i as int]));
                i = i + 1;
            }
            assert(p.take(i as int) =~= p);
            Json::List(out)
        },
        Json::Object(x) => {
            let ghost p = members(x@);
            let mut out: Vec<Member> = Vec::new();
            let mut i: usize = 0;
            assert(members(out@) =~= p.take(0));
            while i < x.len()
                invariant
                    i <= x@.len(),
                    a == Json::Object(*x),
                    p == members(x@),
                    a.doc() == JsonView::Object(p),
                    members(out@) == p.take(i as int),
                decreases x@.len() - i,
            {
                assert(p[i as int] == (x@[i as int].name@, x@[i as int].value.doc()));
                out.push(Member { name: x[i].name.clone(), value: copy_json(&x[i].value) });
                assert(p.take(i + 1) =~= p.take(i as int).push(p[i as int]));
                i = i + 1;
            }
            assert(p.take(i as int) =~= p);
            Json::Object(out)
        },
    }
}

// ---- reading ---------------------------------------------------------------------------------

/// The first member of a name.
pub open spec fn member_of(s: Seq<(Seq<char>, JsonView)>, name: Seq<char>) -> Option<JsonView>
    decreases s.len(),
{
    if s.len() == 0 {
        None
    } else if s[0].0 == name {
        Some(s[0].1)
    } else {
        member_of(s.skip(1), name)
    }
}

impl JsonView {
    /// The member of a name, where the value is an object that has it.
    pub open spec fn at(self, name: Seq<char>) -> Option<JsonView> {
        match self {
            JsonView::Object(s) => member_of(s, name),
            _ => None,
        }
    }

    /// The value as a text.
    pub open spec fn as_text(self) -> Option<Seq<char>> {
        match self {
            JsonView::Text(s) => Some(s),
            _ => None,
        }
    }

    /// The value as a list.
    pub open spec fn as_list(self) -> Option<Seq<JsonView>> {
        match self {
            JsonView::List(s) => Some(s),
            _ => None,
        }
    }

    /// The value as a signed number.
    pub open spec fn as_number(self) -> Option<int> {
        match self {
            JsonView::Natural(n) => if n <= i64::MAX { Some(n as int) } else { None },
            JsonView::Negative(n) => Some(n as int),
            _ => None,
        }
    }
}

/// The member of a name of what there is.
pub open spec fn at(j: Option<JsonView>, name: Seq<char>) -> Option<JsonView> {
    match j {
        Some(x) => x.at(name),
        None => None,
    }
}

/// The text of what there is.
pub open spec fn text_at(j: Option<JsonView>) -> Option<Seq<char>> {
    match j {
        Some(x) => x.as_text(),
        None => None,
    }
}

/// What an optional value is.
pub open spec fn seen(j: Option<&Json>) -> Option<JsonView> {
    match j {
        Some(x) => Some(x.doc()),
        None => None,
    }
}

impl Json {
    /// The member of a name, where the value is an object that has it.
    pub fn get(&self, name: &str) -> (r: Option<&Json>)
        ensures
            seen(r) == self.doc().at(name@),
    {
        broadcast use group_json;

        match self {
            Json::Object(v) => {
                let ghost m = members(v@);
                let mut i: usize = 0;
                assert(m.skip(0) =~= m);
                while i < v.len()
                    invariant
                        i <= v@.len(),
                        m == members(v@),
                        self.doc() == JsonView::Object(m),
                        member_of(m, name@) == member_of(m.skip(i as int), name@),
                    decreases v@.len() - i,
                {
                    assert(m[i as int] == (v@[i as int].name@, v@[i as int].value.doc()));
                    assert(m.skip(i as int)[0] == m[i as int]);
                    if same(v[i].name.as_str(), name) {
                        return Some(&v[i].value);
                    }
                    assert(m.skip(i as int).skip(1) =~= m.skip(i + 1));
                    i = i + 1;
                }
                None
            },
            _ => None,
        }
    }

    /// The value as a text.
    pub fn as_text(&self) -> (r: Option<&str>)
        ensures
            match r {
                Some(s) => self.doc().as_text() == Some(s@),
                None => self.doc().as_text() is None,
            },
    {
        match self {
            Json::Text(s) => Some(s.as_str()),
            _ => None,
        }
    }

    /// The value as a list.
    pub fn as_list(&self) -> (r: Option<&Vec<Json>>)
        ensures
            match r {
                Some(v) => self.doc().as_list() == Some(docs(v@)),
                None => self.doc().as_list() is None,
            },
    {
        broadcast use group_json;

        match self {
            Json::List(v) => Some(v),
            _ => None,
        }
    }

    /// The value as a signed number.
    pub fn as_number(&self) -> (r: Option<i64>)
        ensures
            match r {
                Some(n) => self.doc().as_number() == Some(n as int),
                None => self.doc().as_number() is None,
            },
    {
        match self {
            Json::Natural(n) => if *n <= 0x7fff_ffff_ffff_ffff {
                Some(*n as i64)
            } else {
                None
            },
            Json::Negative(n) => Some(*n),
            _ => None,
        }
    }
}

/// The member of a name of what there is.
pub fn get_in<'a>(j: Option<&'a Json>, name: &str) -> (r: Option<&'a Json>)
    ensures
        seen(r) == at(seen(j), name@),
{
    match j {
        Some(x) => x.get(name),
        None => None,
    }
}

/// The text of what there is.
pub fn text_in(j: Option<&Json>) -> (r: Option<String>)
    ensures
        match r {
            Some(s) => text_at(seen(j)) == Some(s@),
            None => text_at(seen(j)) is None,
        },
{
    match j {
        Some(x) => match x.as_text() {
            Some(s) => Some(String::from_str(s)),
            None => None,
        },
        None => None,
    }
}

// ---- writing ---------------------------------------------------------------------------------

/// A text, or nothing.
pub open spec fn opt_text_view(s: Option<Seq<char>>) -> JsonView {
    match s {
        Some(s) => JsonView::Text(s),
        None => JsonView::Null,
    }
}

/// What an optional string is.
pub open spec fn opt_view(s: Option<String>) -> Option<Seq<char>> {
    match s {
        Some(s) => Some(s@),
        None => None,
    }
}

/// Texts as values.
pub open spec fn text_views(s: Seq<Seq<char>>) -> Seq<JsonView> {
    s.map_values(|t: Seq<char>| JsonView::Text(t))
}

/// A member.
pub fn member(name: &str, value: Json) -> (r: Member)
    ensures
        r.name@ == name@,
        r.value == value,
{
    Member { name: String::from_str(name), value }
}

/// A text.
pub fn text_json(s: &str) -> (r: Json)
    ensures
        r.doc() == JsonView::Text(s@),
{
    Json::Text(String::from_str(s))
}

/// A text, or nothing.
pub fn opt_json(s: &Option<String>) -> (r: Json)
    ensures
        r.doc() == opt_text_view(opt_view(*s)),
{
    match s {
        Some(s) => Json::Text(s.clone()),
        None => Json::Null,
    }
}

/// A list of texts.
pub fn texts_json(list: &Vec<String>) -> (r: Json)
    ensures
        r.doc() == JsonView::List(text_views(text::texts(list@))),
{
    broadcast use group_json;

    let ghost t = text_views(text::texts(list@));
    let mut out: Vec<Json> = Vec::new();
    let mut i: usize = 0;
    assert(docs(out@) =~= t.take(0));
    while i < list.len()
        invariant
            i <= list@.len(),
            t == text_views(text::texts(list@)),
            docs(out@) == t.take(i as int),
        decreases list@.len() - i,
    {
        out.push(Json::Text(list[i].clone()));
        proof {
            assert(text::texts(list@)[i as int] == list@[i as int]@);
            assert(t.take(i + 1) =~= t.take(i as int).push(t[i as int]));
        }
        i = i + 1;
    }
    assert(t.take(i as int) =~= t);
    Json::List(out)
}

// ---- laws ------------------------------------------------------------------------------------

/// Whether no double in a value is not a number.
pub open spec fn is_plain(j: JsonView) -> bool
    decreases j,
{
    match j {
        JsonView::Float(bits, _) => !number::is_nan(bits),
        JsonView::List(s) => forall|i: int| 0 <= i < s.len() ==> is_plain(#[trigger] s[i]),
        JsonView::Object(s) => forall|i: int| 0 <= i < s.len() ==> is_plain((#[trigger] s[i]).1),
        _ => true,
    }
}

/// The names of members.
pub open spec fn names(s: Seq<(Seq<char>, JsonView)>) -> Seq<Seq<char>> {
    s.map_values(|m: (Seq<char>, JsonView)| m.0)
}

/// Whether the members of each object in a value have distinct names.
pub open spec fn is_named_apart(j: JsonView) -> bool
    decreases j,
{
    match j {
        JsonView::List(s) => forall|i: int| 0 <= i < s.len() ==> is_named_apart(#[trigger] s[i]),
        JsonView::Object(s) => names(s).no_duplicates() && forall|i: int|
            0 <= i < s.len() ==> is_named_apart((#[trigger] s[i]).1),
        _ => true,
    }
}

/// A value equals itself, unless a double in it is not a number.
pub proof fn law_equality_is_reflexive(j: JsonView)
    requires
        is_plain(j),
    ensures
        json_eq(j, j),
    decreases j,
{
    match j {
        JsonView::List(s) => {
            assert forall|i: int| 0 <= i < s.len() implies json_eq(#[trigger] s[i], s[i]) by {
                law_equality_is_reflexive(s[i]);
            }
        },
        JsonView::Object(s) => {
            assert forall|i: int| 0 <= i < s.len() implies has_member(#[trigger] s[i], s) by {
                law_equality_is_reflexive(s[i].1);
            }
        },
        _ => {},
    }
}

/// What equals a value is equalled by it.
pub proof fn law_equality_is_symmetric(a: JsonView, b: JsonView)
    requires
        is_named_apart(a),
        is_named_apart(b),
        json_eq(a, b),
    ensures
        json_eq(b, a),
    decreases a,
{
    match (a, b) {
        (JsonView::List(x), JsonView::List(y)) => {
            assert forall|i: int| 0 <= i < y.len() implies json_eq(#[trigger] y[i], x[i]) by {
                law_equality_is_symmetric(x[i], y[i]);
            }
        },
        (JsonView::Object(x), JsonView::Object(y)) => {
            lemma_same_names(x, y);
            assert forall|j: int| 0 <= j < y.len() implies has_member(#[trigger] y[j], x) by {
                assert(names(y)[j] == y[j].0);
                assert(names(x).contains(y[j].0));
                let i = choose|i: int| 0 <= i < x.len() && names(x)[i] == y[j].0;
                assert(has_member(x[i], y));
                let k = choose|k: int| 0 <= k < y.len() && (#[trigger] y[k]).0 == x[i].0 && json_eq(x[i].1, y[k].1);
                assert(names(y)[k] == names(y)[j]);
                law_equality_is_symmetric(x[i].1, y[j].1);
            }
        },
        _ => {},
    }
}

/// Equal objects have the same names.
proof fn lemma_same_names(x: Seq<(Seq<char>, JsonView)>, y: Seq<(Seq<char>, JsonView)>)
    requires
        names(x).no_duplicates(),
        names(y).no_duplicates(),
        json_eq(JsonView::Object(x), JsonView::Object(y)),
    ensures
        forall|n: Seq<char>| names(x).contains(n) <==> names(y).contains(n),
{
    broadcast use vstd::seq_lib::seq_to_set_is_finite;

    let (p, q) = (names(x).to_set(), names(y).to_set());
    assert forall|n: Seq<char>| p.contains(n) implies q.contains(n) by {
        let i = choose|i: int| 0 <= i < x.len() && names(x)[i] == n;
        assert(has_member(x[i], y));
        let j = choose|j: int| 0 <= j < y.len() && (#[trigger] y[j]).0 == x[i].0 && json_eq(x[i].1, y[j].1);
        assert(names(y)[j] == n);
    }
    names(x).unique_seq_to_set();
    names(y).unique_seq_to_set();
    vstd::set_lib::lemma_subset_equality(p, q);
    assert forall|n: Seq<char>| names(x).contains(n) <==> names(y).contains(n) by {
        assert(p.contains(n) == names(x).contains(n));
        assert(q.contains(n) == names(y).contains(n));
    }
}

/// What equals an equal of a value equals the value.
pub proof fn law_equality_is_transitive(a: JsonView, b: JsonView, c: JsonView)
    requires
        json_eq(a, b),
        json_eq(b, c),
    ensures
        json_eq(a, c),
    decreases a,
{
    match (a, b, c) {
        (JsonView::List(x), JsonView::List(y), JsonView::List(z)) => {
            assert forall|i: int| 0 <= i < x.len() implies json_eq(#[trigger] x[i], z[i]) by {
                assert(json_eq(y[i], z[i]));
                law_equality_is_transitive(x[i], y[i], z[i]);
            }
        },
        (JsonView::Object(x), JsonView::Object(y), JsonView::Object(z)) => {
            assert forall|i: int| 0 <= i < x.len() implies has_member(#[trigger] x[i], z) by {
                assert(has_member(x[i], y));
                let j = choose|j: int| 0 <= j < y.len() && (#[trigger] y[j]).0 == x[i].0 && json_eq(x[i].1, y[j].1);
                assert(has_member(y[j], z));
                let k = choose|k: int| 0 <= k < z.len() && (#[trigger] z[k]).0 == y[j].0 && json_eq(y[j].1, z[k].1);
                law_equality_is_transitive(x[i].1, y[j].1, z[k].1);
            }
        },
        _ => {},
    }
}

/// The order of an object's members does not matter: the same members in another order are an equal
/// object.
pub proof fn law_member_order_does_not_matter(x: Seq<(Seq<char>, JsonView)>, y: Seq<(Seq<char>, JsonView)>)
    requires
        is_plain(JsonView::Object(x)),
        x.to_multiset() == y.to_multiset(),
    ensures
        json_eq(JsonView::Object(x), JsonView::Object(y)),
{
    broadcast use vstd::seq_lib::group_to_multiset_ensures;

    let a = JsonView::Object(x);
    assert(a->Object_0 == x);
    assert(x.len() == x.to_multiset().len());
    assert(y.len() == y.to_multiset().len());
    assert forall|i: int| 0 <= i < x.len() implies has_member(#[trigger] x[i], y) by {
        assert(x.contains(x[i]));
        assert(y.to_multiset().count(x[i]) > 0);
        assert(y.contains(x[i]));
        let j = choose|j: int| 0 <= j < y.len() && y[j] == x[i];
        law_equality_is_reflexive(x[i].1);
        assert(y[j].0 == x[i].0);
    }
}

/// Whether optional values are equal, or both are missing.
pub open spec fn opt_eq(a: Option<JsonView>, b: Option<JsonView>) -> bool {
    match (a, b) {
        (Some(x), Some(y)) => json_eq(x, y),
        (None, None) => true,
        _ => false,
    }
}

/// Whether the names in what there is are distinct.
pub open spec fn opt_named_apart(a: Option<JsonView>) -> bool {
    a matches Some(x) ==> is_named_apart(x)
}

/// The member of a name is one that has it; where there is none, no member has it.
proof fn lemma_member_of(s: Seq<(Seq<char>, JsonView)>, name: Seq<char>)
    ensures
        match member_of(s, name) {
            Some(v) => exists|i: int| 0 <= i < s.len() && (#[trigger] s[i]) == (name, v),
            None => !names(s).contains(name),
        },
    decreases s.len(),
{
    if s.len() > 0 {
        let rest = s.skip(1);
        lemma_member_of(rest, name);
        if s[0].0 == name {
            assert(s[0] == (name, s[0].1));
        } else {
            match member_of(rest, name) {
                Some(v) => {
                    let i = choose|i: int| 0 <= i < rest.len() && (#[trigger] rest[i]) == (name, v);
                    assert(s[i + 1] == (name, v));
                },
                None => {
                    if names(s).contains(name) {
                        let i = choose|i: int| 0 <= i < s.len() && names(s)[i] == name;
                        assert(names(rest)[i - 1] == name);
                    }
                },
            }
        }
    }
}

/// Equal values have equal members of each name.
pub proof fn law_equal_values_have_equal_members(a: JsonView, b: JsonView, name: Seq<char>)
    requires
        is_named_apart(a),
        is_named_apart(b),
        json_eq(a, b),
    ensures
        opt_eq(a.at(name), b.at(name)),
        opt_named_apart(a.at(name)),
        opt_named_apart(b.at(name)),
{
    match (a, b) {
        (JsonView::Object(x), JsonView::Object(y)) => {
            lemma_member_of(x, name);
            lemma_member_of(y, name);
            lemma_same_names(x, y);
            if let Some(v) = member_of(x, name) {
                let i = choose|i: int| 0 <= i < x.len() && (#[trigger] x[i]) == (name, v);
                assert(names(x)[i] == name);
                assert(has_member(x[i], y));
                let j = choose|j: int| 0 <= j < y.len() && (#[trigger] y[j]).0 == x[i].0 && json_eq(x[i].1, y[j].1);
                assert(names(y)[j] == name);
                let w = member_of(y, name)->0;
                let k = choose|k: int| 0 <= k < y.len() && (#[trigger] y[k]) == (name, w);
                assert(names(y)[k] == name);
            } else if let Some(w) = member_of(y, name) {
                let k = choose|k: int| 0 <= k < y.len() && (#[trigger] y[k]) == (name, w);
                assert(names(y)[k] == name);
            }
        },
        _ => {},
    }
}

// ---- text ------------------------------------------------------------------------------------

/// `serde_json::Value`.
#[verifier::external_type_specification]
#[verifier::external_body]
pub struct ExValue(serde_json::Value);

/// The text of a JSON value, over several lines.
pub uninterp spec fn pretty(doc: JsonView) -> Seq<char>;

/// A value as `serde_json::Value` holds it; `str::parse` reads the text of a double.
#[verifier::external_body]
fn to_value(doc: &Json) -> (r: Value) {
    match doc {
        Json::Null => Value::Null,
        Json::Bool(b) => Value::from(*b),
        Json::Natural(n) => Value::from(*n),
        Json::Negative(n) => Value::from(*n),
        Json::Float(_, s) => s.parse().ok().and_then(Number::from_f64).map_or(Value::Null, Value::Number),
        Json::Text(s) => Value::from(s.as_str()),
        Json::List(v) => Value::Array(v.iter().map(to_value).collect()),
        Json::Object(v) => Value::Object(v.iter().map(|m| (m.name.clone(), to_value(&m.value))).collect()),
    }
}

/// `serde_json::to_string_pretty`: the text of a JSON value, which depends on the value alone. A value
/// of texts, numbers, lists and objects always has one.
#[verifier::external_body]
pub(crate) fn pretty_text(doc: &Json) -> (r: String)
    ensures
        r@ == pretty(doc.doc()),
{
    serde_json::to_string_pretty(&to_value(doc)).unwrap()
}

/// The bytes of a JSON value, on one line.
pub uninterp spec fn compact(doc: JsonView) -> Seq<u8>;

/// `serde_json::to_vec`: the bytes of a JSON value, with the members of an object as they come, which
/// depend on the value alone. A value of texts, numbers, lists and objects always has them.
#[verifier::external_body]
pub(crate) fn compact_bytes(doc: &Json) -> (r: Vec<u8>)
    ensures
        r@ == compact(doc.doc()),
{
    serde_json::to_vec(&to_value(doc)).unwrap()
}

} // verus!
