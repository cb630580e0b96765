//! JSON values, their mathematical model, and rows.

use vstd::prelude::*;
use vstd::std_specs::cmp::PartialEqSpecImpl;
use crate::bridge::{
    count, lift, lower, number_eq, parsed, print_document, printed, read_document, same_number,
    same_text,
};
use crate::error::Error;

verus! {

/// The mathematical value of a JSON document. An object is the sequence of its members in the
/// order in which they were inserted.
pub enum Json {
    Null,
    Bool(bool),
    Number(serde_json::Number),
    String(Seq<char>),
    Array(Seq<Json>),
    Object(Seq<(Seq<char>, Json)>),
}

/// A JSON value.
#[derive(Debug)]
pub enum JsonVal {
    Null,
    Bool(bool),
    Number(serde_json::Number),
    String(String),
    Array(Vec<JsonVal>),
    Object(Row),
}

/// The members of a JSON object, and one record of a table.
#[derive(Debug)]
pub struct Row {
    pub(crate) entries: Vec<(String, JsonVal)>,
}

impl View for JsonVal {
    type V = Json;

    open spec fn view(&self) -> Json
        decreases self,
    {
        match self {
            JsonVal::Null => Json::Null,
            JsonVal::Bool(b) => Json::Bool(*b),
            JsonVal::Number(n) => Json::Number(*n),
            JsonVal::String(s) => Json::String(s@),
            JsonVal::Array(a) => Json::Array(
                Seq::new(
                    a@.len(),
                    |i: int|
                        if 0 <= i < a@.len() {
                            a@[i].view()
                        } else {
                            Json::Null
                        },
                ),
            ),
            JsonVal::Object(r) => Json::Object(r.view()),
        }
    }
}

impl View for Row {
    type V = Fields;

    closed spec fn view(&self) -> Fields
        decreases self,
    {
        Seq::new(
            self.entries@.len(),
            |i: int|
                if 0 <= i < self.entries@.len() {
                    (self.entries@[i].0@, self.entries@[i].1.view())
                } else {
                    (Seq::empty(), Json::Null)
                },
        )
    }
}

/// The members of an object: names with their values, in order.
pub type Fields = Seq<(Seq<char>, Json)>;

/// The members that a vector of names and values holds.
pub(crate) open spec fn members(s: Seq<(String, JsonVal)>) -> Fields {
    Seq::new(s.len(), |i: int| (s[i].0@, s[i].1@))
}

/// The members of a row are the members that its vector holds.
pub(crate) proof fn lemma_row_view(r: Row)
    ensures
        r@ == members(r.entries@),
{
    assert(r@ =~= members(r.entries@));
}

/// The views of a sequence of rows, one for one.
pub open spec fn row_views(s: Seq<Row>) -> Seq<Fields> {
    Seq::new(s.len(), |i: int| s[i]@)
}

/// The views of a sequence of values, one for one.
pub open spec fn views(s: Seq<JsonVal>) -> Seq<Json> {
    Seq::new(s.len(), |i: int| s[i]@)
}

/// The view of an array is the views of its elements.
pub proof fn lemma_array_view(a: Vec<JsonVal>)
    ensures
        JsonVal::Array(a)@ == Json::Array(views(a@)),
{
    assert(JsonVal::Array(a)@->Array_0 =~= views(a@));
}

/// Whether index `i` holds the first member of `r` named `key`.
pub open spec fn is_first(r: Fields, key: Seq<char>, i: int) -> bool {
    &&& 0 <= i < r.len()
    &&& r[i].0 == key
    &&& forall|j: int| 0 <= j < i ==> r[j].0 != key
}

/// Whether `r` has a member named `key`.
pub open spec fn has_key(r: Fields, key: Seq<char>) -> bool {
    exists|i: int| is_first(r, key, i)
}

/// The index of the first member of `r` named `key`.
pub open spec fn index_of(r: Fields, key: Seq<char>) -> int {
    choose|i: int| is_first(r, key, i)
}

/// The value of the first member of `r` named `key`.
pub open spec fn lookup(r: Fields, key: Seq<char>) -> Option<Json> {
    if has_key(r, key) {
        Some(r[index_of(r, key)].1)
    } else {
        None
    }
}

/// `r` with `key` bound to `val`: in the place of the first member of that name, or at the end.
pub open spec fn bind(r: Fields, key: Seq<char>, val: Json) -> Fields {
    if has_key(r, key) {
        r.update(index_of(r, key), (key, val))
    } else {
        r.push((key, val))
    }
}

/// `r` without the first member named `key`.
pub open spec fn unbind(r: Fields, key: Seq<char>) -> Fields {
    if has_key(r, key) {
        r.remove(index_of(r, key))
    } else {
        r
    }
}

/// No name occurs twice in `r`.
pub open spec fn distinct_keys(r: Fields) -> bool {
    forall|i: int, j: int| 0 <= i < j < r.len() ==> r[i].0 != r[j].0
}

/// A first member is the only first member.
pub proof fn lemma_first_unique(r: Fields, key: Seq<char>, i: int)
    requires
        is_first(r, key, i),
    ensures
        has_key(r, key),
        index_of(r, key) == i,
{
    let k = index_of(r, key);
    assert(is_first(r, key, k));
    if k < i {
        assert(r[k].0 != key);
    }
    if i < k {
        assert(r[i].0 != key);
    }
}

/// A row that holds the name somewhere has a first member of that name, not after that place.
pub proof fn lemma_some_first(r: Fields, key: Seq<char>, j: int)
    requires
        0 <= j < r.len(),
        r[j].0 == key,
    ensures
        has_key(r, key),
        index_of(r, key) <= j,
    decreases j,
{
    if forall|i: int| 0 <= i < j ==> r[i].0 != key {
        lemma_first_unique(r, key, j);
    } else {
        let i = choose|i: int| 0 <= i < j && r[i].0 == key;
        lemma_some_first(r, key, i);
    }
}

/// After a name is bound to a value, the name has that value.
pub proof fn lemma_bind_same(r: Fields, key: Seq<char>, val: Json)
    ensures
        lookup(bind(r, key, val), key) == Some(val),
{
    if has_key(r, key) {
        let i = index_of(r, key);
        assert(is_first(r, key, i));
        assert(is_first(r.update(i, (key, val)), key, i));
        lemma_first_unique(r.update(i, (key, val)), key, i);
    } else {
        assert forall|j: int| 0 <= j < r.len() implies r[j].0 != key by {
            if r[j].0 == key {
                lemma_some_first(r, key, j);
            }
        }
        assert(is_first(r.push((key, val)), key, r.len() as int));
        lemma_first_unique(r.push((key, val)), key, r.len() as int);
    }
}

/// Binding a name leaves every other name with what it had.
pub proof fn lemma_bind_other(r: Fields, key: Seq<char>, val: Json, other: Seq<char>)
    requires
        other != key,
    ensures
        lookup(bind(r, key, val), other) == lookup(r, other),
{
    let b = bind(r, key, val);
    if has_key(r, other) {
        let j = index_of(r, other);
        assert(is_first(r, other, j));
        assert(is_first(b, other, j));
        lemma_first_unique(b, other, j);
    } else if has_key(b, other) {
        let j = index_of(b, other);
        assert(is_first(b, other, j));
        assert(j < r.len() && r[j].0 == other);
        lemma_some_first(r, other, j);
    }
}

/// Binding a name in a row without repeated names leaves no name repeated.
pub proof fn lemma_bind_distinct(r: Fields, key: Seq<char>, val: Json)
    requires
        distinct_keys(r),
    ensures
        distinct_keys(bind(r, key, val)),
{
    if has_key(r, key) {
        let i = index_of(r, key);
        assert(is_first(r, key, i));
    } else {
        assert forall|j: int| 0 <= j < r.len() implies r[j].0 != key by {
            if r[j].0 == key {
                lemma_some_first(r, key, j);
            }
        }
    }
}

/// After a name is unbound in a row without repeated names, the row has no such name.
pub proof fn lemma_unbind_same(r: Fields, key: Seq<char>)
    requires
        distinct_keys(r),
    ensures
        lookup(unbind(r, key), key) is None,
        distinct_keys(unbind(r, key)),
{
    let u = unbind(r, key);
    if has_key(r, key) {
        let i = index_of(r, key);
        assert(is_first(r, key, i));
        assert forall|j: int| 0 <= j < u.len() implies u[j].0 != key by {
            if j < i {
                assert(u[j] == r[j]);
            } else {
                assert(u[j] == r[j + 1]);
            }
        }
        assert forall|a: int, b: int| 0 <= a < b < u.len() implies u[a].0 != u[b].0 by {
            let a2 = if a < i { a } else { a + 1 };
            let b2 = if b < i { b } else { b + 1 };
            assert(u[a] == r[a2] && u[b] == r[b2]);
        }
    }
    if has_key(u, key) {
        let j = index_of(u, key);
        assert(is_first(u, key, j));
    }
}

/// Unbinding a name leaves every other name with what it had.
pub proof fn lemma_unbind_other(r: Fields, key: Seq<char>, other: Seq<char>)
    requires
        other != key,
    ensures
        lookup(unbind(r, key), other) == lookup(r, other),
{
    let u = unbind(r, key);
    if has_key(r, key) {
        let i = index_of(r, key);
        assert(is_first(r, key, i));
        if has_key(r, other) {
            let j = index_of(r, other);
            assert(is_first(r, other, j));
            let j2 = if j < i { j } else { j - 1 };
            assert(u[j2] == r[j]);
            assert forall|k: int| 0 <= k < j2 implies u[k].0 != other by {
                if k < i {
                    assert(u[k] == r[k]);
                } else {
                    assert(u[k] == r[k + 1]);
                }
            }
            assert(is_first(u, other, j2));
            lemma_first_unique(u, other, j2);
        } else if has_key(u, other) {
            let j = index_of(u, other);
            assert(is_first(u, other, j));
            let j2 = if j < i { j } else { j + 1 };
            assert(u[j] == r[j2]);
            lemma_some_first(r, other, j2);
        }
    }
}

/// Whether two documents are equal as JSON: arrays element by element, objects member by
/// member whatever the order of the members.
pub open spec fn same_json(a: Json, b: Json) -> bool
    decreases a,
{
    match (a, b) {
        (Json::Null, Json::Null) => true,
        (Json::Bool(x), Json::Bool(y)) => x == y,
        (Json::Number(x), Json::Number(y)) => number_eq(x, y),
        (Json::String(x), Json::String(y)) => x == y,
        (Json::Array(x), Json::Array(y)) => x.len() == y.len() && forall|i: int|
            0 <= i < x.len() ==> same_json(#[trigger] x[i], y[i]),
        (Json::Object(m), Json::Object(n)) => same_fields(m, n),
        _ => false,
    }
}

/// Whether two objects have as many members, and every member of the first is a member of
/// the second with an equal value.
pub open spec fn same_fields(m: Fields, n: Fields) -> bool
    decreases m,
{
    m.len() == n.len() && forall|i: int|
        0 <= i < m.len() ==> match lookup(n, (#[trigger] m[i]).0) {
            Some(v) => same_json(m[i].1, v),
            None => false,
        }
}

impl PartialEq for JsonVal {
    /// Equality of JSON values.
    fn eq(&self, other: &JsonVal) -> (r: bool)
        decreases self,
    {
        match (self, other) {
            (JsonVal::Null, JsonVal::Null) => true,
            (JsonVal::Bool(x), JsonVal::Bool(y)) => *x == *y,
            (JsonVal::Number(x), JsonVal::Number(y)) => same_number(x, y),
            (JsonVal::String(x), JsonVal::String(y)) => same_text(x.as_str(), y.as_str()),
            (JsonVal::Array(x), JsonVal::Array(y)) => {
                proof {
                    lemma_array_view(*x);
                    lemma_array_view(*y);
                }
                if x.len() != y.len() {
                    return false;
                }
                let mut i: usize = 0;
                while i < x.len()
                    invariant
                        *self == JsonVal::Array(*x),
                        self@ == Json::Array(views(x@)),
                        other@ == Json::Array(views(y@)),
                        i <= x.len(),
                        x.len() == y.len(),
                        forall|k: int|
                            0 <= k < i ==> same_json(#[trigger] views(x@)[k], views(y@)[k]),
                    decreases x.len() - i,
                {
                    assert(decreases_to!(self => self->Array_0@[i as int]));
                    if !x[i].eq(&y[i]) {
                        assert(!same_json(views(x@)[i as int], views(y@)[i as int]));
                        return false;
                    }
                    i += 1;
                }
                true
            },
            (JsonVal::Object(m), JsonVal::Object(n)) => m.eq(n),
            _ => false,
        }
    }
}

impl PartialEqSpecImpl for JsonVal {
    open spec fn obeys_eq_spec() -> bool {
        true
    }

    open spec fn eq_spec(&self, other: &JsonVal) -> bool {
        same_json(self@, other@)
    }
}

impl PartialEq for Row {
    /// Equality of JSON objects: the order of the members does not count.
    fn eq(&self, other: &Row) -> (r: bool)
        decreases self,
    {
        if self.entries.len() != other.entries.len() {
            return false;
        }
        let mut i: usize = 0;
        while i < self.entries.len()
            invariant
                i <= self.entries.len(),
                self@.len() == other@.len(),
                forall|k: int|
                    0 <= k < i ==> match lookup(other@, (#[trigger] self@[k]).0) {
                        Some(v) => same_json(self@[k].1, v),
                        None => false,
                    },
            decreases self.entries.len() - i,
        {
            let same = match other.get(self.entries[i].0.as_str()) {
                Some(v) => self.entries[i].1.eq(v),
                None => false,
            };
            if !same {
                assert(!(match lookup(other@, self@[i as int].0) {
                    Some(v) => same_json(self@[i as int].1, v),
                    None => false,
                }));
                return false;
            }
            i += 1;
        }
        true
    }
}

impl PartialEqSpecImpl for Row {
    open spec fn obeys_eq_spec() -> bool {
        true
    }

    open spec fn eq_spec(&self, other: &Row) -> bool {
        same_fields(self@, other@)
    }
}

impl JsonVal {
    /// Reads one JSON document from a text.
    pub fn parse(text: &str) -> (r: Result<JsonVal, Error>)
        ensures
            match r {
                Ok(v) => parsed(text@) == Some(v@),
                Err(e) => e == Error::BadJson && parsed(text@) is None,
            },
    {
        match read_document(text) {
            Some(doc) => Ok(lift(doc)),
            None => Err(Error::BadJson),
        }
    }

    /// Whether the text of the value reads back as a value that is equal to it as JSON.
    pub fn reads_back(&self) -> (b: bool)
        ensures
            b == match parsed(printed(self@)) {
                Some(back) => same_json(back, self@),
                None => false,
            },
    {
        match Self::parse(self.to_string().as_str()) {
            Ok(back) => back == *self,
            Err(_) => false,
        }
    }

    /// The compact JSON text of the value.
    pub fn to_string(&self) -> (s: String)
        ensures
            s@ == printed(self@),
    {
        print_document(&lower(self))
    }
}

impl Row {
    /// The compact JSON text of the row as an object.
    pub fn to_string(&self) -> (s: String)
        ensures
            s@ == printed(Json::Object(self@)),
    {
        JsonVal::Object(self.clone()).to_string()
    }

    /// Whether the text of the row reads back as a value that is equal to it as JSON.
    pub fn reads_back(&self) -> (b: bool)
        ensures
            b == match parsed(printed(Json::Object(self@))) {
                Some(back) => same_json(back, Json::Object(self@)),
                None => false,
            },
    {
        JsonVal::Object(self.clone()).reads_back()
    }

    /// No name occurs twice among the members.
    #[verifier::type_invariant]
    pub(crate) closed spec fn keys_once(self) -> bool {
        distinct_keys(self@)
    }

    /// A row without members.
    pub fn new() -> (r: Row)
        ensures
            r@ == Seq::<(Seq<char>, Json)>::empty(),
    {
        let entries: Vec<(String, JsonVal)> = Vec::new();
        proof {
            lemma_row_view(Row { entries });
            assert(members(entries@) =~= Seq::<(Seq<char>, Json)>::empty());
        }
        Row { entries }
    }

    /// The number of members.
    pub fn len(&self) -> (n: usize)
        ensures
            n == self@.len(),
    {
        self.entries.len()
    }

    /// Whether the row has no member.
    pub fn is_empty(&self) -> (b: bool)
        ensures
            b == (self@.len() == 0),
    {
        self.entries.len() == 0
    }

    /// The name of member `i`.
    pub fn key_at(&self, i: usize) -> (k: &String)
        requires
            i < self@.len(),
        ensures
            k@ == self@[i as int].0,
    {
        &self.entries[i].0
    }

    /// The value of member `i`.
    pub fn value_at(&self, i: usize) -> (v: &JsonVal)
        requires
            i < self@.len(),
        ensures
            v@ == self@[i as int].1,
    {
        &self.entries[i].1
    }

    /// The place of the first member named `key`.
    pub fn position(&self, key: &str) -> (r: Option<usize>)
        ensures
            match r {
                Some(i) => is_first(self@, key@, i as int),
                None => !has_key(self@, key@),
            },
    {
        let mut i: usize = 0;
        while i < self.entries.len()
            invariant
                i <= self.entries.len(),
                forall|j: int| 0 <= j < i ==> self@[j].0 != key@,
            decreases self.entries.len() - i,
        {
            if same_text(self.entries[i].0.as_str(), key) {
                return Some(i);
            }
            i += 1;
        }
        None
    }

    /// The value of the member named `key`.
    pub fn get(&self, key: &str) -> (r: Option<&JsonVal>)
        ensures
            match r {
                Some(v) => lookup(self@, key@) == Some(v@),
                None => lookup(self@, key@) is None,
            },
    {
        match self.position(key) {
            Some(i) => {
                proof {
                    lemma_first_unique(self@, key@, i as int);
                }
                Some(&self.entries[i].1)
            },
            None => None,
        }
    }

    /// Binds `key` to `val` and returns the value that it had.
    pub fn insert(&mut self, key: String, val: JsonVal) -> (r: Option<JsonVal>)
        ensures
            final(self)@ == bind(old(self)@, key@, val@),
            distinct_keys(final(self)@),
            match r {
                Some(v) => lookup(old(self)@, key@) == Some(v@),
                None => lookup(old(self)@, key@) is None,
            },
    {
        proof {
            use_type_invariant(&*self);
            lemma_bind_distinct(self@, key@, val@);
        }
        let found = self.position(key.as_str());
        let ghost before = self@;
        let ghost new_val = val@;
        let ghost new_key = key@;
        let mut entries: Vec<(String, JsonVal)> = Vec::new();
        assert(members(entries@) =~= Seq::<(Seq<char>, Json)>::empty());
        std::mem::swap(&mut self.entries, &mut entries);
        assert(members(entries@) =~= before);
        let r = match found {
            Some(i) => {
                proof {
                    lemma_first_unique(before, new_key, i as int);
                }
                entries.push((key, val));
                let old = entries.swap_remove(i);
                assert(members(entries@) =~= before.update(i as int, (new_key, new_val)));
                Some(old.1)
            },
            None => {
                entries.push((key, val));
                assert(members(entries@) =~= before.push((new_key, new_val)));
                None
            },
        };
        proof {
            lemma_row_view(Row { entries });
            assert(members(entries@) == bind(before, new_key, new_val));
        }
        std::mem::swap(&mut self.entries, &mut entries);
        r
    }

    /// Takes out the member named `key` and returns its value.
    pub fn remove(&mut self, key: &str) -> (r: Option<JsonVal>)
        ensures
            final(self)@ == unbind(old(self)@, key@),
            distinct_keys(final(self)@),
            match r {
                Some(v) => lookup(old(self)@, key@) == Some(v@),
                None => lookup(old(self)@, key@) is None,
            },
    {
        proof {
            use_type_invariant(&*self);
            lemma_unbind_same(self@, key@);
        }
        let found = self.position(key);
        let ghost before = self@;
        let mut entries: Vec<(String, JsonVal)> = Vec::new();
        assert(members(entries@) =~= Seq::<(Seq<char>, Json)>::empty());
        std::mem::swap(&mut self.entries, &mut entries);
        assert(members(entries@) =~= before);
        let r = match found {
            Some(i) => {
                proof {
                    lemma_first_unique(before, key@, i as int);
                }
                let old = entries.remove(i);
                assert(members(entries@) =~= before.remove(i as int));
                Some(old.1)
            },
            None => None,
        };
        proof {
            lemma_row_view(Row { entries });
            assert(members(entries@) == unbind(before, key@));
        }
        std::mem::swap(&mut self.entries, &mut entries);
        r
    }

    /// The members, in order.
    pub(crate) fn into_entries(self) -> (v: Vec<(String, JsonVal)>)
        ensures
            v == self.entries,
            v@.len() == self@.len(),
            forall|i: int| 0 <= i < v@.len() ==> v@[i].0@ == self@[i].0 && v@[i].1@ == self@[i].1,
    {
        self.entries
    }
}

impl Clone for JsonVal {
    /// A copy that holds the same document.
    fn clone(&self) -> (r: JsonVal)
        ensures
            r@ == self@,
        decreases self,
    {
        match self {
            JsonVal::Null => JsonVal::Null,
            JsonVal::Bool(b) => JsonVal::Bool(*b),
            JsonVal::Number(n) => JsonVal::Number(n.clone()),
            JsonVal::String(s) => JsonVal::String(s.clone()),
            JsonVal::Array(a) => {
                let mut out: Vec<JsonVal> = Vec::new();
                let mut i: usize = 0;
                while i < a.len()
                    invariant
                        *self == JsonVal::Array(*a),
                        i <= a.len(),
                        out@.len() == i,
                        forall|k: int| 0 <= k < i ==> out@[k]@ == a@[k]@,
                    decreases a.len() - i,
                {
                    let item = &a[i];
                    assert(decreases_to!(self => self->Array_0@[i as int]));
                    out.push(item.clone());
                    i += 1;
                }
                assert(JsonVal::Array(out)@->Array_0 =~= self@->Array_0);
                JsonVal::Array(out)
            },
            JsonVal::Object(r) => JsonVal::Object(r.clone()),
        }
    }
}

impl Clone for Row {
    /// A copy that holds the same members.
    fn clone(&self) -> (r: Row)
        ensures
            r@ == self@,
        decreases self,
    {
        let mut out: Vec<(String, JsonVal)> = Vec::new();
        let mut i: usize = 0;
        while i < self.entries.len()
            invariant
                i <= self.entries.len(),
                out@.len() == i,
                forall|k: int|
                    0 <= k < i ==> out@[k].0@ == self.entries@[k].0@ && out@[k].1@
                        == self.entries@[k].1@,
            decreases self.entries.len() - i,
        {
            out.push((self.entries[i].0.clone(), self.entries[i].1.clone()));
            i += 1;
        }
        proof {
            use_type_invariant(self);
            lemma_row_view(Row { entries: out });
            assert(members(out@) =~= self@);
        }
        Row { entries: out }
    }
}

} // verus!
