//! JSON values as plain data.
use vstd::prelude::*;

use crate::text::{opt_text, same_text, texts};

verus! {

/// A JSON value. A fraction is held by the bits of its IEEE 754 double.
pub enum Json {
    Null,
    Bool(bool),
    Unsigned(u64),
    Negative(i64),
    Fraction(u64),
    Text(String),
    Array(Vec<Json>),
    Object(Vec<(String, Json)>),
}

/// The mathematical value of a `Json`.
#[verifier::ext_equal]
pub enum JsonView {
    Null,
    Bool(bool),
    Unsigned(u64),
    Negative(i64),
    Fraction(u64),
    Text(Seq<char>),
    Array(Seq<JsonView>),
    Object(Seq<(Seq<char>, JsonView)>),
}

impl View for Json {
    type V = JsonView;

    open spec fn view(&self) -> JsonView
        decreases self,
    {
        match *self {
            Json::Null => JsonView::Null,
            Json::Bool(b) => JsonView::Bool(b),
            Json::Unsigned(n) => JsonView::Unsigned(n),
            Json::Negative(n) => JsonView::Negative(n),
            Json::Fraction(bits) => JsonView::Fraction(bits),
            Json::Text(s) => JsonView::Text(s@),
            Json::Array(v) => JsonView::Array(
                Seq::new(
                    v@.len(),
                    |i: int|
                        if 0 <= i < v@.len() {
                            v@[i]@
                        } else {
                            JsonView::Null
                        },
                ),
            ),
            Json::Object(v) => JsonView::Object(
                Seq::new(
                    v@.len(),
                    |i: int|
                        if 0 <= i < v@.len() {
                            (v@[i].0@, v@[i].1@)
                        } else {
                            (Seq::empty(), JsonView::Null)
                        },
                ),
            ),
        }
    }
}

impl JsonView {
    /// The value of the first member with this key, where the value is an object.
    pub open spec fn member(self, key: Seq<char>) -> Option<JsonView> {
        match self {
            JsonView::Object(members) => first_member(members, key),
            _ => None,
        }
    }

    /// The text, where the value is one.
    pub open spec fn text(self) -> Option<Seq<char>> {
        match self {
            JsonView::Text(s) => Some(s),
            _ => None,
        }
    }

    /// The items, where the value is an array.
    pub open spec fn items(self) -> Option<Seq<JsonView>> {
        match self {
            JsonView::Array(items) => Some(items),
            _ => None,
        }
    }

    /// The number, where the value is a non-negative integer.
    pub open spec fn unsigned(self) -> Option<u64> {
        match self {
            JsonView::Unsigned(n) => Some(n),
            _ => None,
        }
    }

    /// The text of a member, where there is one.
    pub open spec fn member_text(self, key: Seq<char>) -> Option<Seq<char>> {
        match self.member(key) {
            Some(v) => v.text(),
            None => None,
        }
    }
}

/// The value of the first member with this key.
pub open spec fn first_member(members: Seq<(Seq<char>, JsonView)>, key: Seq<char>) -> Option<
    JsonView,
>
    decreases members.len(),
{
    if members.len() == 0 {
        None
    } else if members[0].0 == key {
        Some(members[0].1)
    } else {
        first_member(members.drop_first(), key)
    }
}

/// A text, or null where there is none.
pub open spec fn text_or_null(o: Option<Seq<char>>) -> JsonView {
    match o {
        Some(s) => JsonView::Text(s),
        None => JsonView::Null,
    }
}

/// A non-negative integer, or null where there is none.
pub open spec fn unsigned_or_null(o: Option<u64>) -> JsonView {
    match o {
        Some(n) => JsonView::Unsigned(n),
        None => JsonView::Null,
    }
}

/// The array of a list of texts.
pub open spec fn text_array(v: Seq<Seq<char>>) -> JsonView {
    JsonView::Array(v.map_values(|s: Seq<char>| JsonView::Text(s)))
}

/// The texts among a list of values, in order.
pub open spec fn texts_among(items: Seq<JsonView>) -> Seq<Seq<char>>
    decreases items.len(),
{
    if items.len() == 0 {
        Seq::empty()
    } else {
        let before = texts_among(items.drop_last());
        match items.last() {
            JsonView::Text(s) => before.push(s),
            _ => before,
        }
    }
}

/// The views of a list of values.
pub open spec fn views(v: Seq<Json>) -> Seq<JsonView> {
    v.map_values(|j: Json| j@)
}

/// The views of a list of members.
pub open spec fn member_views(v: Seq<(String, Json)>) -> Seq<(Seq<char>, JsonView)> {
    v.map_values(|m: (String, Json)| (m.0@, m.1@))
}

impl Json {
    /// The view of an array is the list of its items' views.
    pub proof fn lemma_array(v: Vec<Json>)
        ensures
            Json::Array(v)@ == JsonView::Array(views(v@)),
    {
        reveal_with_fuel(<Json as View>::view, 2);
        assert(Json::Array(v)@->Array_0 =~= views(v@));
    }

    /// The view of an object is the list of its members' views.
    pub proof fn lemma_object(v: Vec<(String, Json)>)
        ensures
            Json::Object(v)@ == JsonView::Object(member_views(v@)),
    {
        reveal_with_fuel(<Json as View>::view, 2);
        assert(Json::Object(v)@->Object_0 =~= member_views(v@));
    }

    /// An array of values.
    pub fn array(v: Vec<Json>) -> (res: Json)
        ensures
            res@ == JsonView::Array(views(v@)),
    {
        proof {
            Json::lemma_array(v);
        }
        Json::Array(v)
    }

    /// An object of members.
    pub fn object(v: Vec<(String, Json)>) -> (res: Json)
        ensures
            res@ == JsonView::Object(member_views(v@)),
    {
        proof {
            Json::lemma_object(v);
        }
        Json::Object(v)
    }

    /// A text.
    pub fn text(s: &str) -> (res: Json)
        ensures
            res@ == JsonView::Text(s@),
    {
        Json::Text(s.to_owned())
    }

    /// A text, or null where there is none.
    pub fn opt_text(o: &Option<String>) -> (res: Json)
        ensures
            res@ == text_or_null(opt_text(*o)),
    {
        match o {
            Some(s) => Json::Text(s.clone()),
            None => Json::Null,
        }
    }

    /// A non-negative integer, or null where there is none.
    pub fn opt_size(o: Option<usize>) -> (res: Json)
        ensures
            res@ == match o {
                Some(n) => JsonView::Unsigned(n as u64),
                None => JsonView::Null,
            },
    {
        match o {
            Some(n) => Json::Unsigned(n as u64),
            None => Json::Null,
        }
    }

    /// An array of texts.
    pub fn texts(v: &Vec<String>) -> (res: Json)
        ensures
            res@ == text_array(texts(v@)),
    {
        let mut items: Vec<Json> = Vec::new();
        let mut i: usize = 0;
        while i < v.len()
            invariant
                i <= v@.len(),
                items@.len() == i,
                forall|k: int| 0 <= k < i ==> (#[trigger] items@[k])@ == JsonView::Text(v@[k]@),
            decreases v@.len() - i,
        {
            items.push(Json::Text(v[i].clone()));
            i = i + 1;
        }
        assert(views(items@) =~= texts(v@).map_values(|s: Seq<char>| JsonView::Text(s)));
        Json::array(items)
    }

    /// A member of an object.
    pub fn field(key: &str, value: Json) -> (res: (String, Json))
        ensures
            res.0@ == key@,
            res.1 == value,
    {
        (key.to_owned(), value)
    }

    /// The value of the first member with this key.
    pub fn get(&self, key: &str) -> (res: Option<&Json>)
        ensures
            match res {
                Some(v) => self@.member(key@) == Some(v@),
                None => self@.member(key@) is None,
            },
    {
        match self {
            Json::Object(members) => {
                let ghost all = member_views(members@);
                proof {
                    Json::lemma_object(*members);
                    assert(all.skip(0) =~= all);
                }
                let mut i: usize = 0;
                while i < members.len()
                    invariant
                        i <= members@.len(),
                        all == member_views(members@),
                        self@ == JsonView::Object(all),
                        first_member(all, key@) == first_member(all.skip(i as int), key@),
                    decreases members@.len() - i,
                {
                    assert(all.skip(i as int)[0] == (members@[i as int].0@, members@[i as int].1@));
                    if same_text(&members[i].0, key) {
                        return Some(&members[i].1);
                    }
                    assert(all.skip(i as int).drop_first() =~= all.skip(i + 1));
                    i = i + 1;
                }
                None
            },
            _ => None,
        }
    }

    /// The text, where the value is one.
    pub fn as_text(&self) -> (res: Option<&String>)
        ensures
            match res {
                Some(s) => self@.text() == Some(s@),
                None => self@.text() is None,
            },
    {
        match self {
            Json::Text(s) => Some(s),
            _ => None,
        }
    }

    /// The items, where the value is an array.
    pub fn as_array(&self) -> (res: Option<&Vec<Json>>)
        ensures
            match res {
                Some(v) => self@.items() == Some(views(v@)),
                None => self@.items() is None,
            },
    {
        match self {
            Json::Array(v) => {
                proof {
                    Json::lemma_array(*v);
                }
                Some(v)
            },
            _ => None,
        }
    }

    /// The number, where the value is a non-negative integer.
    pub fn as_unsigned(&self) -> (res: Option<u64>)
        ensures
            res == self@.unsigned(),
    {
        match self {
            Json::Unsigned(n) => Some(*n),
            _ => None,
        }
    }

    /// The text of a member, where there is one.
    pub fn get_text(&self, key: &str) -> (res: Option<&String>)
        ensures
            match res {
                Some(s) => self@.member_text(key@) == Some(s@),
                None => self@.member_text(key@) is None,
            },
    {
        match self.get(key) {
            Some(v) => v.as_text(),
            None => None,
        }
    }

    /// A copy.
    pub fn copy(&self) -> (res: Json)
        ensures
            res@ == self@,
        decreases self,
    {
        match self {
            Json::Null => Json::Null,
            Json::Bool(b) => Json::Bool(*b),
            Json::Unsigned(n) => Json::Unsigned(*n),
            Json::Negative(n) => Json::Negative(*n),
            Json::Fraction(bits) => Json::Fraction(*bits),
            Json::Text(s) => Json::Text(s.clone()),
            Json::Array(v) => {
                let mut out: Vec<Json> = Vec::new();
                let mut i: usize = 0;
                while i < v.len()
                    invariant
                        *self == Json::Array(*v),
                        i <= v@.len(),
                        out@.len() == i,
                        forall|k: int| 0 <= k < i ==> (#[trigger] out@[k])@ == v@[k]@,
                    decreases v@.len() - i,
                {
                    assert(decreases_to!(self => (self->Array_0)@[i as int]));
                    out.push(v[i].copy());
                    i = i + 1;
                }
                proof {
                    Json::lemma_array(*v);
                    assert(views(out@) =~= views(v@));
                }
                Json::array(out)
            },
            Json::Object(v) => {
                let mut out: Vec<(String, Json)> = Vec::new();
                let mut i: usize = 0;
                while i < v.len()
                    invariant
                        *self == Json::Object(*v),
                        i <= v@.len(),
                        out@.len() == i,
                        forall|k: int|
                            0 <= k < i ==> (#[trigger] out@[k]).0@ == v@[k].0@ && out@[k].1@
                                == v@[k].1@,
                    decreases v@.len() - i,
                {
                    assert(decreases_to!(self => (self->Object_0)@[i as int].1));
                    out.push((v[i].0.clone(), v[i].1.copy()));
                    i = i + 1;
                }
                proof {
                    Json::lemma_object(*v);
                    assert(member_views(out@) =~= member_views(v@));
                }
                Json::object(out)
            },
        }
    }
}

/// The texts among a list of values, in order.
pub fn texts_in(items: &Vec<Json>) -> (res: Vec<String>)
    ensures
        texts(res@) == texts_among(views(items@)),
{
    let mut out: Vec<String> = Vec::new();
    let mut i: usize = 0;
    while i < items.len()
        invariant
            i <= items@.len(),
            texts(out@) == texts_among(views(items@).take(i as int)),
        decreases items@.len() - i,
    {
        proof {
            let all = views(items@);
            assert(all.take(i + 1).drop_last() =~= all.take(i as int));
            assert(all.take(i + 1).last() == items@[i as int]@);
        }
        if let Json::Text(s) = &items[i] {
            let ghost before = out@;
            out.push(s.clone());
            assert(texts(out@) =~= texts(before).push(s@));
        }
        i = i + 1;
    }
    assert(views(items@).take(items@.len() as int) =~= views(items@));
    out
}

/// Members with other keys do not matter to the value of a key.
pub proof fn lemma_skip_members(m: Seq<(Seq<char>, JsonView)>, key: Seq<char>, n: int)
    requires
        0 <= n <= m.len(),
        forall|i: int| 0 <= i < n ==> (#[trigger] m[i]).0 != key,
    ensures
        first_member(m, key) == first_member(m.skip(n), key),
    decreases n,
{
    if n > 0 {
        assert forall|i: int| 0 <= i < n - 1 implies (#[trigger] m.drop_first()[i]).0 != key by {
            assert(m.drop_first()[i] == m[i + 1]);
        }
        lemma_skip_members(m.drop_first(), key, n - 1);
        assert(m.drop_first().skip(n - 1) =~= m.skip(n));
        assert(m[0].0 != key);
    } else {
        assert(m.skip(0) =~= m);
    }
}

/// The value of a key, where the keys before it are of other lengths.
pub proof fn lemma_member_at(m: Seq<(Seq<char>, JsonView)>, key: Seq<char>, n: int)
    requires
        0 <= n < m.len(),
        forall|i: int| 0 <= i < n ==> (#[trigger] m[i]).0.len() != key.len(),
        m[n].0 == key,
    ensures
        JsonView::Object(m).member(key) == Some(m[n].1),
{
    lemma_skip_members(m, key, n);
    assert(m.skip(n)[0] == m[n]);
}

// ---------------------------------------------------------------------------
// Laws
// ---------------------------------------------------------------------------
/// An object has a member with a key and a value.
pub open spec fn says(v: JsonView, key: Seq<char>, value: JsonView) -> bool {
    v is Object && v->Object_0.contains((key, value))
}

/// Every member of an object is one that it says.
pub proof fn lemma_says(v: JsonView)
    requires
        v is Object,
    ensures
        forall|i: int|
            0 <= i < v->Object_0.len() ==> says(
                v,
                (#[trigger] v->Object_0[i]).0,
                v->Object_0[i].1,
            ),
{
    assert forall|i: int| 0 <= i < v->Object_0.len() implies says(
        v,
        (#[trigger] v->Object_0[i]).0,
        v->Object_0[i].1,
    ) by {
        let m = v->Object_0;
        assert(m[i] == (m[i].0, m[i].1));
        assert(m.contains(m[i]));
    }
}

proof fn lemma_first_member(m: Seq<(Seq<char>, JsonView)>, key: Seq<char>)
    ensures
        match first_member(m, key) {
            Some(v) => exists|i: int|
                0 <= i < m.len() && #[trigger] m[i] == (key, v) && forall|j: int|
                    0 <= j < i ==> (#[trigger] m[j]).0 != key,
            None => forall|j: int| 0 <= j < m.len() ==> (#[trigger] m[j]).0 != key,
        },
    decreases m.len(),
{
    if m.len() > 0 {
        let rest = m.drop_first();
        if m[0].0 == key {
            assert(m[0] == (key, m[0].1));
        } else {
            lemma_first_member(rest, key);
            match first_member(rest, key) {
                Some(v) => {
                    let i = choose|i: int|
                        0 <= i < rest.len() && #[trigger] rest[i] == (key, v) && forall|j: int|
                            0 <= j < i ==> (#[trigger] rest[j]).0 != key;
                    assert(m[i + 1] == (key, v));
                    assert forall|j: int| 0 <= j < i + 1 implies (#[trigger] m[j]).0 != key by {
                        if j > 0 {
                            assert(rest[j - 1] == m[j]);
                        }
                    }
                },
                None => {
                    assert forall|j: int| 0 <= j < m.len() implies (#[trigger] m[j]).0 != key by {
                        if j > 0 {
                            assert(rest[j - 1] == m[j]);
                        }
                    }
                },
            }
        }
    }
}

/// A member is found if and only if an object has one with the key, and it is the first such.
/// A text or a number is read only where the value is one, and is read as it stands.
pub proof fn law_members_are_found_by_their_keys(v: JsonView, key: Seq<char>)
    ensures
        v !is Object ==> v.member(key) is None,
        v is Object && v.member(key) is None ==> forall|j: int|
            0 <= j < v->Object_0.len() ==> (#[trigger] v->Object_0[j]).0 != key,
        v.member(key) matches Some(x) ==> exists|i: int|
            0 <= i < v->Object_0.len() && #[trigger] v->Object_0[i] == (key, x) && forall|j: int|
                0 <= j < i ==> (#[trigger] v->Object_0[j]).0 != key,
        v.member_text(key) == match v.member(key) {
            Some(JsonView::Text(t)) => Some(t),
            _ => None,
        },
        v.text() == match v {
            JsonView::Text(t) => Some(t),
            _ => None,
        },
        v.unsigned() == match v {
            JsonView::Unsigned(n) => Some(n),
            _ => None,
        },
        v.items() == match v {
            JsonView::Array(s) => Some(s),
            _ => None,
        },
{
    if v is Object {
        lemma_first_member(v->Object_0, key);
    }
}

/// The texts among some values are those values that are texts, all of them and in order: the
/// texts of two lists behind each other are those of the one and then those of the other.
pub proof fn law_texts_are_picked_in_order(a: Seq<JsonView>, b: Seq<JsonView>, v: JsonView)
    ensures
        texts_among(a + b) == texts_among(a) + texts_among(b),
        v matches JsonView::Text(t) ==> texts_among(seq![v]) == seq![t],
        v !is Text ==> texts_among(seq![v]).len() == 0,
        texts_among(Seq::empty()).len() == 0,
    decreases b.len(),
{
    assert(seq![v].drop_last() =~= Seq::empty());
    assert(seq![v].last() == v);
    assert(texts_among(Seq::<JsonView>::empty()) =~= Seq::empty());
    if v is Text {
        assert(texts_among(seq![v]) =~= seq![v->Text_0]);
    }
    if b.len() == 0 {
        assert(a + b =~= a);
        assert(texts_among(a) + texts_among(b) =~= texts_among(a));
    } else {
        law_texts_are_picked_in_order(a, b.drop_last(), v);
        assert((a + b).drop_last() =~= a + b.drop_last());
        assert((a + b).last() == b.last());
        assert(texts_among(a + b) =~= texts_among(a) + texts_among(b));
    }
}

/// Where all values are texts, the texts among them are the values, one for one.
pub proof fn law_lists_of_texts_are_read_whole(items: Seq<JsonView>)
    requires
        forall|i: int| 0 <= i < items.len() ==> (#[trigger] items[i]) is Text,
    ensures
        texts_among(items).len() == items.len(),
        forall|i: int|
            0 <= i < items.len() ==> JsonView::Text(#[trigger] texts_among(items)[i]) == items[i],
    decreases items.len(),
{
    if items.len() > 0 {
        let front = items.drop_last();
        assert forall|i: int| 0 <= i < front.len() implies (#[trigger] front[i]) is Text by {
            assert(front[i] == items[i]);
        }
        law_lists_of_texts_are_read_whole(front);
        assert(items[items.len() - 1] is Text);
        assert forall|i: int| 0 <= i < items.len() implies JsonView::Text(
            #[trigger] texts_among(items)[i],
        ) == items[i] by {
            if i < front.len() {
                assert(JsonView::Text(texts_among(front)[i]) == front[i]);
            }
        }
    }
}

/// A list of texts, a text and a number stand in JSON as they are, and null stands for none.
pub proof fn law_plain_values_are_written_as_they_are(
    list: Seq<Seq<char>>,
    text: Seq<char>,
    n: u64,
)
    ensures
        text_array(list) matches JsonView::Array(items) && items.len() == list.len() && forall|
            i: int,
        |
            0 <= i < list.len() ==> #[trigger] items[i] == JsonView::Text(list[i]),
        text_or_null(Some(text)) == JsonView::Text(text),
        text_or_null(None) == JsonView::Null,
        unsigned_or_null(Some(n)) == JsonView::Unsigned(n),
        unsigned_or_null(None) == JsonView::Null,
{
}

} // verus!
