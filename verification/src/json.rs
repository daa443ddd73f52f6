//! JSON values as the library reads and builds them.

use crate::text::{copy_of, same_text, views};
use vstd::prelude::*;

verus! {

/// One member of an object.
#[derive(Debug, PartialEq, Eq)]
pub struct Member {
    pub name: String,
    pub value: Json,
}

/// A JSON value. A number is kept as the text that writes it; the members of an
/// object keep their order.
#[derive(Debug, PartialEq, Eq)]
pub enum Json {
    Null,
    Bool(bool),
    Number(String),
    Str(String),
    Array(Vec<Json>),
    Object(Vec<Member>),
}

/// What a [`Member`] holds.
#[verifier::ext_equal]
pub struct MemberModel {
    pub name: Seq<char>,
    pub value: JsonModel,
}

/// What a [`Json`] value holds.
#[verifier::ext_equal]
pub enum JsonModel {
    Null,
    Bool(bool),
    Number(Seq<char>),
    Str(Seq<char>),
    Array(Seq<JsonModel>),
    Object(Seq<MemberModel>),
}

impl View for Json {
    type V = JsonModel;

    open spec fn view(&self) -> JsonModel
        decreases self,
    {
        match self {
            Json::Null => JsonModel::Null,
            Json::Bool(b) => JsonModel::Bool(*b),
            Json::Number(s) => JsonModel::Number(s@),
            Json::Str(s) => JsonModel::Str(s@),
            Json::Array(v) => JsonModel::Array(
                Seq::new(
                    v@.len(),
                    |i: int|
                        if 0 <= i < v@.len() {
                            v@[i].view()
                        } else {
                            JsonModel::Null
                        },
                ),
            ),
            Json::Object(v) => JsonModel::Object(
                Seq::new(
                    v@.len(),
                    |i: int|
                        if 0 <= i < v@.len() {
                            MemberModel { name: v@[i].name@, value: v@[i].value.view() }
                        } else {
                            MemberModel { name: Seq::empty(), value: JsonModel::Null }
                        },
                ),
            ),
        }
    }
}

impl View for Member {
    type V = MemberModel;

    open spec fn view(&self) -> MemberModel {
        MemberModel { name: self.name@, value: self.value@ }
    }
}

pub open spec fn json_views(v: Seq<Json>) -> Seq<JsonModel> {
    Seq::new(v.len(), |i: int| v[i]@)
}

pub open spec fn member_views(v: Seq<Member>) -> Seq<MemberModel> {
    Seq::new(v.len(), |i: int| v[i]@)
}

/// An array or an object holds the values that its vector holds.
pub proof fn lemma_json_view(j: Json)
    ensures
        j matches Json::Array(v) ==> j@ == JsonModel::Array(json_views(v@)),
        j matches Json::Object(v) ==> j@ == JsonModel::Object(member_views(v@)),
{
    match j {
        Json::Array(v) => {
            assert(j@->Array_0 =~= json_views(v@));
        },
        Json::Object(v) => {
            assert(j@->Object_0 =~= member_views(v@));
        },
        _ => {},
    }
}

pub open spec fn opt_json_view(o: Option<&Json>) -> Option<JsonModel> {
    match o {
        Some(j) => Some(j@),
        None => None,
    }
}

/// The value of the first member from the `i`-th on that is called `key`.
pub open spec fn member_from(members: Seq<MemberModel>, i: int, key: Seq<char>) -> Option<JsonModel>
    decreases members.len() - i,
{
    if i < 0 || i >= members.len() {
        None
    } else if members[i].name == key {
        Some(members[i].value)
    } else {
        member_from(members, i + 1, key)
    }
}

impl JsonModel {
    /// The value that an object has under `key`.
    pub open spec fn get(self, key: Seq<char>) -> Option<JsonModel> {
        match self {
            JsonModel::Object(members) => member_from(members, 0, key),
            _ => None,
        }
    }

    pub open spec fn as_str(self) -> Option<Seq<char>> {
        match self {
            JsonModel::Str(s) => Some(s),
            _ => None,
        }
    }

    pub open spec fn as_bool(self) -> Option<bool> {
        match self {
            JsonModel::Bool(b) => Some(b),
            _ => None,
        }
    }

    pub open spec fn as_array(self) -> Option<Seq<JsonModel>> {
        match self {
            JsonModel::Array(v) => Some(v),
            _ => None,
        }
    }

    /// The text that an object has under `key`.
    pub open spec fn get_str(self, key: Seq<char>) -> Option<Seq<char>> {
        match self.get(key) {
            Some(v) => v.as_str(),
            None => None,
        }
    }
}

impl Json {
    /// The value that an object has under `key`.
    pub fn get(&self, key: &str) -> (found: Option<&Json>)
        ensures
            opt_json_view(found) == self@.get(key@),
            found matches Some(j) ==> decreases_to!(*self => *j),
    {
        proof {
            lemma_json_view(*self);
        }
        match self {
            Json::Object(v) => {
                let mut i: usize = 0;
                while i < v.len()
                    invariant
                        i <= v@.len(),
                        *self == Json::Object(*v),
                        self@ == JsonModel::Object(member_views(v@)),
                        self@.get(key@) == member_from(member_views(v@), i as int, key@),
                    decreases v.len() - i,
                {
                    assert(member_views(v@)[i as int] == v@[i as int]@);
                    if same_text(v[i].name.as_str(), key) {
                        proof {
                            assert(self->Object_0 == *v);
                            assert(decreases_to!(*self => self->Object_0));
                            assert(decreases_to!(*v => v@));
                            assert(decreases_to!(v@ => v@[i as int]));
                            assert(decreases_to!(v@[i as int] => v@[i as int].value));
                        }
                        return Some(&v[i].value);
                    }
                    i += 1;
                }
                None
            },
            _ => None,
        }
    }

    /// The text, where the value is one.
    pub fn as_str(&self) -> (found: Option<&str>)
        ensures
            match found {
                Some(s) => self@.as_str() == Some(s@),
                None => self@.as_str() is None,
            },
    {
        match self {
            Json::Str(s) => Some(s.as_str()),
            _ => None,
        }
    }

    /// The truth value, where the value is one.
    pub fn as_bool(&self) -> (found: Option<bool>)
        ensures
            found == self@.as_bool(),
    {
        match self {
            Json::Bool(b) => Some(*b),
            _ => None,
        }
    }

    /// The items of an array.
    pub fn as_array(&self) -> (found: Option<&Vec<Json>>)
        ensures
            match found {
                Some(v) => self@.as_array() == Some(json_views(v@)) && decreases_to!(*self => *v),
                None => self@.as_array() is None,
            },
    {
        proof {
            lemma_json_view(*self);
        }
        match self {
            Json::Array(v) => {
                proof {
                    assert(self->Array_0 == *v);
                    assert(decreases_to!(*self => self->Array_0));
                }
                Some(v)
            },
            _ => None,
        }
    }

    /// The text that an object has under `key`.
    pub fn get_str(&self, key: &str) -> (found: Option<&str>)
        ensures
            match found {
                Some(s) => self@.get_str(key@) == Some(s@),
                None => self@.get_str(key@) is None,
            },
    {
        match self.get(key) {
            Some(j) => j.as_str(),
            None => None,
        }
    }
}

impl Clone for Json {
    fn clone(&self) -> (copy: Json)
        ensures
            copy@ == self@,
        decreases self,
    {
        match self {
            Json::Null => Json::Null,
            Json::Bool(b) => Json::Bool(*b),
            Json::Number(s) => Json::Number(s.clone()),
            Json::Str(s) => Json::Str(s.clone()),
            Json::Array(v) => {
                let mut out: Vec<Json> = Vec::new();
                let mut i: usize = 0;
                while i < v.len()
                    invariant
                        i <= v@.len(),
                        out@.len() == i,
                        forall|k: int| 0 <= k < i ==> (#[trigger] out@[k])@ == v@[k]@,
                        *self == Json::Array(*v),
                    decreases v.len() - i,
                {
                    proof {
                        assert(self->Array_0 == *v);
                        assert(decreases_to!(*self => self->Array_0));
                        assert(decreases_to!(*v => v@));
                        assert(decreases_to!(v@ => v@[i as int]));
                    }
                    out.push(v[i].clone());
                    i += 1;
                }
                proof {
                    lemma_json_view(Json::Array(out));
                    lemma_json_view(*self);
                    assert(json_views(out@) =~= json_views(v@));
                }
                Json::Array(out)
            },
            Json::Object(v) => {
                let mut out: Vec<Member> = Vec::new();
                let mut i: usize = 0;
                while i < v.len()
                    invariant
                        i <= v@.len(),
                        out@.len() == i,
                        forall|k: int| 0 <= k < i ==> (#[trigger] out@[k])@ == v@[k]@,
                        *self == Json::Object(*v),
                    decreases v.len() - i,
                {
                    proof {
                        assert(self->Object_0 == *v);
                        assert(decreases_to!(*self => self->Object_0));
                        assert(decreases_to!(*v => v@));
                        assert(decreases_to!(v@ => v@[i as int]));
                        assert(decreases_to!(v@[i as int] => v@[i as int].value));
                    }
                    out.push(Member { name: v[i].name.clone(), value: v[i].value.clone() });
                    i += 1;
                }
                proof {
                    lemma_json_view(Json::Object(out));
                    lemma_json_view(*self);
                    assert(member_views(out@) =~= member_views(v@));
                }
                Json::Object(out)
            },
        }
    }
}

// ---------------------------------------------------------------------------
// Building values
// ---------------------------------------------------------------------------

/// A member with a text for its value.
pub open spec fn text_member(name: Seq<char>, text: Seq<char>) -> MemberModel {
    MemberModel { name, value: JsonModel::Str(text) }
}

/// An array of texts.
pub open spec fn text_array(texts: Seq<Seq<char>>) -> JsonModel {
    JsonModel::Array(Seq::new(texts.len(), |i: int| JsonModel::Str(texts[i])))
}

/// A member of an object.
pub fn member(name: &str, value: Json) -> (m: Member)
    ensures
        m@ == (MemberModel { name: name@, value: value@ }),
{
    Member { name: copy_of(name), value }
}

/// A member of an object that holds a text.
pub fn member_of_text(name: &str, text: &str) -> (m: Member)
    ensures
        m@ == text_member(name@, text@),
{
    Member { name: copy_of(name), value: Json::Str(copy_of(text)) }
}

/// An object of the given members.
pub fn object_of(members: Vec<Member>) -> (j: Json)
    ensures
        j@ == JsonModel::Object(member_views(members@)),
{
    let j = Json::Object(members);
    proof {
        lemma_json_view(j);
    }
    j
}

/// An array of the given values.
pub fn array_of(items: Vec<Json>) -> (j: Json)
    ensures
        j@ == JsonModel::Array(json_views(items@)),
{
    let j = Json::Array(items);
    proof {
        lemma_json_view(j);
    }
    j
}

/// An array of the given texts.
pub fn array_of_texts(texts: &Vec<String>) -> (j: Json)
    ensures
        j@ == text_array(views(texts@)),
{
    let mut items: Vec<Json> = Vec::new();
    let mut i: usize = 0;
    while i < texts.len()
        invariant
            i <= texts@.len(),
            items@.len() == i,
            forall|k: int| 0 <= k < i ==> (#[trigger] items@[k])@ == JsonModel::Str(texts@[k]@),
        decreases texts.len() - i,
    {
        items.push(Json::Str(copy_of(texts[i].as_str())));
        i += 1;
    }
    assert(json_views(items@) =~= text_array(views(texts@))->Array_0);
    array_of(items)
}

/// Where the first member from the `i`-th on that is called `key` stands; the
/// number of members where there is none.
pub open spec fn member_position(members: Seq<MemberModel>, i: int, key: Seq<char>) -> int
    decreases members.len() - i,
{
    if 0 <= i < members.len() && members[i].name != key {
        member_position(members, i + 1, key)
    } else {
        i
    }
}

/// The members once `key` has a value: the member keeps its place, a new one
/// comes last.
pub open spec fn member_set(members: Seq<MemberModel>, key: Seq<char>, value: JsonModel) -> Seq<
    MemberModel,
> {
    let at = member_position(members, 0, key);
    let m = MemberModel { name: key, value };
    if at < members.len() {
        members.update(at, m)
    } else {
        members.push(m)
    }
}

pub proof fn lemma_member_position(members: Seq<MemberModel>, i: int, key: Seq<char>)
    requires
        0 <= i <= members.len(),
    ensures
        i <= member_position(members, i, key) <= members.len(),
        forall|k: int| i <= k < member_position(members, i, key) ==> members[k].name != key,
        member_position(members, i, key) < members.len() ==> members[member_position(
            members,
            i,
            key,
        )].name == key,
        member_from(members, i, key) == (if member_position(members, i, key) < members.len() {
            Some(members[member_position(members, i, key)].value)
        } else {
            None
        }),
    decreases members.len() - i,
{
    if i < members.len() && members[i].name != key {
        lemma_member_position(members, i + 1, key);
    }
}

/// Setting a member gives it its value and leaves the values of the others.
pub proof fn setting_a_member_sets_it(
    members: Seq<MemberModel>,
    key: Seq<char>,
    value: JsonModel,
    other: Seq<char>,
)
    ensures
        member_from(member_set(members, key, value), 0, other) == (if other == key {
            Some(value)
        } else {
            member_from(members, 0, other)
        }),
{
    let after = member_set(members, key, value);
    let at = member_position(members, 0, key);
    lemma_member_position(members, 0, key);
    lemma_member_position(members, 0, other);
    lemma_member_position(after, 0, other);
    assert(0 <= at < after.len());
    assert(after[at] == (MemberModel { name: key, value }));
    assert(forall|k: int| 0 <= k < members.len() && k != at ==> after[k] == members[k]);
    let there = member_position(after, 0, other);
    let here = member_position(members, 0, other);
    if other == key {
        assert(there == at) by {
            if there < at {
                assert(after[there] == members[there]);
            }
        }
    } else {
        if here < members.len() {
            assert(here != at);
            assert(after[here] == members[here]);
            if there < here {
                assert(there != at);
                assert(after[there] == members[there]);
            }
            assert(there == here);
        } else if there < after.len() {
            assert(there != at);
            assert(after[there] == members[there]);
        }
    }
}

/// Where the first member that is called `key` stands.
pub fn find_member(members: &Vec<Member>, key: &str) -> (at: usize)
    ensures
        at == member_position(member_views(members@), 0, key@),
        at <= members@.len(),
{
    let ghost all = member_views(members@);
    let mut i: usize = 0;
    while i < members.len()
        invariant
            i <= members@.len(),
            all == member_views(members@),
            member_position(all, 0, key@) == member_position(all, i as int, key@),
        decreases members.len() - i,
    {
        assert(all[i as int] == members@[i as int]@);
        if same_text(members[i].name.as_str(), key) {
            return i;
        }
        i += 1;
    }
    i
}

/// Gives a member its value.
pub fn set_member(members: &mut Vec<Member>, key: &str, value: Json)
    ensures
        member_views(final(members)@) == member_set(member_views(old(members)@), key@, value@),
{
    let at: usize = find_member(members, key);
    let m = member(key, value);
    if at < members.len() {
        members.set(at, m);
    } else {
        members.push(m);
    }
    assert(member_views(members@) =~= member_set(member_views(old(members)@), key@, value@));
}

/// What an object holds under a name is the value of its first member of that
/// name, and nothing where there is no such member.
pub proof fn the_first_member_of_a_name_is_got(members: Seq<MemberModel>, k: int, key: Seq<char>)
    requires
        0 <= k <= members.len(),
        forall|j: int| 0 <= j < k ==> (#[trigger] members[j]).name != key,
    ensures
        k < members.len() && members[k].name == key ==> JsonModel::Object(members).get(key) == Some(
            members[k].value,
        ),
        k == members.len() ==> JsonModel::Object(members).get(key) is None,
{
    lemma_member_from_at(members, 0, k, key);
}

proof fn lemma_member_from_at(members: Seq<MemberModel>, i: int, k: int, key: Seq<char>)
    requires
        0 <= i <= k <= members.len(),
        forall|j: int| i <= j < k ==> (#[trigger] members[j]).name != key,
    ensures
        k < members.len() && members[k].name == key ==> member_from(members, i, key) == Some(
            members[k].value,
        ),
        k == members.len() ==> member_from(members, i, key) is None,
    decreases k - i,
{
    if i < k {
        lemma_member_from_at(members, i + 1, k, key);
    }
}

/// A value is a text, a truth value or an array only where it is written as one.
pub proof fn values_are_what_they_are(v: JsonModel, s: Seq<char>, b: bool, items: Seq<JsonModel>)
    ensures
        v.as_str() == Some(s) <==> v == JsonModel::Str(s),
        v.as_bool() == Some(b) <==> v == JsonModel::Bool(b),
        v.as_array() == Some(items) <==> v == JsonModel::Array(items),
{
}

} // verus!
