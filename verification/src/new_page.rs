//! Making a page: its id, its file and its entry in the index.

use crate::edit::{empty_snippet, entry_of, forest_entries, item_entries};
use crate::json::{
    array_of, json_views, member, member_from, member_of_text, member_views, object_of,
    the_first_member_of_a_name_is_got, Json, JsonModel, Member, MemberModel,
};
use crate::model::{MetaModel, PageMeta};
use crate::parse::children_of;
use crate::text::{copy_of, lowercase, to_lowercase, views};
use crate::time::{chrono_now, instant_of, utc_text, Timestamp};
use crate::util::{join_path, joined_path, uuid_at};
use vstd::prelude::*;

verus! {

/// A page that is to be written.
#[derive(Debug)]
pub struct NewPage {
    /// The content of the page file.
    pub raw: Json,
    /// What the index keeps of the page, with the path of its file.
    pub meta: PageMeta,
}

/// What a [`NewPage`] holds.
#[verifier::ext_equal]
pub struct NewPageModel {
    pub raw: JsonModel,
    pub meta: MetaModel,
}

impl View for NewPage {
    type V = NewPageModel;

    open spec fn view(&self) -> NewPageModel {
        NewPageModel { raw: self.raw@, meta: self.meta@ }
    }
}

/// An object of one member.
pub open spec fn single(name: Seq<char>, value: JsonModel) -> JsonModel {
    JsonModel::Object(seq![MemberModel { name, value }])
}

/// The content of the file of a new page: its id, its title, the time, and one
/// text snippet without text.
pub open spec fn page_file(id: Seq<char>, title: Seq<char>, now: Seq<char>) -> JsonModel {
    JsonModel::Object(
        seq![
            MemberModel { name: "uid"@, value: single("uuid"@, JsonModel::Str(id)) },
            MemberModel { name: "pageType"@, value: single("title"@, JsonModel::Str(title)) },
            MemberModel {
                name: "editTime"@,
                value: single("time"@, single("dateAndTimeString"@, JsonModel::Str(now))),
            },
            MemberModel {
                name: "children"@,
                value: single("items"@, JsonModel::Array(seq![empty_snippet()])),
            },
        ],
    )
}

/// What the index keeps of a new page.
pub open spec fn page_entry(
    root: Seq<char>,
    id: Seq<char>,
    title: Seq<char>,
    now: Seq<char>,
) -> MetaModel {
    MetaModel {
        id,
        id_lower: lowercase(id),
        title,
        title_lower: lowercase(title),
        path: joined_path(root, id + ".lepiter"@),
        updated_at: instant_of(now),
        tags: Seq::empty(),
        tags_lower: Seq::empty(),
    }
}

fn single_object(name: &str, value: Json) -> (j: Json)
    ensures
        j@ == single(name@, value@),
{
    let mut members: Vec<Member> = Vec::new();
    members.push(member(name, value));
    assert(member_views(members@) =~= seq![MemberModel { name: name@, value: value@ }]);
    object_of(members)
}

fn page_json(id: &str, title: &str, now: &str) -> (raw: Json)
    ensures
        raw@ == page_file(id@, title@, now@),
{
    let mut snippet: Vec<Member> = Vec::new();
    snippet.push(member_of_text("__type", "textSnippet"));
    snippet.push(member_of_text("string", ""));
    assert(member_views(snippet@) =~= empty_snippet()->Object_0) by {
        reveal_strlit("");
        assert(""@ =~= Seq::<char>::empty());
    }
    let mut items: Vec<Json> = Vec::new();
    items.push(object_of(snippet));
    assert(json_views(items@) =~= seq![empty_snippet()]);
    let time = single_object("dateAndTimeString", Json::Str(copy_of(now)));
    let mut members: Vec<Member> = Vec::new();
    members.push(member("uid", single_object("uuid", Json::Str(copy_of(id)))));
    members.push(member("pageType", single_object("title", Json::Str(copy_of(title)))));
    members.push(member("editTime", single_object("time", time)));
    members.push(member("children", single_object("items", array_of(items))));
    assert(member_views(members@) =~= page_file(id@, title@, now@)->Object_0);
    object_of(members)
}

/// The page with an id, a title and a time of its last edit, in the directory
/// `root`.
pub fn page_from(root: &str, id: &str, title: &str, now: &str) -> (page: NewPage)
    ensures
        page@ == (NewPageModel {
            raw: page_file(id@, title@, now@),
            meta: page_entry(root@, id@, title@, now@),
        }),
{
    let mut name = copy_of(id);
    name.push_str(".lepiter");
    assert(name@ =~= id@ + ".lepiter"@);
    let tags: Vec<String> = Vec::new();
    let tags_lower: Vec<String> = Vec::new();
    assert(views(tags@) =~= Seq::<Seq<char>>::empty());
    assert(views(tags_lower@) =~= Seq::<Seq<char>>::empty());
    let meta = PageMeta {
        id: copy_of(id),
        id_lower: to_lowercase(id),
        title: copy_of(title),
        title_lower: to_lowercase(title),
        path: join_path(root, name.as_str()),
        updated_at: Timestamp::parse(now),
        tags,
        tags_lower,
    };
    NewPage { raw: page_json(id, title, now), meta }
}

/// `uuid::Uuid::new_v4`, written by `to_string`: chance decides which one, and it
/// has the shape of a UUID and nothing more.
#[verifier::external_body]
fn uuid_v4() -> (id: String)
    ensures
        id@.len() == 36,
        uuid_at(id@, 0),
{
    uuid::Uuid::new_v4().to_string()
}

/// A page with a title that has no page yet: its id is made by chance, and its
/// time is now.
pub fn make_page(root: &str, title: &str) -> (page: NewPage)
    ensures
        page@.meta.id.len() == 36,
        uuid_at(page@.meta.id, 0),
        exists|now: Seq<char>, seconds: i64, nanos: u32|
            #![trigger page_file(page@.meta.id, title@, now), utc_text(now, seconds, nanos)]
            utc_text(now, seconds, nanos) && page@ == (NewPageModel {
                raw: page_file(page@.meta.id, title@, now),
                meta: page_entry(root@, page@.meta.id, title@, now),
            }),
{
    let id = uuid_v4();
    let now = chrono_now();
    let page = page_from(root, id.as_str(), title, now.as_str());
    proof {
        let (seconds, nanos): (i64, u32) = choose|seconds: i64, nanos: u32| #[trigger]
            utc_text(now@, seconds, nanos);
        assert(utc_text(now@, seconds, nanos));
        assert(page@ == (NewPageModel {
            raw: page_file(page@.meta.id, title@, now@),
            meta: page_entry(root@, page@.meta.id, title@, now@),
        }));
    }
    page
}

/// A new page has one snippet, which can be edited and has no text.
pub proof fn a_new_page_can_be_edited(id: Seq<char>, title: Seq<char>, now: Seq<char>)
    ensures
        ({
            let entries = forest_entries(
                children_of(page_file(id, title, now)),
                Seq::<nat>::empty(),
            );
            &&& entries.len() == 1
            &&& entries[0].editable
            &&& entries[0].path == seq![0nat]
            &&& entries[0].field == Some("string"@)
            &&& entries[0].text.len() == 0
        }),
{
    lemma_new_children(id, title, now);
    let kids = seq![empty_snippet()];
    let path = Seq::<nat>::empty();
    assert(kids.take(0) =~= Seq::<JsonModel>::empty());
    assert(path.push(0) =~= seq![0nat]);
    reveal_with_fuel(crate::edit::forest_entries, 2);
    lemma_empty_entry();
    let entries = forest_entries(kids, path);
    assert(entries =~= item_entries(empty_snippet(), seq![0nat]));
}

proof fn lemma_new_children(id: Seq<char>, title: Seq<char>, now: Seq<char>)
    ensures
        children_of(page_file(id, title, now)) == seq![empty_snippet()],
{
    reveal_with_fuel(member_from, 5);
    reveal_strlit("uid");
    reveal_strlit("pageType");
    reveal_strlit("editTime");
    reveal_strlit("children");
    assert("children"@.len() != "uid"@.len());
    assert("children"@[0] == 'c');
    assert("pageType"@[0] == 'p');
    assert("editTime"@[0] == 'e');
}

proof fn lemma_empty_entry()
    ensures
        children_of(empty_snippet()).len() == 0,
        entry_of(empty_snippet(), seq![0nat]).editable,
        entry_of(empty_snippet(), seq![0nat]).field == Some("string"@),
        entry_of(empty_snippet(), seq![0nat]).text.len() == 0,
{
    reveal_with_fuel(member_from, 3);
    reveal_with_fuel(crate::edit::first_field, 2);
    reveal_strlit("__type");
    reveal_strlit("string");
    reveal_strlit("children");
    assert("children"@.len() == 8);
    assert("__type"@.len() == 6);
    assert("__type"@[0] == '_');
    assert("string"@[0] == 's');
    assert(empty_snippet().get_str("string"@) == Some(Seq::<char>::empty()));
    crate::render::lemma_normalized_is_kept(Seq::<char>::empty());
}

/// A page that is made has the id, the title and the time that it is given, no
/// tags, a file that is named by its id, and one empty text.
pub proof fn a_new_page_is_as_it_was_asked(
    root: Seq<char>,
    id: Seq<char>,
    title: Seq<char>,
    now: Seq<char>,
)
    ensures
        ({
            let m = page_entry(root, id, title, now);
            &&& m.id == id
            &&& m.title == title
            &&& m.id_lower == lowercase(id)
            &&& m.title_lower == lowercase(title)
            &&& m.tags.len() == 0
            &&& root.len() > 0 && root.last() != '/' ==> m.path == root + "/"@ + (id
                + ".lepiter"@)
        }),
        ({
            let page = page_file(id, title, now);
            &&& page.get("uid"@) is Some
            &&& (page.get("uid"@)->0).get("uuid"@) == Some(JsonModel::Str(id))
            &&& page.get("pageType"@) is Some
            &&& (page.get("pageType"@)->0).get("title"@) == Some(JsonModel::Str(title))
            &&& children_of(page) == seq![empty_snippet()]
        }),
{
    reveal_strlit("uid");
    reveal_strlit("pageType");
    reveal_strlit("editTime");
    reveal_strlit("children");
    assert("uid"@.len() == 3);
    assert("pageType"@.len() == 8 && "pageType"@[0] == 'p');
    assert("editTime"@.len() == 8 && "editTime"@[0] == 'e');
    assert("children"@.len() == 8 && "children"@[0] == 'c');
    let members = page_file(id, title, now)->Object_0;
    the_first_member_of_a_name_is_got(members, 0, "uid"@);
    the_first_member_of_a_name_is_got(members, 1, "pageType"@);
    the_first_member_of_a_name_is_got(members, 3, "children"@);
    let a = single("uuid"@, JsonModel::Str(id))->Object_0;
    the_first_member_of_a_name_is_got(a, 0, "uuid"@);
    let b = single("title"@, JsonModel::Str(title))->Object_0;
    the_first_member_of_a_name_is_got(b, 0, "title"@);
    let c = single("items"@, JsonModel::Array(seq![empty_snippet()]))->Object_0;
    the_first_member_of_a_name_is_got(c, 0, "items"@);
}

} // verus!
