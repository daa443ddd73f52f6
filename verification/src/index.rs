//! The index of a knowledge base: its pages, their titles and their links.

use crate::json::{Json, JsonModel};
use crate::lists::{
    add_to_list, copy_texts, has_text, lemma_listed_of, lemma_lists_of, lemma_with_list,
    lemma_without, lemma_without_one, list_at, list_table, listed, lists_of, none_empty, put_list,
    texts_without, with_list, without, Lists,
};
use crate::model::{
    hit_views, HitModel, LinkTargetKind, MetaModel, Page, PageId, PageMeta, PageModel, ParseIssue,
    ResolutionModel, SearchHit, SearchMatchKind, TargetModel, TitleResolution,
};
use crate::parse::{meta_of, or_empty, page_content, parse_page_content, parse_page_meta, RawMeta};
use crate::render::{content_mentions, page_content_contains};
use crate::sort::{
    arranged, comes_before, is_sorting, lemma_all_listed, lemma_sorting, sorted_text_order,
    sorted_texts, text_keys,
};
use crate::strmap::StrMap;
use crate::text::{
    a_prefix_is_stripped, a_text_holds_its_parts, chars_of, contains, contains_char, copy_of,
    ends_with, lemma_text_le_total, lemma_text_le_transitive, lemma_views_push, lowercase,
    not_after, opt_view, same_text, starts_with, string_of, strip_prefix, text_contains,
    text_ends_with, text_le, to_lowercase, trim, trimmed, trimming_keeps_what_is_trimmed,
    trimming_takes_the_white_space_around, views, whitespace, without_prefix,
};
use crate::util::{
    attachment_relative, external_target, extract_attachment_relative, extract_link_targets,
    extract_uuid_like, has_path, holds_path, is_external_target, link_targets, located, same_path,
    uuid_from, AttachmentResolver,
};
use vstd::prelude::*;

verus! {

// ---------------------------------------------------------------------------
// Model
// ---------------------------------------------------------------------------

/// Metadata of pages by page id.
pub type PageTable = Map<Seq<char>, MetaModel>;

/// What an index holds.
#[verifier::ext_equal]
pub struct IndexModel {
    /// The directory of the knowledge base.
    pub root: Seq<char>,
    /// The metadata of each page.
    pub pages: PageTable,
    /// The page ids, in title order.
    pub order: Seq<Seq<char>>,
    /// The ids of the pages with each lowercased title.
    pub titled: Lists,
    /// The pages that each page links to.
    pub forward: Lists,
    /// The pages that link to each page.
    pub back: Lists,
}

/// What a map of metadata holds.
pub open spec fn page_table(m: StrMap<PageMeta>) -> PageTable {
    Map::new(|k: Seq<char>| m.has(k), |k: Seq<char>| m.at(k)@)
}

/// The text that a page is ordered by: its lowercased title, or nothing where
/// there is no such page.
pub open spec fn title_key(pages: PageTable, id: Seq<char>) -> Seq<char> {
    if pages.contains_key(id) {
        pages[id].title_lower
    } else {
        Seq::empty()
    }
}

/// Whether ids stand in title order.
pub open spec fn in_title_order(pages: PageTable, ids: Seq<Seq<char>>) -> bool {
    forall|i: int, j: int|
        0 <= i < j < ids.len() ==> text_le(
            title_key(pages, #[trigger] ids[i]),
            title_key(pages, #[trigger] ids[j]),
        )
}

/// The ids of the pages whose lowercased title is `t`.
pub open spec fn with_title(pages: PageTable, ids: Seq<Seq<char>>, t: Seq<char>) -> Seq<Seq<char>>
    decreases ids.len(),
{
    if ids.len() == 0 {
        Seq::empty()
    } else {
        let before = with_title(pages, ids.drop_last(), t);
        if title_key(pages, ids.last()) == t {
            before.push(ids.last())
        } else {
            before
        }
    }
}

/// The ids under each title.
pub open spec fn by_title(pages: PageTable, ids: Seq<Seq<char>>) -> Lists {
    lists_of(|t: Seq<char>| with_title(pages, ids, t))
}

impl IndexModel {
    /// Every page stands under its own id.
    pub open spec fn keeps_ids(self) -> bool {
        forall|id: Seq<char>| #[trigger] self.pages.contains_key(id) ==> self.pages[id].id == id
    }

    /// The ids in order are those of the pages, each once, by title.
    pub open spec fn keeps_order(self) -> bool {
        &&& self.order.no_duplicates()
        &&& forall|id: Seq<char>| #[trigger]
            self.order.contains(id) == self.pages.contains_key(id)
        &&& in_title_order(self.pages, self.order)
    }

    /// Under each title stand the pages that have it, each once.
    pub open spec fn keeps_titles(self) -> bool {
        &&& none_empty(self.titled)
        &&& forall|t: Seq<char>| (#[trigger] listed(self.titled, t)).no_duplicates()
        &&& forall|t: Seq<char>, id: Seq<char>| #[trigger]
            listed(self.titled, t).contains(id) == (self.pages.contains_key(id)
                && self.pages[id].title_lower == t)
    }

    /// The two link tables say the same of every two pages, and no page links
    /// to itself.
    pub open spec fn keeps_links(self) -> bool {
        &&& none_empty(self.forward)
        &&& none_empty(self.back)
        &&& forall|a: Seq<char>, b: Seq<char>|
            listed(self.forward, a).contains(b) == listed(self.back, b).contains(a)
        &&& forall|a: Seq<char>| !(#[trigger] listed(self.forward, a)).contains(a)
        &&& forall|a: Seq<char>| (#[trigger] listed(self.forward, a)).no_duplicates()
        &&& forall|a: Seq<char>| (#[trigger] listed(self.back, a)).no_duplicates()
    }

    pub open spec fn wf(self) -> bool {
        &&& self.keeps_ids()
        &&& self.keeps_order()
        &&& self.keeps_titles()
        &&& self.keeps_links()
    }
}

/// What an index keeps to itself: where its pages lie, and the tables that its
/// methods maintain.
#[derive(Debug, Clone, PartialEq, Eq)]
pub struct IndexTables {
    root: String,
    /// Exact-title lookup index: lowercased title -> page ids sharing that title.
    title_index: StrMap<Vec<PageId>>,
    /// Reverse link index: target page id -> source page ids that link to it.
    backlinks: StrMap<Vec<PageId>>,
    /// Forward link index: source page id -> target page ids it links to.
    forward_links: StrMap<Vec<PageId>>,
}

impl IndexTables {
    /// The directory of the knowledge base.
    pub closed spec fn root_path(&self) -> Seq<char> {
        self.root@
    }

    /// The ids of the pages under each lowercased title.
    pub closed spec fn titled(&self) -> Lists {
        list_table(self.title_index)
    }

    /// The ids of the pages that each page links to.
    pub closed spec fn forward(&self) -> Lists {
        list_table(self.forward_links)
    }

    /// The ids of the pages that link to each page.
    pub closed spec fn back(&self) -> Lists {
        list_table(self.backlinks)
    }

    /// No table has a key twice.
    pub closed spec fn wf(&self) -> bool {
        &&& self.title_index.wf()
        &&& self.backlinks.wf()
        &&& self.forward_links.wf()
    }
}

/// Indexed knowledge base metadata with lazy page loading.
#[derive(Debug, Clone, PartialEq, Eq)]
pub struct KnowledgeBaseIndex {
    /// Metadata map keyed by canonical page id.
    pub pages: StrMap<PageMeta>,
    /// Page ids in case-insensitive title sort order, computed at open time,
    /// maintained by [`Self::register_page`].
    pub sorted_ids: Vec<PageId>,
    /// Non-fatal issues encountered while scanning metadata.
    pub index_issues: Vec<ParseIssue>,
    /// Ids claimed by more than one page file, captured when the knowledge base
    /// is opened.
    pub duplicate_ids: Vec<DuplicateId>,
    /// The tables that only the index maintains.
    pub tables: IndexTables,
}

impl View for KnowledgeBaseIndex {
    type V = IndexModel;

    open spec fn view(&self) -> IndexModel {
        IndexModel {
            root: self.tables.root_path(),
            pages: page_table(self.pages),
            order: views(self.sorted_ids@),
            titled: self.tables.titled(),
            forward: self.tables.forward(),
            back: self.tables.back(),
        }
    }
}

impl KnowledgeBaseIndex {
    /// What is in [`Self::index_issues`].
    pub open spec fn issues(&self) -> Seq<IssueModel> {
        issue_views(self.index_issues@)
    }

    /// What is in [`Self::duplicate_ids`].
    pub open spec fn duplicates(&self) -> Seq<DuplicateId> {
        self.duplicate_ids@
    }

    /// No map of the index has a key twice.
    pub open spec fn maps_wf(&self) -> bool {
        self.pages.wf() && self.tables.wf()
    }

    /// Whether the index is sound: its maps are, and what they hold fits together.
    pub open spec fn wf(&self) -> bool {
        self.maps_wf() && self@.wf()
    }

    /// What the contracts say of the index is said of its public fields: the pages
    /// are those of [`Self::pages`], their order that of [`Self::sorted_ids`], and
    /// each page stands under its id.
    pub proof fn fields_hold_the_pages(&self)
        ensures
            self@.pages == page_table(self.pages),
            self@.order == views(self.sorted_ids@),
            self.wf() ==> self.pages.wf() && forall|id: Seq<char>| #[trigger]
                self.pages.has(id) ==> self.pages.at(id)@.id == id && views(
                    self.sorted_ids@,
                ).contains(id),
    {
        if self.wf() {
            assert forall|id: Seq<char>| #[trigger] self.pages.has(id) implies self.pages.at(id)@.id
                == id && views(self.sorted_ids@).contains(id) by {
                assert(self@.pages.contains_key(id));
                assert(self@.order.contains(id) == self@.pages.contains_key(id));
            }
        }
    }
}

/// A set of page files that resolve to the same page id.
#[derive(Debug, Clone, PartialEq, Eq)]
pub struct DuplicateId {
    /// The shared page id.
    pub id: PageId,
    /// Paths of the files claiming this id, sorted.
    pub paths: Vec<String>,
}

// ---------------------------------------------------------------------------
// Scanning
// ---------------------------------------------------------------------------

/// A file of the knowledge base directory, and what reading its metadata gave.
#[derive(Debug, PartialEq, Eq)]
pub struct ScannedFile {
    pub path: String,
    pub meta: Result<RawMeta, String>,
}

/// Where the last component of a `/`-separated path starts, at `i` at the latest.
pub open spec fn name_start(path: Seq<char>, i: int) -> int
    decreases i,
{
    if i <= 0 || i > path.len() {
        0
    } else if path[i - 1] == '/' {
        i
    } else {
        name_start(path, i - 1)
    }
}

/// The last component of a path.
pub open spec fn file_name(path: Seq<char>) -> Seq<char> {
    path.skip(name_start(path, path.len() as int))
}

/// The name of a page file without its extension; none where the path is not
/// that of a page file.
pub open spec fn page_stem(path: Seq<char>) -> Option<Seq<char>> {
    let name = file_name(path);
    if ends_with(name, ".lepiter"@) && name.len() > 8 {
        Some(name.take(name.len() - 8))
    } else {
        None
    }
}

/// The name of a page file without its extension; none where the path is not
/// that of a page file.
pub fn page_file_stem(path: &str) -> (stem: Option<String>)
    ensures
        match stem {
            Some(s) => page_stem(path@) == Some(s@),
            None => page_stem(path@) is None,
        },
{
    let v = chars_of(path);
    let mut start: usize = v.len();
    while start > 0 && v[start - 1] != '/'
        invariant
            v@ == path@,
            start <= v@.len(),
            name_start(path@, start as int) == name_start(path@, path@.len() as int),
        decreases start,
    {
        start -= 1;
    }
    let name = string_of(&v, start, v.len());
    assert(name@ =~= file_name(path@));
    if !text_ends_with(name.as_str(), ".lepiter") || v.len() - start <= 8 {
        return None;
    }
    let stem = string_of(&v, start, v.len() - 8);
    assert(stem@ =~= file_name(path@).take(file_name(path@).len() - 8));
    Some(stem)
}

/// Metadata in which the file name stands for a missing id, and the id for a
/// missing title.
pub open spec fn completed(meta: MetaModel, stem: Seq<char>) -> MetaModel {
    let named = if meta.id.len() == 0 {
        MetaModel { id: stem, id_lower: lowercase(stem), ..meta }
    } else {
        meta
    };
    if named.title.len() == 0 {
        MetaModel { title: named.id, title_lower: lowercase(named.id), ..named }
    } else {
        named
    }
}

/// That a file claims an id.
#[verifier::ext_equal]
pub struct Claim {
    pub id: Seq<char>,
    pub path: Seq<char>,
}

/// What is said of a file that could not be read.
#[verifier::ext_equal]
pub struct IssueModel {
    pub path: Seq<char>,
    pub message: Seq<char>,
}

impl View for ParseIssue {
    type V = IssueModel;

    open spec fn view(&self) -> IssueModel {
        IssueModel { path: self.path@, message: self.message@ }
    }
}

pub open spec fn issue_views(v: Seq<ParseIssue>) -> Seq<IssueModel> {
    Seq::new(v.len(), |i: int| v[i]@)
}

/// What scanning files has found.
#[verifier::ext_equal]
pub struct Scan {
    pub pages: PageTable,
    pub claims: Seq<Claim>,
    pub issues: Seq<IssueModel>,
}

/// What one more file adds. Of two files with one id the later is kept.
pub open spec fn scanned_file(s: Scan, file: ScannedFile) -> Scan {
    match page_stem(file.path@) {
        None => s,
        Some(stem) => match file.meta {
            Ok(raw) => {
                let meta = completed(meta_of(raw, file.path@), stem);
                Scan {
                    pages: s.pages.insert(meta.id, meta),
                    claims: s.claims.push(Claim { id: meta.id, path: file.path@ }),
                    ..s
                }
            },
            Err(message) => Scan {
                issues: s.issues.push(IssueModel { path: file.path@, message: message@ }),
                ..s
            },
        },
    }
}

/// What scanning files finds.
pub open spec fn scanned(files: Seq<ScannedFile>) -> Scan
    decreases files.len(),
{
    if files.len() == 0 {
        Scan { pages: Map::empty(), claims: Seq::empty(), issues: Seq::empty() }
    } else {
        scanned_file(scanned(files.drop_last()), files.last())
    }
}

/// The paths of the files that claim an id.
pub open spec fn claims_of(claims: Seq<Claim>, id: Seq<char>) -> Seq<Seq<char>>
    decreases claims.len(),
{
    if claims.len() == 0 {
        Seq::empty()
    } else if claims.last().id == id {
        claims_of(claims.drop_last(), id).push(claims.last().path)
    } else {
        claims_of(claims.drop_last(), id)
    }
}

/// Whether `dupes` lists the ids that more than one file claims, by id, each
/// with the paths of its files in order.
pub open spec fn lists_duplicate_ids(dupes: Seq<DuplicateId>, claims: Seq<Claim>) -> bool {
    &&& forall|i: int, j: int|
        0 <= i < j < dupes.len() ==> (#[trigger] dupes[i]).id@ != (#[trigger] dupes[j]).id@
            && text_le(dupes[i].id@, dupes[j].id@)
    &&& forall|i: int|
        0 <= i < dupes.len() ==> is_sorting(
            views((#[trigger] dupes[i]).paths@),
            claims_of(claims, dupes[i].id@),
        )
    &&& forall|id: Seq<char>|
        #![trigger claims_of(claims, id)]
        (claims_of(claims, id).len() > 1) == (exists|i: int|
            0 <= i < dupes.len() && (#[trigger] dupes[i]).id@ == id)
}

/// Sorted [`DuplicateId`]s for every id claimed by more than one file.
fn collect_duplicate_ids(
    id_paths: &StrMap<Vec<String>>,
    Ghost(claims): Ghost<Seq<Claim>>,
) -> (dupes: Vec<DuplicateId>)
    requires
        id_paths.wf(),
        none_empty(list_table(*id_paths)),
        forall|id: Seq<char>| #[trigger]
            listed(list_table(*id_paths), id) == claims_of(claims, id),
    ensures
        lists_duplicate_ids(dupes@, claims),
{
    let ghost table = list_table(*id_paths);
    let mut ids: Vec<String> = Vec::new();
    let mut i: usize = 0;
    while i < id_paths.len()
        invariant
            id_paths.wf(),
            table == list_table(*id_paths),
            i <= id_paths.keys().len(),
            views(ids@).no_duplicates(),
            forall|k: int|
                0 <= k < ids@.len() ==> (exists|j: int|
                    0 <= j < i && (#[trigger] id_paths.keys()[j]) == (#[trigger] ids@[k])@),
            forall|k: int|
                0 <= k < ids@.len() ==> listed(table, (#[trigger] ids@[k])@).len() > 1,
            forall|j: int|
                0 <= j < i && listed(table, #[trigger] id_paths.keys()[j]).len() > 1
                    ==> views(ids@).contains(id_paths.keys()[j]),
        decreases id_paths.keys().len() - i,
    {
        proof {
            id_paths.lemma_at(i as int);
        }
        let ghost before = ids@;
        if id_paths.value_at(i).len() > 1 {
            let id = copy_of(id_paths.key_at(i));
            proof {
                lemma_views_push(before, id);
                assert forall|k: int| 0 <= k < before.len() implies views(before)[k] != id@ by {
                    let j = choose|j: int|
                        0 <= j < i && (#[trigger] id_paths.keys()[j]) == before[k]@;
                    assert(id_paths.keys()[j] != id_paths.keys()[i as int]);
                }
            }
            ids.push(id);
            proof {
                assert(views(ids@)[before.len() as int] == id@);
                assert forall|j: int|
                    0 <= j < i + 1 && listed(table, #[trigger] id_paths.keys()[j]).len()
                        > 1 implies views(ids@).contains(id_paths.keys()[j]) by {
                    if j < i {
                        let k = choose|k: int|
                            0 <= k < views(before).len() && views(before)[k] == id_paths.keys()[j];
                        assert(views(ids@)[k] == id_paths.keys()[j]);
                    }
                }
                assert forall|k: int| 0 <= k < ids@.len() implies (exists|j: int|
                    0 <= j < i + 1 && (#[trigger] id_paths.keys()[j]) == (#[trigger] ids@[k])@) by {
                    if k < before.len() {
                        assert(ids@[k] == before[k]);
                        let j = choose|j: int|
                            0 <= j < i && (#[trigger] id_paths.keys()[j]) == before[k]@;
                        assert(id_paths.keys()[j] == ids@[k]@);
                    } else {
                        assert(id_paths.keys()[i as int] == ids@[k]@);
                    }
                }
            }
        }
        i += 1;
    }
    let sorted = sorted_texts(&ids);
    proof {
        lemma_sorting(views(sorted@), views(ids@));
    }
    let mut dupes: Vec<DuplicateId> = Vec::new();
    let mut n: usize = 0;
    while n < sorted.len()
        invariant
            id_paths.wf(),
            table == list_table(*id_paths),
            n <= sorted@.len(),
            dupes@.len() == n,
            forall|k: int| 0 <= k < n ==> (#[trigger] dupes@[k]).id@ == sorted@[k]@,
            forall|k: int|
                0 <= k < n ==> is_sorting(
                    views((#[trigger] dupes@[k]).paths@),
                    listed(table, dupes@[k].id@),
                ),
        decreases sorted.len() - n,
    {
        let paths = list_at(id_paths, sorted[n].as_str());
        let paths = sorted_texts(&paths);
        dupes.push(DuplicateId { id: copy_of(sorted[n].as_str()), paths });
        n += 1;
    }
    proof {
        assert forall|i: int, j: int| 0 <= i < j < dupes@.len() implies (#[trigger] dupes@[i]).id@
            != (#[trigger] dupes@[j]).id@ && text_le(dupes@[i].id@, dupes@[j].id@) by {
            assert(views(sorted@)[i] == dupes@[i].id@);
            assert(views(sorted@)[j] == dupes@[j].id@);
        }
        assert forall|i: int| 0 <= i < dupes@.len() implies is_sorting(
            views((#[trigger] dupes@[i]).paths@),
            claims_of(claims, dupes@[i].id@),
        ) by {
            assert(listed(table, dupes@[i].id@) == claims_of(claims, dupes@[i].id@));
        }
        assert forall|id: Seq<char>|
            #![trigger claims_of(claims, id)]
            (claims_of(claims, id).len() > 1) == (exists|i: int|
                0 <= i < dupes@.len() && (#[trigger] dupes@[i]).id@ == id) by {
            assert(listed(table, id) == claims_of(claims, id));
            if claims_of(claims, id).len() > 1 {
                assert(id_paths.has(id));
                let j = id_paths.keys().index_of(id);
                assert(id_paths.keys()[j] == id);
                assert(views(ids@).contains(id));
                assert(views(sorted@).contains(id));
                let k = choose|k: int| 0 <= k < views(sorted@).len() && views(sorted@)[k] == id;
                assert(dupes@[k].id@ == id);
            }
            if exists|i: int| 0 <= i < dupes@.len() && (#[trigger] dupes@[i]).id@ == id {
                let i = choose|i: int| 0 <= i < dupes@.len() && (#[trigger] dupes@[i]).id@ == id;
                assert(views(sorted@)[i] == id);
                assert(views(sorted@).contains(id));
                assert(views(ids@).contains(id));
                let k = choose|k: int| 0 <= k < views(ids@).len() && views(ids@)[k] == id;
                assert(ids@[k]@ == id);
            }
        }
    }
    dupes
}

/// Pages of one title are pages of that title, each once.
pub proof fn lemma_with_title(pages: PageTable, ids: Seq<Seq<char>>, t: Seq<char>)
    ensures
        forall|id: Seq<char>| #[trigger]
            with_title(pages, ids, t).contains(id) == (ids.contains(id) && title_key(pages, id)
                == t),
        ids.no_duplicates() ==> with_title(pages, ids, t).no_duplicates(),
    decreases ids.len(),
{
    let all = with_title(pages, ids, t);
    if ids.len() > 0 {
        let rest = ids.drop_last();
        let last = ids.last();
        let before = with_title(pages, rest, t);
        lemma_with_title(pages, rest, t);
        assert(ids =~= rest.push(last));
        assert forall|id: Seq<char>| #[trigger]
            all.contains(id) == (ids.contains(id) && title_key(pages, id) == t) by {
            assert(ids[ids.len() - 1] == last);
            assert(before.contains(id) == (rest.contains(id) && title_key(pages, id) == t));
            if rest.contains(id) {
                let i = choose|i: int| 0 <= i < rest.len() && rest[i] == id;
                assert(ids[i] == id);
            }
            if ids.contains(id) && id != last {
                let i = choose|i: int| 0 <= i < ids.len() && ids[i] == id;
                assert(rest[i] == id);
            }
            if title_key(pages, last) == t {
                assert(all == before.push(last));
                assert(all[before.len() as int] == last);
                if before.contains(id) {
                    let i = choose|i: int| 0 <= i < before.len() && before[i] == id;
                    assert(all[i] == id);
                }
                if all.contains(id) && id != last {
                    let i = choose|i: int| 0 <= i < all.len() && all[i] == id;
                    assert(before[i] == id);
                }
            }
        }
        if ids.no_duplicates() {
            assert(rest.no_duplicates());
            assert(!rest.contains(last)) by {
                if rest.contains(last) {
                    let i = choose|i: int| 0 <= i < rest.len() && rest[i] == last;
                    assert(ids[i] == ids[ids.len() - 1]);
                }
            }
            assert(!before.contains(last));
            if title_key(pages, last) == t {
                assert forall|i: int, j: int|
                    0 <= i < all.len() && 0 <= j < all.len() && i != j implies all[i]
                    != all[j] by {
                    if i == before.len() {
                        assert(before.contains(before[j]));
                    }
                    if j == before.len() {
                        assert(before.contains(before[i]));
                    }
                }
            }
        }
    }
}

/// The ids under each title keep to the pages where the ids do.
pub proof fn lemma_by_title(m: IndexModel)
    requires
        m.keeps_order(),
        m.titled == by_title(m.pages, m.order),
    ensures
        m.keeps_titles(),
{
    let content = |t: Seq<char>| with_title(m.pages, m.order, t);
    assert forall|t: Seq<char>| (#[trigger] listed(m.titled, t)).no_duplicates() by {
        lemma_listed_of(content, t);
        lemma_with_title(m.pages, m.order, t);
    }
    assert forall|t: Seq<char>, id: Seq<char>| #[trigger]
        listed(m.titled, t).contains(id) == (m.pages.contains_key(id) && m.pages[id].title_lower
            == t) by {
        lemma_listed_of(content, t);
        lemma_with_title(m.pages, m.order, t);
        assert(m.order.contains(id) == m.pages.contains_key(id));
    }
    lemma_listed_of(content, Seq::empty());
}

/// Gives a page its metadata.
fn put_page(pages: &mut StrMap<PageMeta>, meta: PageMeta)
    requires
        old(pages).wf(),
    ensures
        final(pages).wf(),
        page_table(*final(pages)) == page_table(*old(pages)).insert(meta@.id, meta@),
{
    let ghost before = *pages;
    let id = copy_of(meta.id.as_str());
    pages.insert(id, meta);
    proof {
        let after = page_table(before).insert(meta@.id, meta@);
        assert forall|k: Seq<char>| #[trigger]
            page_table(*pages).contains_key(k) == after.contains_key(k) by {
            assert(pages.find(k) == if k == meta@.id {
                Some(meta)
            } else {
                before.find(k)
            });
        }
        assert forall|k: Seq<char>| #[trigger] page_table(*pages).contains_key(k) implies page_table(
            *pages,
        )[k] == after[k] by {
            assert(pages.find(k) == if k == meta@.id {
                Some(meta)
            } else {
                before.find(k)
            });
        }
        assert(page_table(*pages) =~= after);
    }
}

/// The lowercased title of a page, or nothing where there is no such page.
fn title_sort_key<'a>(pages: &'a StrMap<PageMeta>, id: &str) -> (key: &'a str)
    requires
        pages.wf(),
    ensures
        key@ == title_key(page_table(*pages), id@),
{
    match pages.get(id) {
        Some(m) => m.title_lower.as_str(),
        None => {
            proof {
                reveal_strlit("");
                assert(""@ =~= Seq::<char>::empty());
            }
            ""
        },
    }
}

/// The page ids in title order.
fn compute_sorted_ids(pages: &StrMap<PageMeta>) -> (ids: Vec<PageId>)
    requires
        pages.wf(),
    ensures
        views(ids@).no_duplicates(),
        forall|id: Seq<char>| #[trigger]
            views(ids@).contains(id) == page_table(*pages).contains_key(id),
        in_title_order(page_table(*pages), views(ids@)),
{
    let ghost table = page_table(*pages);
    let mut titles: Vec<String> = Vec::new();
    let mut i: usize = 0;
    while i < pages.len()
        invariant
            pages.wf(),
            table == page_table(*pages),
            i <= pages.keys().len(),
            titles@.len() == i,
            forall|k: int|
                0 <= k < i ==> (#[trigger] titles@[k])@ == title_key(table, pages.keys()[k]),
        decreases pages.keys().len() - i,
    {
        titles.push(copy_of(title_sort_key(pages, pages.key_at(i))));
        i += 1;
    }
    let order = sorted_text_order(&titles);
    let mut ids: Vec<PageId> = Vec::new();
    let mut n: usize = 0;
    while n < order.len()
        invariant
            pages.wf(),
            n <= order@.len(),
            forall|k: int| 0 <= k < order@.len() ==> (#[trigger] order@[k]) < pages.keys().len(),
            ids@.len() == n,
            forall|k: int| 0 <= k < n ==> (#[trigger] ids@[k])@ == pages.keys()[order@[k] as int],
        decreases order.len() - n,
    {
        ids.push(copy_of(pages.key_at(order[n])));
        n += 1;
    }
    proof {
        let out = views(ids@);
        let keys = pages.keys();
        assert forall|i: int, j: int|
            0 <= i < out.len() && 0 <= j < out.len() && i != j implies out[i] != out[j] by {
            assert(order@[i] != order@[j]);
            assert(out[i] == keys[order@[i] as int]);
            assert(out[j] == keys[order@[j] as int]);
        }
        assert forall|id: Seq<char>| #[trigger] out.contains(id) == table.contains_key(id) by {
            if out.contains(id) {
                let k = choose|k: int| 0 <= k < out.len() && out[k] == id;
                assert(out[k] == keys[order@[k] as int]);
                assert(keys.contains(id));
            }
            if table.contains_key(id) {
                let p = keys.index_of(id);
                lemma_all_listed(order@, keys.len(), p);
                let k = choose|k: int| 0 <= k < order@.len() && #[trigger] order@[k] == p;
                assert(out[k] == id);
            }
        }
        assert forall|i: int, j: int| 0 <= i < j < out.len() implies text_le(
            title_key(table, #[trigger] out[i]),
            title_key(table, #[trigger] out[j]),
        ) by {
            assert(comes_before(text_keys(views(titles@)), order@[i] as int, order@[j] as int));
            assert(out[i] == keys[order@[i] as int]);
            assert(out[j] == keys[order@[j] as int]);
            assert(titles@[order@[i] as int]@ == title_key(table, out[i]));
            assert(titles@[order@[j] as int]@ == title_key(table, out[j]));
        }
    }
    ids
}

/// Builds the exact-title lookup index keyed by lowercased title, with the ids
/// under each title in the order of `sorted_ids`.
fn compute_title_index(pages: &StrMap<PageMeta>, sorted_ids: &Vec<PageId>) -> (index: StrMap<
    Vec<PageId>,
>)
    requires
        pages.wf(),
    ensures
        index.wf(),
        list_table(index) == by_title(page_table(*pages), views(sorted_ids@)),
{
    let ghost table = page_table(*pages);
    let ghost all = views(sorted_ids@);
    let mut index: StrMap<Vec<PageId>> = StrMap::new();
    let mut i: usize = 0;
    assert(all.take(0) =~= Seq::<Seq<char>>::empty());
    while i < sorted_ids.len()
        invariant
            pages.wf(),
            index.wf(),
            table == page_table(*pages),
            all == views(sorted_ids@),
            i <= sorted_ids@.len(),
            none_empty(list_table(index)),
            forall|t: Seq<char>| #[trigger]
                listed(list_table(index), t) == with_title(table, all.take(i as int), t),
        decreases sorted_ids.len() - i,
    {
        let ghost before = list_table(index);
        let title = title_sort_key(pages, sorted_ids[i].as_str());
        proof {
            lemma_with_list(before, title@, listed(before, title@).push(all[i as int]));
            assert(all.take(i as int + 1).drop_last() =~= all.take(i as int));
        }
        add_to_list(&mut index, title, copy_of(sorted_ids[i].as_str()));
        proof {
            assert forall|t: Seq<char>| #[trigger]
                listed(list_table(index), t) == with_title(table, all.take(i as int + 1), t) by {
                assert(listed(before, t) == with_title(table, all.take(i as int), t));
            }
        }
        i += 1;
    }
    proof {
        assert(all.take(i as int) =~= all);
        lemma_lists_of(list_table(index), |t: Seq<char>| with_title(table, all, t));
    }
    index
}

/// Entry point for opening a knowledge base directory.
#[derive(Debug, Clone, Copy, PartialEq, Eq)]
pub struct KnowledgeBase;

fn complete_meta(path: &str, raw: &RawMeta, stem: &str) -> (meta: PageMeta)
    ensures
        meta@ == completed(meta_of(*raw, path@), stem@),
{
    let mut meta = parse_page_meta(path, raw);
    if meta.id.as_str().is_empty() {
        meta.id = copy_of(stem);
        meta.id_lower = to_lowercase(stem);
    }
    if meta.title.as_str().is_empty() {
        meta.title = copy_of(meta.id.as_str());
        meta.title_lower = to_lowercase(meta.id.as_str());
    }
    meta
}

proof fn lemma_scanned_ids(files: Seq<ScannedFile>)
    ensures
        forall|id: Seq<char>| #[trigger]
            scanned(files).pages.contains_key(id) ==> scanned(files).pages[id].id == id,
    decreases files.len(),
{
    if files.len() > 0 {
        lemma_scanned_ids(files.drop_last());
    }
}

/// The metadata of a file; none where it is not a page file or could not be
/// read.
pub open spec fn file_meta(file: ScannedFile) -> Option<MetaModel> {
    match page_stem(file.path@) {
        Some(stem) => match file.meta {
            Ok(raw) => Some(completed(meta_of(raw, file.path@), stem)),
            Err(_) => None,
        },
        None => None,
    }
}

/// No page file is lost: one whose metadata could be read claims its id, under
/// which there is a page, and is that page unless a later file has the id too.
/// One that could not be read is reported as an issue.
pub proof fn every_page_file_is_accounted_for(files: Seq<ScannedFile>, k: int)
    requires
        0 <= k < files.len(),
    ensures
        file_meta(files[k]) matches Some(meta) ==> {
            &&& scanned(files).pages.contains_key(meta.id)
            &&& scanned(files).claims.contains(Claim { id: meta.id, path: files[k].path@ })
            &&& (forall|j: int|
                k < j < files.len() ==> !(file_meta(#[trigger] files[j]) matches Some(other)
                    && other.id == meta.id)) ==> scanned(files).pages[meta.id] == meta
        },
        page_stem(files[k].path@) is Some ==> (files[k].meta matches Err(message) ==> scanned(
            files,
        ).issues.contains(IssueModel { path: files[k].path@, message: message@ })),
    decreases files.len(),
{
    let last = files.len() - 1;
    let before = scanned(files.drop_last());
    let after = scanned(files);
    if k == last {
        if file_meta(files[k]) is Some {
            assert(after.claims[before.claims.len() as int] == after.claims.last());
        } else if page_stem(files[k].path@) is Some {
            assert(after.issues[before.issues.len() as int] == after.issues.last());
        }
    } else {
        every_page_file_is_accounted_for(files.drop_last(), k);
        assert(files.drop_last()[k] == files[k]);
        if let Some(meta) = file_meta(files[k]) {
            let claim = Claim { id: meta.id, path: files[k].path@ };
            let at = before.claims.index_of(claim);
            assert(after.claims[at] == claim);
            if forall|j: int|
                k < j < files.len() ==> !(file_meta(#[trigger] files[j]) matches Some(other)
                    && other.id == meta.id) {
                assert forall|j: int| k < j < files.drop_last().len() implies !(file_meta(
                    #[trigger] files.drop_last()[j],
                ) matches Some(other) && other.id == meta.id) by {
                    assert(files.drop_last()[j] == files[j]);
                }
                assert(files[last] == files.last());
            }
        }
        if let Err(message) = files[k].meta {
            if page_stem(files[k].path@) is Some {
                let issue = IssueModel { path: files[k].path@, message: message@ };
                let at = before.issues.index_of(issue);
                assert(after.issues[at] == issue);
            }
        }
    }
}

/// Every page of the index is that of one of the files.
pub proof fn every_page_has_its_file(files: Seq<ScannedFile>, id: Seq<char>)
    requires
        scanned(files).pages.contains_key(id),
    ensures
        exists|k: int|
            0 <= k < files.len() && file_meta(#[trigger] files[k]) == Some(
                scanned(files).pages[id],
            ),
    decreases files.len(),
{
    let last = files.len() - 1;
    if file_meta(files[last]) matches Some(meta) && meta.id == id {
        assert(file_meta(files[last]) == Some(scanned(files).pages[id]));
    } else {
        every_page_has_its_file(files.drop_last(), id);
        let k = choose|k: int|
            0 <= k < files.drop_last().len() && file_meta(#[trigger] files.drop_last()[k]) == Some(
                scanned(files.drop_last()).pages[id],
            );
        assert(files[k] == files.drop_last()[k]);
    }
}

impl KnowledgeBase {
    /// Builds a page metadata index from the files of a knowledge base
    /// directory.
    ///
    /// Files that are not page files are passed over, and those whose metadata
    /// could not be read are reported as issues. Full content is parsed page by
    /// page, by [`KnowledgeBaseIndex::load_page`].
    pub fn open(root: &str, files: &Vec<ScannedFile>) -> (index: KnowledgeBaseIndex)
        ensures
            index.wf(),
            index@.root == root@,
            index@.pages == scanned(files@).pages,
            index@.titled == by_title(index@.pages, index@.order),
            index@.forward == Map::<Seq<char>, Seq<Seq<char>>>::empty(),
            index@.back == Map::<Seq<char>, Seq<Seq<char>>>::empty(),
            index.issues() == scanned(files@).issues,
            lists_duplicate_ids(index.duplicates(), scanned(files@).claims),
    {
        let mut pages: StrMap<PageMeta> = StrMap::new();
        let mut issues: Vec<ParseIssue> = Vec::new();
        let mut id_paths: StrMap<Vec<String>> = StrMap::new();
        let mut i: usize = 0;
        assert(files@.take(0) =~= Seq::<ScannedFile>::empty());
        assert(page_table(pages) =~= Map::<Seq<char>, MetaModel>::empty());
        assert(issue_views(issues@) =~= Seq::<IssueModel>::empty());
        while i < files.len()
            invariant
                i <= files@.len(),
                pages.wf(),
                id_paths.wf(),
                none_empty(list_table(id_paths)),
                page_table(pages) == scanned(files@.take(i as int)).pages,
                issue_views(issues@) == scanned(files@.take(i as int)).issues,
                forall|id: Seq<char>| #[trigger]
                    listed(list_table(id_paths), id) == claims_of(
                        scanned(files@.take(i as int)).claims,
                        id,
                    ),
            decreases files.len() - i,
        {
            let ghost before = scanned(files@.take(i as int));
            let ghost after = scanned(files@.take(i as int + 1));
            let ghost paths0 = list_table(id_paths);
            proof {
                assert(files@.take(i as int + 1).drop_last() =~= files@.take(i as int));
                assert(files@.take(i as int + 1).last() == files@[i as int]);
            }
            let path = files[i].path.as_str();
            if let Some(stem) = page_file_stem(path) {
                match &files[i].meta {
                    Ok(raw) => {
                        let meta = complete_meta(path, raw, stem.as_str());
                        proof {
                            lemma_with_list(
                                paths0,
                                meta@.id,
                                listed(paths0, meta@.id).push(path@),
                            );
                            assert(after.claims.drop_last() =~= before.claims);
                        }
                        add_to_list(&mut id_paths, meta.id.as_str(), copy_of(path));
                        put_page(&mut pages, meta);
                        proof {
                            assert forall|id: Seq<char>| #[trigger]
                                listed(list_table(id_paths), id) == claims_of(
                                    after.claims,
                                    id,
                                ) by {
                                assert(listed(paths0, id) == claims_of(before.claims, id));
                            }
                        }
                    },
                    Err(message) => {
                        let ghost issues0 = issues@;
                        issues.push(
                            ParseIssue { path: copy_of(path), message: copy_of(message.as_str()) },
                        );
                        assert(issue_views(issues@) =~= issue_views(issues0).push(
                            IssueModel { path: path@, message: message@ },
                        ));
                        assert(after.claims == before.claims);
                    },
                }
            } else {
                assert(after == before);
            }
            i += 1;
        }
        assert(files@.take(i as int) =~= files@);
        let sorted_ids = compute_sorted_ids(&pages);
        let title_index = compute_title_index(&pages, &sorted_ids);
        let duplicate_ids = collect_duplicate_ids(&id_paths, Ghost(scanned(files@).claims));
        let index = KnowledgeBaseIndex {
            pages,
            sorted_ids,
            index_issues: issues,
            duplicate_ids,
            tables: IndexTables {
                root: copy_of(root),
                title_index,
                backlinks: StrMap::new(),
                forward_links: StrMap::new(),
            },
        };
        proof {
            lemma_scanned_ids(files@);
            lemma_by_title(index@);
            assert(index@.forward =~= Map::<Seq<char>, Seq<Seq<char>>>::empty());
            assert(index@.back =~= Map::<Seq<char>, Seq<Seq<char>>>::empty());
        }
        index
    }
}

// ---------------------------------------------------------------------------
// Registering pages
// ---------------------------------------------------------------------------

/// The first place from `i` on whose page does not come before `key`.
pub open spec fn place_from(pages: PageTable, ids: Seq<Seq<char>>, key: Seq<char>, i: int) -> int
    decreases ids.len() - i,
{
    if 0 <= i < ids.len() && !text_le(key, title_key(pages, ids[i])) {
        place_from(pages, ids, key, i + 1)
    } else {
        i
    }
}

/// The ids with `id` before the first page whose title does not come before its
/// own.
pub open spec fn inserted(pages: PageTable, ids: Seq<Seq<char>>, id: Seq<char>) -> Seq<Seq<char>> {
    ids.insert(place_from(pages, ids, title_key(pages, id), 0), id)
}

proof fn lemma_place(pages: PageTable, ids: Seq<Seq<char>>, key: Seq<char>, i: int)
    requires
        0 <= i <= ids.len(),
    ensures
        ({
            let p = place_from(pages, ids, key, i);
            &&& i <= p <= ids.len()
            &&& forall|k: int| i <= k < p ==> !text_le(key, title_key(pages, #[trigger] ids[k]))
            &&& p < ids.len() ==> text_le(key, title_key(pages, ids[p]))
        }),
    decreases ids.len() - i,
{
    if i < ids.len() && !text_le(key, title_key(pages, ids[i])) {
        lemma_place(pages, ids, key, i + 1);
    }
}

/// Inserting an id adds that id and keeps title order.
pub proof fn lemma_inserted(pages: PageTable, ids: Seq<Seq<char>>, id: Seq<char>)
    ensures
        forall|x: Seq<char>| #[trigger]
            inserted(pages, ids, id).contains(x) == (ids.contains(x) || x == id),
        ids.no_duplicates() && !ids.contains(id) ==> inserted(pages, ids, id).no_duplicates(),
        in_title_order(pages, ids) ==> in_title_order(pages, inserted(pages, ids, id)),
{
    let key = title_key(pages, id);
    let p = place_from(pages, ids, key, 0);
    let out = inserted(pages, ids, id);
    lemma_place(pages, ids, key, 0);
    assert forall|x: Seq<char>| #[trigger] out.contains(x) == (ids.contains(x) || x == id) by {
        assert(out[p] == id);
        if ids.contains(x) {
            let k = choose|k: int| 0 <= k < ids.len() && ids[k] == x;
            if k < p {
                assert(out[k] == x);
            } else {
                assert(out[k + 1] == x);
            }
        }
        if out.contains(x) && x != id {
            let k = choose|k: int| 0 <= k < out.len() && out[k] == x;
            if k < p {
                assert(ids[k] == x);
            } else {
                assert(ids[k - 1] == x);
            }
        }
    }
    if ids.no_duplicates() && !ids.contains(id) {
        assert forall|i: int, j: int|
            0 <= i < out.len() && 0 <= j < out.len() && i != j implies out[i] != out[j] by {
            let i0 = if i < p {
                i
            } else {
                i - 1
            };
            let j0 = if j < p {
                j
            } else {
                j - 1
            };
            if i != p {
                assert(ids.contains(ids[i0]));
            }
            if j != p {
                assert(ids.contains(ids[j0]));
            }
        }
    }
    if in_title_order(pages, ids) {
        assert forall|i: int, j: int| 0 <= i < j < out.len() implies text_le(
            title_key(pages, #[trigger] out[i]),
            title_key(pages, #[trigger] out[j]),
        ) by {
            if j == p {
                assert(out[i] == ids[i]);
                lemma_text_le_total(title_key(pages, ids[i]), key);
            } else if i == p {
                assert(out[j] == ids[j - 1]);
                if j - 1 > p {
                    assert(text_le(title_key(pages, ids[p]), title_key(pages, ids[j - 1])));
                    lemma_text_le_transitive(
                        key,
                        title_key(pages, ids[p]),
                        title_key(pages, ids[j - 1]),
                    );
                }
            } else {
                let i0 = if i < p {
                    i
                } else {
                    i - 1
                };
                let j0 = if j < p {
                    j
                } else {
                    j - 1
                };
                assert(out[i] == ids[i0]);
                assert(out[j] == ids[j0]);
            }
        }
    }
}

/// Leaving ids out keeps title order.
pub proof fn lemma_order_without(pages: PageTable, ids: Seq<Seq<char>>, t: Seq<char>)
    requires
        in_title_order(pages, ids),
    ensures
        in_title_order(pages, without(ids, t)),
    decreases ids.len(),
{
    if ids.len() > 0 {
        let rest = ids.drop_last();
        let last = ids.last();
        assert forall|i: int, j: int| 0 <= i < j < rest.len() implies text_le(
            title_key(pages, #[trigger] rest[i]),
            title_key(pages, #[trigger] rest[j]),
        ) by {
            assert(rest[i] == ids[i]);
            assert(rest[j] == ids[j]);
        }
        lemma_order_without(pages, rest, t);
        lemma_without(rest, t);
        if last != t {
            let kept = without(rest, t);
            let out = kept.push(last);
            assert forall|i: int, j: int| 0 <= i < j < out.len() implies text_le(
                title_key(pages, #[trigger] out[i]),
                title_key(pages, #[trigger] out[j]),
            ) by {
                assert(out[i] == kept[i]);
                if j == kept.len() {
                    assert(kept.contains(kept[i]));
                    assert(rest.contains(kept[i]));
                    let k = choose|k: int| 0 <= k < rest.len() && rest[k] == kept[i];
                    assert(ids[k] == kept[i]);
                    assert(ids[ids.len() - 1] == last);
                } else {
                    assert(out[j] == kept[j]);
                }
            }
        }
    }
}

/// Inserts `source_id` at the place that keeps `sources` in title order.
fn insert_sorted_by_title(sources: &mut Vec<PageId>, pages: &StrMap<PageMeta>, source_id: PageId)
    requires
        pages.wf(),
    ensures
        views(final(sources)@) == inserted(page_table(*pages), views(old(sources)@), source_id@),
{
    let ghost table = page_table(*pages);
    let ghost ids = views(sources@);
    let key = copy_of(title_sort_key(pages, source_id.as_str()));
    let mut p: usize = 0;
    while p < sources.len() && !not_after(
        key.as_str(),
        title_sort_key(pages, sources[p].as_str()),
    )
        invariant
            pages.wf(),
            table == page_table(*pages),
            ids == views(sources@),
            p <= sources@.len(),
            place_from(table, ids, key@, 0) == place_from(table, ids, key@, p as int),
        decreases sources.len() - p,
    {
        p += 1;
    }
    let ghost before = sources@;
    sources.insert(p, source_id);
    assert(views(sources@) =~= views(before).insert(p as int, source_id@));
}

/// The ids under each title once a page has the metadata `meta`.
pub open spec fn retitled(m: IndexModel, meta: MetaModel) -> Lists {
    if m.pages.contains_key(meta.id) && m.pages[meta.id].title_lower == meta.title_lower {
        m.titled
    } else {
        let cleared = if m.pages.contains_key(meta.id) {
            let stale = m.pages[meta.id].title_lower;
            with_list(m.titled, stale, without(listed(m.titled, stale), meta.id))
        } else {
            m.titled
        };
        with_list(cleared, meta.title_lower, listed(cleared, meta.title_lower).push(meta.id))
    }
}

/// An index once a page has the metadata `meta`.
pub open spec fn registered(m: IndexModel, meta: MetaModel) -> IndexModel {
    let pages = m.pages.insert(meta.id, meta);
    IndexModel {
        pages,
        order: inserted(pages, without(m.order, meta.id), meta.id),
        titled: retitled(m, meta),
        ..m
    }
}

proof fn lemma_retitled(m: IndexModel, meta: MetaModel)
    requires
        m.wf(),
    ensures
        registered(m, meta).keeps_titles(),
{
    let r = registered(m, meta);
    let id = meta.id;
    let t = meta.title_lower;
    if m.pages.contains_key(id) && m.pages[id].title_lower == t {
        assert forall|t0: Seq<char>, x: Seq<char>| #[trigger]
            listed(r.titled, t0).contains(x) == (r.pages.contains_key(x) && r.pages[x].title_lower
                == t0) by {
            assert(listed(m.titled, t0).contains(x) == (m.pages.contains_key(x)
                && m.pages[x].title_lower == t0));
        }
    } else {
        let stale = m.pages[id].title_lower;
        let cleared = if m.pages.contains_key(id) {
            lemma_without(listed(m.titled, stale), id);
            lemma_with_list(m.titled, stale, without(listed(m.titled, stale), id));
            with_list(m.titled, stale, without(listed(m.titled, stale), id))
        } else {
            m.titled
        };
        // no list holds the id once it is cleared
        assert forall|t0: Seq<char>, x: Seq<char>| #[trigger]
            listed(cleared, t0).contains(x) == (x != id && m.pages.contains_key(x)
                && m.pages[x].title_lower == t0) by {
            assert(listed(m.titled, t0).contains(x) == (m.pages.contains_key(x)
                && m.pages[x].title_lower == t0));
            if m.pages.contains_key(id) && t0 == stale {
                assert(listed(cleared, t0) == without(listed(m.titled, stale), id));
            } else {
                assert(listed(cleared, t0) == listed(m.titled, t0));
            }
        }
        assert forall|t0: Seq<char>| (#[trigger] listed(cleared, t0)).no_duplicates() by {
            assert(listed(m.titled, t0).no_duplicates());
        }
        let list = listed(cleared, t).push(id);
        lemma_with_list(cleared, t, list);
        assert forall|x: Seq<char>| list.contains(x) == (listed(cleared, t).contains(x) || x
            == id) by {
            assert(list[list.len() - 1] == id);
            if listed(cleared, t).contains(x) {
                let k = choose|k: int|
                    0 <= k < listed(cleared, t).len() && listed(cleared, t)[k] == x;
                assert(list[k] == x);
            }
        }
        assert forall|t0: Seq<char>, x: Seq<char>| #[trigger]
            listed(r.titled, t0).contains(x) == (r.pages.contains_key(x) && r.pages[x].title_lower
                == t0) by {
            assert(listed(cleared, t0).contains(x) == (x != id && m.pages.contains_key(x)
                && m.pages[x].title_lower == t0));
            if t0 == t {
                assert(list.contains(x) == (listed(cleared, t).contains(x) || x == id));
            }
        }
        assert forall|t0: Seq<char>| (#[trigger] listed(r.titled, t0)).no_duplicates() by {
            assert(listed(cleared, t0).no_duplicates());
            if t0 == t {
                let old_list = listed(cleared, t);
                assert(!old_list.contains(id));
                assert forall|i: int, j: int|
                    0 <= i < list.len() && 0 <= j < list.len() && i != j implies list[i]
                    != list[j] by {
                    if i == old_list.len() {
                        assert(old_list.contains(old_list[j]));
                    }
                    if j == old_list.len() {
                        assert(old_list.contains(old_list[i]));
                    }
                }
            }
        }
    }
}

/// Registering a page keeps the ids in title order, each once; keeps the titles
/// in step with the pages; and leaves the links alone.
pub proof fn registering_keeps_the_index(m: IndexModel, meta: MetaModel)
    requires
        m.wf(),
    ensures
        registered(m, meta).wf(),
        registered(m, meta).order.contains(meta.id),
        forall|id: Seq<char>|
            id != meta.id ==> (#[trigger] registered(m, meta).order.contains(id)
                == m.order.contains(id)),
{
    let r = registered(m, meta);
    let kept = without(m.order, meta.id);
    lemma_without(m.order, meta.id);
    assert(in_title_order(r.pages, kept)) by {
        lemma_order_without(m.pages, m.order, meta.id);
        assert forall|i: int, j: int| 0 <= i < j < kept.len() implies text_le(
            title_key(r.pages, #[trigger] kept[i]),
            title_key(r.pages, #[trigger] kept[j]),
        ) by {
            assert(kept.contains(kept[i]));
            assert(kept.contains(kept[j]));
            assert(title_key(r.pages, kept[i]) == title_key(m.pages, kept[i]));
            assert(title_key(r.pages, kept[j]) == title_key(m.pages, kept[j]));
        }
    }
    lemma_inserted(r.pages, kept, meta.id);
    lemma_retitled(m, meta);
    assert forall|id: Seq<char>| #[trigger] r.order.contains(id) == r.pages.contains_key(id) by {
        assert(m.order.contains(id) == m.pages.contains_key(id));
        if id != meta.id {
            assert(without(m.order, meta.id).contains(id) == m.order.contains(id));
        }
    }
    assert forall|id: Seq<char>| id != meta.id implies (#[trigger] r.order.contains(id)
        == m.order.contains(id)) by {
        assert(without(m.order, meta.id).contains(id) == m.order.contains(id));
    }
}

/// Registering a page again with the same metadata changes nothing but its
/// place among pages of the same title.
pub proof fn registering_again_keeps_pages(m: IndexModel, meta: MetaModel)
    requires
        m.wf(),
        m.pages.contains_key(meta.id),
        m.pages[meta.id] == meta,
    ensures
        registered(m, meta).pages == m.pages,
        registered(m, meta).titled == m.titled,
        registered(m, meta).order.len() == m.order.len(),
{
    assert(m.pages.insert(meta.id, meta) =~= m.pages);
    lemma_without_one(m.order, meta.id);
    assert(m.order.contains(meta.id));
    lemma_place(
        m.pages,
        without(m.order, meta.id),
        title_key(m.pages, meta.id),
        0,
    );
}

impl KnowledgeBaseIndex {
    /// Registers a page in the index, inserting it at the correct sorted
    /// position. If the page already exists, its old sort position is removed
    /// first so re-registration never creates duplicates (and handles title
    /// changes correctly).
    ///
    /// The exact-title index is kept in sync as well: on a title change the
    /// page id is moved from its stale title bucket to the new one, and
    /// now-empty buckets are dropped.
    pub fn register_page(&mut self, meta: PageMeta)
        requires
            old(self).wf(),
        ensures
            final(self).wf(),
            final(self)@ == registered(old(self)@, meta@),
            final(self).issues() == old(self).issues(),
            final(self).duplicates() == old(self).duplicates(),
    {
        let ghost before = self@;
        let ghost held = meta@;
        let id = copy_of(meta.id.as_str());
        let title = copy_of(meta.title_lower.as_str());
        let stale: Option<String> = match self.pages.get(id.as_str()) {
            Some(m) => Some(copy_of(m.title_lower.as_str())),
            None => None,
        };
        let mut order = texts_without(&self.sorted_ids, id.as_str());
        put_page(&mut self.pages, meta);
        insert_sorted_by_title(&mut order, &self.pages, copy_of(id.as_str()));
        self.sorted_ids = order;
        let moved = match &stale {
            Some(t) => !same_text(t.as_str(), title.as_str()),
            None => true,
        };
        if moved {
            if let Some(t) = &stale {
                let bucket = list_at(&self.tables.title_index, t.as_str());
                let rest = texts_without(&bucket, id.as_str());
                put_list(&mut self.tables.title_index, t.as_str(), rest);
            }
            add_to_list(&mut self.tables.title_index, title.as_str(), id);
        }
        proof {
            registering_keeps_the_index(before, held);
            assert(self@ =~= registered(before, held));
        }
    }
}

// ---------------------------------------------------------------------------
// Loading pages
// ---------------------------------------------------------------------------

/// What reading a page file gave: the decoded page, or why it could not be read.
#[derive(Debug, Clone, PartialEq, Eq)]
pub enum PageSource {
    Raw(Json),
    Failed(String),
}

/// What a [`PageSource`] holds.
#[verifier::ext_equal]
pub enum SourceModel {
    Raw(JsonModel),
    Failed(Seq<char>),
}

impl View for PageSource {
    type V = SourceModel;

    open spec fn view(&self) -> SourceModel {
        match self {
            PageSource::Raw(raw) => SourceModel::Raw(raw@),
            PageSource::Failed(message) => SourceModel::Failed(message@),
        }
    }
}

/// What reading each page gave, by page id.
pub type SourceTable = Map<Seq<char>, SourceModel>;

pub open spec fn source_table(m: StrMap<PageSource>) -> SourceTable {
    Map::new(|k: Seq<char>| m.has(k), |k: Seq<char>| m.at(k)@)
}

/// The page with metadata `meta` and the content of a page file.
pub open spec fn page_of(meta: MetaModel, raw: JsonModel) -> PageModel {
    PageModel {
        id: meta.id,
        title: meta.title,
        updated_at: meta.updated_at,
        tags: meta.tags,
        content: page_content(raw),
    }
}

/// What loading a page gives: an error where the index has no such page, or
/// where its file could not be read.
pub open spec fn loaded(pages: PageTable, id: Seq<char>, source: SourceModel) -> Result<
    PageModel,
    Seq<char>,
> {
    if !pages.contains_key(id) {
        Err("page id not found: "@ + id)
    } else {
        match source {
            SourceModel::Raw(raw) => Ok(page_of(pages[id], raw)),
            SourceModel::Failed(message) => Err(message),
        }
    }
}

/// What reading a page gave.
pub open spec fn source_of(sources: SourceTable, id: Seq<char>) -> SourceModel {
    if sources.contains_key(id) {
        sources[id]
    } else {
        SourceModel::Failed("page file was not read"@)
    }
}

pub open spec fn page_result(r: Result<Page, String>) -> Result<PageModel, Seq<char>> {
    match r {
        Ok(page) => Ok(page@),
        Err(message) => Err(message@),
    }
}

impl KnowledgeBaseIndex {
    /// Parses a single page by canonical id.
    ///
    /// Returns an error if the id is missing from the index or if the page file
    /// could not be read.
    pub fn load_page(&self, id: &str, source: &PageSource) -> (page: Result<Page, String>)
        requires
            self.wf(),
        ensures
            page_result(page) == loaded(self@.pages, id@, source@),
    {
        match self.pages.get(id) {
            None => {
                let mut message = String::new();
                message.push_str("page id not found: ");
                message.push_str(id);
                assert(message@ =~= "page id not found: "@ + id@);
                Err(message)
            },
            Some(meta) => match source {
                PageSource::Raw(raw) => Ok(
                    Page {
                        id: copy_of(meta.id.as_str()),
                        title: copy_of(meta.title.as_str()),
                        updated_at: meta.updated_at,
                        tags: copy_texts(&meta.tags),
                        content: parse_page_content(raw),
                    },
                ),
                PageSource::Failed(message) => Err(copy_of(message.as_str())),
            },
        }
    }

    /// Parses a single page out of pages that were read.
    pub fn load_from(&self, id: &str, sources: &StrMap<PageSource>) -> (page: Result<Page, String>)
        requires
            self.wf(),
            sources.wf(),
        ensures
            page_result(page) == loaded(
                self@.pages,
                id@,
                source_of(source_table(*sources), id@),
            ),
    {
        match sources.get(id) {
            Some(source) => self.load_page(id, source),
            None => {
                let source = PageSource::Failed(copy_of("page file was not read"));
                self.load_page(id, &source)
            },
        }
    }

    /// The metadata of a page.
    pub fn page_meta(&self, id: &str) -> (meta: Option<&PageMeta>)
        requires
            self.wf(),
        ensures
            match meta {
                Some(m) => self@.pages.contains_key(id@) && m@ == self@.pages[id@],
                None => !self@.pages.contains_key(id@),
            },
    {
        self.pages.get(id)
    }

    /// The page ids, in title order.
    pub fn ordered_ids(&self) -> (ids: Vec<PageId>)
        ensures
            views(ids@) == self@.order,
    {
        copy_texts(&self.sorted_ids)
    }

    /// How many pages there are.
    pub fn page_count(&self) -> (n: usize)
        requires
            self.wf(),
        ensures
            n == self@.order.len(),
    {
        self.sorted_ids.len()
    }

    /// Returns the root path used to build this index.
    pub fn root(&self) -> (path: &str)
        ensures
            path@ == self@.root,
    {
        self.tables.root.as_str()
    }

    /// Returns an attachment resolver rooted at this knowledge base.
    pub fn attachment_resolver(&self) -> (resolver: AttachmentResolver)
        ensures
            resolver.root_path() == self@.root,
    {
        AttachmentResolver::new(self.tables.root.as_str())
    }

    /// Returns metadata entries in cached title-sorted order.
    pub fn sorted_pages(&self) -> (metas: Vec<&PageMeta>)
        requires
            self.wf(),
        ensures
            metas@.len() == self@.order.len(),
            forall|i: int|
                0 <= i < metas@.len() ==> (#[trigger] metas@[i])@ == self@.pages[self@.order[i]],
    {
        let mut metas: Vec<&PageMeta> = Vec::new();
        let mut i: usize = 0;
        while i < self.sorted_ids.len()
            invariant
                self.wf(),
                i <= self.sorted_ids@.len(),
                metas@.len() == i,
                forall|k: int|
                    0 <= k < i ==> (#[trigger] metas@[k])@ == self@.pages[self@.order[k]],
            decreases self.sorted_ids.len() - i,
        {
            assert(self@.order[i as int] == self.sorted_ids@[i as int]@);
            assert(self@.order.contains(self@.order[i as int]));
            if let Some(meta) = self.pages.get(self.sorted_ids[i].as_str()) {
                metas.push(meta);
            }
            i += 1;
        }
        metas
    }
}

// ---------------------------------------------------------------------------
// Searching
// ---------------------------------------------------------------------------

/// Whether one of `texts` holds `needle`.
pub open spec fn any_holds(texts: Seq<Seq<char>>, needle: Seq<char>) -> bool {
    exists|i: int| 0 <= i < texts.len() && contains(#[trigger] texts[i], needle)
}

/// How the metadata of a page match a lowercased text: in the title or the id,
/// else in a tag.
pub open spec fn meta_match(meta: MetaModel, needle: Seq<char>) -> Option<SearchMatchKind> {
    if contains(meta.title_lower, needle) || contains(meta.id_lower, needle) {
        Some(SearchMatchKind::Title)
    } else if any_holds(meta.tags_lower, needle) {
        Some(SearchMatchKind::Tag)
    } else {
        None
    }
}

/// The text that a query looks for.
pub open spec fn needle_of(query: Seq<char>) -> Seq<char> {
    lowercase(trimmed(query))
}

/// The ids of the pages whose metadata match.
pub open spec fn matching_ids(pages: PageTable, ids: Seq<Seq<char>>, needle: Seq<char>) -> Seq<
    Seq<char>,
>
    decreases ids.len(),
{
    if ids.len() == 0 {
        Seq::empty()
    } else {
        let before = matching_ids(pages, ids.drop_last(), needle);
        if meta_match(pages[ids.last()], needle) is Some {
            before.push(ids.last())
        } else {
            before
        }
    }
}

/// The pages whose metadata match, each with how it matches.
pub open spec fn matching_kinds(pages: PageTable, ids: Seq<Seq<char>>, needle: Seq<char>) -> Seq<
    HitModel,
>
    decreases ids.len(),
{
    if ids.len() == 0 {
        Seq::empty()
    } else {
        let before = matching_kinds(pages, ids.drop_last(), needle);
        match meta_match(pages[ids.last()], needle) {
            Some(kind) => before.push(HitModel { id: ids.last(), kind }),
            None => before,
        }
    }
}

/// How a page matches: by its metadata, else, where content counts and the page
/// can be loaded, by its content.
pub open spec fn page_match(
    pages: PageTable,
    sources: SourceTable,
    with_content: bool,
    needle: Seq<char>,
    id: Seq<char>,
) -> Option<SearchMatchKind> {
    match meta_match(pages[id], needle) {
        Some(kind) => Some(kind),
        None => match loaded(pages, id, source_of(sources, id)) {
            Ok(page) => if with_content && content_mentions(page.content, needle) {
                Some(SearchMatchKind::Content)
            } else {
                None
            },
            Err(_) => None,
        },
    }
}

/// The pages among `ids` that match in the way `kind`.
pub open spec fn hits_of_kind(
    pages: PageTable,
    sources: SourceTable,
    with_content: bool,
    needle: Seq<char>,
    ids: Seq<Seq<char>>,
    kind: SearchMatchKind,
) -> Seq<HitModel>
    decreases ids.len(),
{
    if ids.len() == 0 {
        Seq::empty()
    } else {
        let before = hits_of_kind(pages, sources, with_content, needle, ids.drop_last(), kind);
        if page_match(pages, sources, with_content, needle, ids.last()) == Some(kind) {
            before.push(HitModel { id: ids.last(), kind })
        } else {
            before
        }
    }
}

/// What a search finds: matches in the title, then in tags, then in the
/// content, each in title order.
pub open spec fn found_hits(
    m: IndexModel,
    sources: SourceTable,
    with_content: bool,
    query: Seq<char>,
) -> Seq<HitModel> {
    let needle = needle_of(query);
    if needle.len() == 0 {
        Seq::empty()
    } else {
        hits_of_kind(m.pages, sources, with_content, needle, m.order, SearchMatchKind::Title)
            + hits_of_kind(m.pages, sources, with_content, needle, m.order, SearchMatchKind::Tag)
            + hits_of_kind(
            m.pages,
            sources,
            with_content,
            needle,
            m.order,
            SearchMatchKind::Content,
        )
    }
}

/// Ids with their match kinds.
pub open spec fn scored_views(v: Seq<(PageId, SearchMatchKind)>) -> Seq<HitModel> {
    Seq::new(v.len(), |i: int| HitModel { id: v[i].0@, kind: v[i].1 })
}

pub(crate) fn page_meta_match_kind(meta: &PageMeta, needle: &str) -> (kind: Option<SearchMatchKind>)
    ensures
        kind == meta_match(meta@, needle@),
{
    if text_contains(meta.title_lower.as_str(), needle) || text_contains(
        meta.id_lower.as_str(),
        needle,
    ) {
        return Some(SearchMatchKind::Title);
    }
    let mut i: usize = 0;
    while i < meta.tags_lower.len()
        invariant
            i <= meta.tags_lower@.len(),
            !contains(meta@.title_lower, needle@),
            !contains(meta@.id_lower, needle@),
            forall|k: int| 0 <= k < i ==> !contains(#[trigger] meta@.tags_lower[k], needle@),
        decreases meta.tags_lower.len() - i,
    {
        if text_contains(meta.tags_lower[i].as_str(), needle) {
            assert(contains(meta@.tags_lower[i as int], needle@));
            return Some(SearchMatchKind::Tag);
        }
        i += 1;
    }
    None
}

impl KnowledgeBaseIndex {
    /// Returns page ids filtered by metadata query (title/id/tags), sorted by
    /// title. A blank query keeps every page.
    pub fn filter_page_ids(&self, query: &str) -> (ids: Vec<PageId>)
        requires
            self.wf(),
        ensures
            views(ids@) == if needle_of(query@).len() == 0 {
                self@.order
            } else {
                matching_ids(self@.pages, self@.order, needle_of(query@))
            },
    {
        let needle = to_lowercase(trim(query).as_str());
        if needle.as_str().is_empty() {
            return copy_texts(&self.sorted_ids);
        }
        let ghost all = self@.order;
        let mut ids: Vec<PageId> = Vec::new();
        let mut i: usize = 0;
        assert(all.take(0) =~= Seq::<Seq<char>>::empty());
        assert(views(ids@) =~= Seq::<Seq<char>>::empty());
        while i < self.sorted_ids.len()
            invariant
                self.wf(),
                all == self@.order,
                i <= self.sorted_ids@.len(),
                views(ids@) == matching_ids(self@.pages, all.take(i as int), needle@),
            decreases self.sorted_ids.len() - i,
        {
            assert(all.take(i as int + 1).drop_last() =~= all.take(i as int));
            assert(all[i as int] == self.sorted_ids@[i as int]@);
            assert(all.contains(all[i as int]));
            if let Some(meta) = self.pages.get(self.sorted_ids[i].as_str()) {
                if page_meta_match_kind(meta, needle.as_str()).is_some() {
                    let id = copy_of(self.sorted_ids[i].as_str());
                    proof {
                        lemma_views_push(ids@, id);
                    }
                    ids.push(id);
                }
            }
            i += 1;
        }
        assert(all.take(i as int) =~= all);
        ids
    }

    /// Returns page ids with their match kinds, filtered by metadata query.
    pub fn filter_page_ids_scored(&self, query: &str) -> (hits: Vec<(PageId, SearchMatchKind)>)
        requires
            self.wf(),
        ensures
            scored_views(hits@) == if needle_of(query@).len() == 0 {
                Seq::empty()
            } else {
                matching_kinds(self@.pages, self@.order, needle_of(query@))
            },
    {
        let needle = to_lowercase(trim(query).as_str());
        let mut hits: Vec<(PageId, SearchMatchKind)> = Vec::new();
        assert(scored_views(hits@) =~= Seq::<HitModel>::empty());
        if needle.as_str().is_empty() {
            return hits;
        }
        let ghost all = self@.order;
        let mut i: usize = 0;
        assert(all.take(0) =~= Seq::<Seq<char>>::empty());
        while i < self.sorted_ids.len()
            invariant
                self.wf(),
                all == self@.order,
                i <= self.sorted_ids@.len(),
                scored_views(hits@) == matching_kinds(self@.pages, all.take(i as int), needle@),
            decreases self.sorted_ids.len() - i,
        {
            assert(all.take(i as int + 1).drop_last() =~= all.take(i as int));
            assert(all[i as int] == self.sorted_ids@[i as int]@);
            assert(all.contains(all[i as int]));
            let ghost before = hits@;
            if let Some(meta) = self.pages.get(self.sorted_ids[i].as_str()) {
                if let Some(kind) = page_meta_match_kind(meta, needle.as_str()) {
                    hits.push((copy_of(self.sorted_ids[i].as_str()), kind));
                    assert(scored_views(hits@) =~= scored_views(before).push(
                        HitModel { id: all[i as int], kind },
                    ));
                }
            }
            i += 1;
        }
        assert(all.take(i as int) =~= all);
        hits
    }

    /// How one page matches.
    fn match_page(
        &self,
        id: &str,
        needle: &str,
        include_content: bool,
        sources: &StrMap<PageSource>,
    ) -> (kind: Option<SearchMatchKind>)
        requires
            self.wf(),
            sources.wf(),
            self@.pages.contains_key(id@),
        ensures
            kind == page_match(
                self@.pages,
                source_table(*sources),
                include_content,
                needle@,
                id@,
            ),
    {
        if let Some(meta) = self.pages.get(id) {
            if let Some(kind) = page_meta_match_kind(meta, needle) {
                return Some(kind);
            }
        }
        if !include_content {
            return None;
        }
        match self.load_from(id, sources) {
            Ok(page) => if page_content_contains(&page, needle) {
                Some(SearchMatchKind::Content)
            } else {
                None
            },
            Err(_) => None,
        }
    }

    /// Searches pages by metadata and optionally content, returning hits
    /// ranked by relevance (title > tag > content), with ties broken
    /// alphabetically by title.
    pub fn search_hits(
        &self,
        query: &str,
        include_content: bool,
        sources: &StrMap<PageSource>,
    ) -> (hits: Vec<SearchHit>)
        requires
            self.wf(),
            sources.wf(),
        ensures
            hit_views(hits@) == found_hits(
                self@,
                source_table(*sources),
                include_content,
                query@,
            ),
    {
        let needle = to_lowercase(trim(query).as_str());
        let mut hits: Vec<SearchHit> = Vec::new();
        assert(hit_views(hits@) =~= Seq::<HitModel>::empty());
        if needle.as_str().is_empty() {
            return hits;
        }
        let ghost all = self@.order;
        let ghost table = source_table(*sources);
        let mut tagged: Vec<SearchHit> = Vec::new();
        let mut inside: Vec<SearchHit> = Vec::new();
        let mut i: usize = 0;
        assert(all.take(0) =~= Seq::<Seq<char>>::empty());
        assert(hit_views(tagged@) =~= Seq::<HitModel>::empty());
        assert(hit_views(inside@) =~= Seq::<HitModel>::empty());
        while i < self.sorted_ids.len()
            invariant
                self.wf(),
                sources.wf(),
                all == self@.order,
                table == source_table(*sources),
                i <= self.sorted_ids@.len(),
                hit_views(hits@) == hits_of_kind(
                    self@.pages,
                    table,
                    include_content,
                    needle@,
                    all.take(i as int),
                    SearchMatchKind::Title,
                ),
                hit_views(tagged@) == hits_of_kind(
                    self@.pages,
                    table,
                    include_content,
                    needle@,
                    all.take(i as int),
                    SearchMatchKind::Tag,
                ),
                hit_views(inside@) == hits_of_kind(
                    self@.pages,
                    table,
                    include_content,
                    needle@,
                    all.take(i as int),
                    SearchMatchKind::Content,
                ),
            decreases self.sorted_ids.len() - i,
        {
            assert(all.take(i as int + 1).drop_last() =~= all.take(i as int));
            assert(all.take(i as int + 1).last() == all[i as int]);
            assert(all[i as int] == self.sorted_ids@[i as int]@);
            assert(all.contains(all[i as int]));
            let id = self.sorted_ids[i].as_str();
            let ghost at = all[i as int];
            let ghost hits0 = hits@;
            let ghost tagged0 = tagged@;
            let ghost inside0 = inside@;
            match self.match_page(id, needle.as_str(), include_content, sources) {
                Some(SearchMatchKind::Title) => {
                    hits.push(SearchHit { id: copy_of(id), kind: SearchMatchKind::Title });
                    assert(hit_views(hits@) =~= hit_views(hits0).push(
                        HitModel { id: at, kind: SearchMatchKind::Title },
                    ));
                },
                Some(SearchMatchKind::Tag) => {
                    tagged.push(SearchHit { id: copy_of(id), kind: SearchMatchKind::Tag });
                    assert(hit_views(tagged@) =~= hit_views(tagged0).push(
                        HitModel { id: at, kind: SearchMatchKind::Tag },
                    ));
                },
                Some(SearchMatchKind::Content) => {
                    inside.push(SearchHit { id: copy_of(id), kind: SearchMatchKind::Content });
                    assert(hit_views(inside@) =~= hit_views(inside0).push(
                        HitModel { id: at, kind: SearchMatchKind::Content },
                    ));
                },
                None => {},
            }
            i += 1;
        }
        assert(all.take(i as int) =~= all);
        hits.append(&mut tagged);
        hits.append(&mut inside);
        assert(hit_views(hits@) =~= found_hits(self@, table, include_content, query@));
        hits
    }
}

// ---------------------------------------------------------------------------
// Ranking
// ---------------------------------------------------------------------------

proof fn lemma_hits_of_kind(
    pages: PageTable,
    sources: SourceTable,
    with_content: bool,
    needle: Seq<char>,
    ids: Seq<Seq<char>>,
    kind: SearchMatchKind,
)
    ensures
        ({
            let hits = hits_of_kind(pages, sources, with_content, needle, ids, kind);
            &&& forall|i: int|
                0 <= i < hits.len() ==> (#[trigger] hits[i]).kind == kind && ids.contains(
                    hits[i].id,
                ) && page_match(pages, sources, with_content, needle, hits[i].id) == Some(kind)
            &&& in_title_order(pages, ids) ==> forall|i: int, j: int|
                0 <= i < j < hits.len() ==> text_le(
                    title_key(pages, (#[trigger] hits[i]).id),
                    title_key(pages, (#[trigger] hits[j]).id),
                )
            &&& forall|k: int|
                0 <= k < ids.len() && page_match(
                    pages,
                    sources,
                    with_content,
                    needle,
                    #[trigger] ids[k],
                ) == Some(kind) ==> hits.contains(HitModel { id: ids[k], kind })
        }),
    decreases ids.len(),
{
    let hits = hits_of_kind(pages, sources, with_content, needle, ids, kind);
    if ids.len() > 0 {
        let rest = ids.drop_last();
        let last = ids.last();
        let before = hits_of_kind(pages, sources, with_content, needle, rest, kind);
        lemma_hits_of_kind(pages, sources, with_content, needle, rest, kind);
        assert(ids[ids.len() - 1] == last);
        assert forall|i: int| 0 <= i < hits.len() implies (#[trigger] hits[i]).kind == kind
            && ids.contains(hits[i].id) && page_match(
            pages,
            sources,
            with_content,
            needle,
            hits[i].id,
        ) == Some(kind) by {
            if i < before.len() {
                assert(hits[i] == before[i]);
                let k = choose|k: int| 0 <= k < rest.len() && rest[k] == before[i].id;
                assert(ids[k] == before[i].id);
            }
        }
        assert forall|k: int|
            0 <= k < ids.len() && page_match(
                pages,
                sources,
                with_content,
                needle,
                #[trigger] ids[k],
            ) == Some(kind) implies hits.contains(HitModel { id: ids[k], kind }) by {
            if k < rest.len() {
                assert(rest[k] == ids[k]);
                let h = HitModel { id: ids[k], kind };
                assert(before.contains(h));
                let i = choose|i: int| 0 <= i < before.len() && before[i] == h;
                assert(hits[i] == h);
            } else {
                assert(hits[before.len() as int] == HitModel { id: ids[k], kind });
            }
        }
        if in_title_order(pages, ids) {
            assert forall|i: int, j: int| 0 <= i < j < rest.len() implies text_le(
                title_key(pages, #[trigger] rest[i]),
                title_key(pages, #[trigger] rest[j]),
            ) by {
                assert(rest[i] == ids[i]);
                assert(rest[j] == ids[j]);
            }
            assert(in_title_order(pages, rest));
            assert forall|i: int, j: int| 0 <= i < j < hits.len() implies text_le(
                title_key(pages, (#[trigger] hits[i]).id),
                title_key(pages, (#[trigger] hits[j]).id),
            ) by {
                assert(hits[i] == before[i]);
                if j < before.len() {
                    assert(hits[j] == before[j]);
                } else {
                    let k = choose|k: int| 0 <= k < rest.len() && rest[k] == before[i].id;
                    assert(ids[k] == before[i].id);
                    assert(ids[ids.len() - 1] == last);
                }
            }
        }
    }
}

/// Search hits are ranked: a more relevant kind of match comes first, and among
/// matches of one kind the title decides.
pub proof fn hits_are_ranked(
    m: IndexModel,
    sources: SourceTable,
    with_content: bool,
    query: Seq<char>,
    i: int,
    j: int,
)
    requires
        m.wf(),
        0 <= i < j < found_hits(m, sources, with_content, query).len(),
    ensures
        ({
            let a = found_hits(m, sources, with_content, query)[i];
            let b = found_hits(m, sources, with_content, query)[j];
            &&& a.kind.relevance() >= b.kind.relevance()
            &&& a.kind == b.kind ==> text_le(title_key(m.pages, a.id), title_key(m.pages, b.id))
        }),
{
    let needle = needle_of(query);
    let x = hits_of_kind(m.pages, sources, with_content, needle, m.order, SearchMatchKind::Title);
    let y = hits_of_kind(m.pages, sources, with_content, needle, m.order, SearchMatchKind::Tag);
    let z = hits_of_kind(m.pages, sources, with_content, needle, m.order, SearchMatchKind::Content);
    lemma_hits_of_kind(m.pages, sources, with_content, needle, m.order, SearchMatchKind::Title);
    lemma_hits_of_kind(m.pages, sources, with_content, needle, m.order, SearchMatchKind::Tag);
    lemma_hits_of_kind(m.pages, sources, with_content, needle, m.order, SearchMatchKind::Content);
    let all = x + y + z;
    if i < x.len() {
        assert(all[i] == x[i]);
    } else if i < x.len() + y.len() {
        assert(all[i] == y[i - x.len()]);
    } else {
        assert(all[i] == z[i - x.len() - y.len()]);
    }
    if j < x.len() {
        assert(all[j] == x[j]);
    } else if j < x.len() + y.len() {
        assert(all[j] == y[j - x.len()]);
    } else {
        assert(all[j] == z[j - x.len() - y.len()]);
    }
}

/// A search finds a page just when the page matches, and in the way it matches.
pub proof fn a_search_finds_what_matches(
    m: IndexModel,
    sources: SourceTable,
    with_content: bool,
    query: Seq<char>,
    id: Seq<char>,
    kind: SearchMatchKind,
)
    requires
        m.wf(),
        needle_of(query).len() > 0,
    ensures
        found_hits(m, sources, with_content, query).contains(HitModel { id, kind }) == (
        m.pages.contains_key(id) && page_match(
            m.pages,
            sources,
            with_content,
            needle_of(query),
            id,
        ) == Some(kind)),
{
    let needle = needle_of(query);
    let x = hits_of_kind(m.pages, sources, with_content, needle, m.order, SearchMatchKind::Title);
    let y = hits_of_kind(m.pages, sources, with_content, needle, m.order, SearchMatchKind::Tag);
    let z = hits_of_kind(m.pages, sources, with_content, needle, m.order, SearchMatchKind::Content);
    lemma_hits_of_kind(m.pages, sources, with_content, needle, m.order, SearchMatchKind::Title);
    lemma_hits_of_kind(m.pages, sources, with_content, needle, m.order, SearchMatchKind::Tag);
    lemma_hits_of_kind(m.pages, sources, with_content, needle, m.order, SearchMatchKind::Content);
    let all = x + y + z;
    let h = HitModel { id, kind };
    assert(m.order.contains(id) == m.pages.contains_key(id));
    if all.contains(h) {
        let i = choose|i: int| 0 <= i < all.len() && all[i] == h;
        if i < x.len() {
            assert(all[i] == x[i]);
        } else if i < x.len() + y.len() {
            assert(all[i] == y[i - x.len()]);
        } else {
            assert(all[i] == z[i - x.len() - y.len()]);
        }
    }
    if m.pages.contains_key(id) && page_match(m.pages, sources, with_content, needle, id) == Some(
        kind,
    ) {
        let k = choose|k: int| 0 <= k < m.order.len() && m.order[k] == id;
        assert(m.order[k] == id);
        match kind {
            SearchMatchKind::Title => {
                let i = choose|i: int| 0 <= i < x.len() && x[i] == h;
                assert(all[i] == h);
            },
            SearchMatchKind::Tag => {
                let i = choose|i: int| 0 <= i < y.len() && y[i] == h;
                assert(all[x.len() + i] == h);
            },
            SearchMatchKind::Content => {
                let i = choose|i: int| 0 <= i < z.len() && z[i] == h;
                assert(all[x.len() + y.len() + i] == h);
            },
        }
    }
}

// ---------------------------------------------------------------------------
// Titles and link targets
// ---------------------------------------------------------------------------

/// The part of an index that decides where a link leads.
#[verifier::ext_equal]
pub struct Catalog {
    pub root: Seq<char>,
    pub pages: PageTable,
    pub titled: Lists,
}

impl IndexModel {
    pub open spec fn catalog(self) -> Catalog {
        Catalog { root: self.root, pages: self.pages, titled: self.titled }
    }
}

/// What a list of ids resolves to.
pub open spec fn resolution(ids: Seq<Seq<char>>) -> ResolutionModel {
    if ids.len() == 0 {
        ResolutionModel::NotFound
    } else if ids.len() == 1 {
        ResolutionModel::Unique(ids[0])
    } else {
        ResolutionModel::Ambiguous(ids)
    }
}

/// The page that has a title, whatever its case.
pub open spec fn resolved_exactly(c: Catalog, title: Seq<char>) -> ResolutionModel {
    let needle = needle_of(title);
    if needle.len() == 0 {
        ResolutionModel::NotFound
    } else {
        resolution(listed(c.titled, needle))
    }
}

/// The ids of the pages whose lowercased title holds `needle`.
pub open spec fn titles_holding(pages: PageTable, ids: Seq<Seq<char>>, needle: Seq<char>) -> Seq<
    Seq<char>,
>
    decreases ids.len(),
{
    if ids.len() == 0 {
        Seq::empty()
    } else {
        let before = titles_holding(pages, ids.drop_last(), needle);
        if contains(pages[ids.last()].title_lower, needle) {
            before.push(ids.last())
        } else {
            before
        }
    }
}

/// The page that has a title, else the page whose title holds it.
pub open spec fn resolved_loosely(m: IndexModel, title: Seq<char>) -> ResolutionModel {
    let needle = needle_of(title);
    if needle.len() == 0 {
        ResolutionModel::NotFound
    } else if listed(m.titled, needle).len() > 0 {
        resolution(listed(m.titled, needle))
    } else {
        resolution(titles_holding(m.pages, m.order, needle))
    }
}

/// The page that a `page:` target names, by id or else by title.
pub open spec fn named_page(c: Catalog, target: Seq<char>) -> Option<Seq<char>> {
    match strip_prefix(target, "page:"@) {
        None => None,
        Some(rest) => {
            let id = trimmed(rest);
            if c.pages.contains_key(id) {
                Some(id)
            } else {
                match resolved_exactly(c, id) {
                    ResolutionModel::Unique(found) => Some(found),
                    _ => None,
                }
            }
        },
    }
}

/// The page whose id stands somewhere in a target.
pub open spec fn mentioned_page(c: Catalog, target: Seq<char>) -> Option<Seq<char>> {
    match uuid_from(target, 0) {
        Some(uuid) => if c.pages.contains_key(uuid) {
            Some(uuid)
        } else {
            None
        },
        None => None,
    }
}

/// The page with a title, as where a link leads.
pub open spec fn titled_page(c: Catalog, title: Seq<char>, target: Seq<char>) -> TargetModel {
    match resolved_exactly(c, title) {
        ResolutionModel::Unique(id) => TargetModel::InternalPage(id),
        _ => TargetModel::Unknown(target),
    }
}

/// Where a link leads: to a page by its id, by `page:` or by `title:`, or by an
/// id within the target; out of the knowledge base; to an attachment; or to the
/// page with that title.
pub open spec fn classified(c: Catalog, raw: Seq<char>) -> TargetModel {
    let target = trimmed(raw);
    if target.len() == 0 {
        TargetModel::Unknown(raw)
    } else if c.pages.contains_key(target) {
        TargetModel::InternalPage(target)
    } else if named_page(c, target) is Some {
        TargetModel::InternalPage(named_page(c, target)->0)
    } else if starts_with(target, "title:"@) {
        titled_page(c, trimmed(or_empty(strip_prefix(target, "title:"@))), target)
    } else if mentioned_page(c, target) is Some {
        TargetModel::InternalPage(mentioned_page(c, target)->0)
    } else if external_target(target) {
        TargetModel::ExternalUrl(target)
    } else if located(c.root, target) is Ok {
        TargetModel::AttachmentPath(located(c.root, target)->Ok_0)
    } else {
        titled_page(c, target, target)
    }
}

/// A title resolves exactly only to pages that have that very title, never to
/// one whose title merely holds it; and a page that is alone in its title is
/// found by it.
pub proof fn exact_titles_are_exact(m: IndexModel, title: Seq<char>, id: Seq<char>)
    requires
        m.wf(),
    ensures
        resolved_exactly(m.catalog(), title) == ResolutionModel::Unique(id)
            ==> m.pages.contains_key(id) && m.pages[id].title_lower == needle_of(title) && (
        forall|other: Seq<char>|
            m.pages.contains_key(other) && (#[trigger] m.pages[other]).title_lower == needle_of(
                title,
            ) ==> other == id),
        (needle_of(title).len() > 0 && m.pages.contains_key(id) && m.pages[id].title_lower
            == needle_of(title) && (forall|other: Seq<char>|
            m.pages.contains_key(other) && (#[trigger] m.pages[other]).title_lower == needle_of(
                title,
            ) ==> other == id)) ==> resolved_exactly(m.catalog(), title)
            == ResolutionModel::Unique(id),
{
    let needle = needle_of(title);
    let ids = listed(m.titled, needle);
    assert(ids.no_duplicates());
    if resolved_exactly(m.catalog(), title) == ResolutionModel::Unique(id) {
        assert(ids[0] == id);
        assert(ids.contains(id));
        assert forall|other: Seq<char>|
            m.pages.contains_key(other) && (#[trigger] m.pages[other]).title_lower
                == needle implies other == id by {
            assert(ids.contains(other));
        }
    }
    if needle.len() > 0 && m.pages.contains_key(id) && m.pages[id].title_lower == needle && (forall|
        other: Seq<char>,
    |
        m.pages.contains_key(other) && (#[trigger] m.pages[other]).title_lower == needle ==> other
            == id) {
        assert(ids.contains(id));
        if ids.len() > 1 {
            assert(ids.contains(ids[0]));
            assert(ids.contains(ids[1]));
            assert(m.pages[ids[0]].title_lower == needle);
            assert(m.pages[ids[1]].title_lower == needle);
            assert(ids[0] == ids[1]);
        }
    }
}

/// A link never leads to a page that is not there.
pub proof fn links_lead_to_pages(m: IndexModel, raw: Seq<char>, id: Seq<char>)
    requires
        m.wf(),
        classified(m.catalog(), raw) == TargetModel::InternalPage(id),
    ensures
        m.pages.contains_key(id),
{
    let c = m.catalog();
    let target = trimmed(raw);
    exact_titles_are_exact(m, target, id);
    exact_titles_are_exact(m, trimmed(or_empty(strip_prefix(target, "title:"@))), id);
    exact_titles_are_exact(m, trimmed(or_empty(strip_prefix(target, "page:"@))), id);
}

/// A link that names a page by its id leads to that page.
pub proof fn page_links_resolve(m: IndexModel, id: Seq<char>)
    requires
        m.wf(),
        m.pages.contains_key(id),
        trimmed(id) == id,
        id.len() > 0,
    ensures
        classified(m.catalog(), id) == TargetModel::InternalPage(id),
{
}

impl KnowledgeBaseIndex {
    fn resolve_needle(&self, needle: &str) -> (found: TitleResolution)
        requires
            self.wf(),
        ensures
            found@ == resolution(listed(self@.titled, needle@)),
    {
        let ids = list_at(&self.tables.title_index, needle);
        Self::resolution_of(ids)
    }

    fn resolution_of(ids: Vec<PageId>) -> (found: TitleResolution)
        ensures
            found@ == resolution(views(ids@)),
    {
        if ids.len() == 0 {
            TitleResolution::NotFound
        } else if ids.len() == 1 {
            TitleResolution::Unique(copy_of(ids[0].as_str()))
        } else {
            TitleResolution::Ambiguous(ids)
        }
    }

    /// Resolves a page id from title using case-insensitive exact match, then
    /// partial match.
    pub fn resolve_page_id_by_title(&self, title: &str) -> (found: TitleResolution)
        requires
            self.wf(),
        ensures
            found@ == resolved_loosely(self@, title@),
    {
        let needle = to_lowercase(trim(title).as_str());
        if needle.as_str().is_empty() {
            return TitleResolution::NotFound;
        }
        let exact = list_at(&self.tables.title_index, needle.as_str());
        if exact.len() > 0 {
            return Self::resolution_of(exact);
        }
        let ghost all = self@.order;
        let mut partial: Vec<PageId> = Vec::new();
        let mut i: usize = 0;
        assert(all.take(0) =~= Seq::<Seq<char>>::empty());
        assert(views(partial@) =~= Seq::<Seq<char>>::empty());
        while i < self.sorted_ids.len()
            invariant
                self.wf(),
                all == self@.order,
                i <= self.sorted_ids@.len(),
                views(partial@) == titles_holding(self@.pages, all.take(i as int), needle@),
            decreases self.sorted_ids.len() - i,
        {
            assert(all.take(i as int + 1).drop_last() =~= all.take(i as int));
            assert(all[i as int] == self.sorted_ids@[i as int]@);
            assert(all.contains(all[i as int]));
            if let Some(meta) = self.pages.get(self.sorted_ids[i].as_str()) {
                if text_contains(meta.title_lower.as_str(), needle.as_str()) {
                    let id = copy_of(self.sorted_ids[i].as_str());
                    proof {
                        lemma_views_push(partial@, id);
                    }
                    partial.push(id);
                }
            }
            i += 1;
        }
        assert(all.take(i as int) =~= all);
        Self::resolution_of(partial)
    }

    /// Resolves a page id from title using a case-insensitive *exact* match
    /// only, never falling back to a substring like
    /// [`Self::resolve_page_id_by_title`]. Used for wikilink/`page:`/`title:`
    /// resolution, where a substring hit would fabricate a graph edge and hide a
    /// genuinely broken link.
    pub fn resolve_page_id_by_title_exact(&self, title: &str) -> (found: TitleResolution)
        requires
            self.wf(),
        ensures
            found@ == resolved_exactly(self@.catalog(), title@),
    {
        let needle = to_lowercase(trim(title).as_str());
        if needle.as_str().is_empty() {
            return TitleResolution::NotFound;
        }
        self.resolve_needle(needle.as_str())
    }

    fn find_named_page(&self, target: &str) -> (found: Option<PageId>)
        requires
            self.wf(),
        ensures
            opt_view(found) == named_page(self@.catalog(), target@),
    {
        match without_prefix(target, "page:") {
            None => None,
            Some(rest) => {
                let id = trim(rest.as_str());
                if self.pages.contains_key(id.as_str()) {
                    return Some(id);
                }
                match self.resolve_page_id_by_title_exact(id.as_str()) {
                    TitleResolution::Unique(found) => Some(found),
                    _ => None,
                }
            },
        }
    }

    fn find_titled_page(&self, title: &str, target: String) -> (kind: LinkTargetKind)
        requires
            self.wf(),
        ensures
            kind@ == titled_page(self@.catalog(), title@, target@),
    {
        match self.resolve_page_id_by_title_exact(title) {
            TitleResolution::Unique(id) => LinkTargetKind::InternalPage(id),
            _ => LinkTargetKind::Unknown(target),
        }
    }

    /// Classifies a raw link target for navigation/open behavior.
    pub fn classify_link_target(&self, raw: &str) -> (kind: LinkTargetKind)
        requires
            self.wf(),
        ensures
            kind@ == classified(self@.catalog(), raw@),
    {
        let target = trim(raw);
        if target.as_str().is_empty() {
            return LinkTargetKind::Unknown(copy_of(raw));
        }
        if self.pages.contains_key(target.as_str()) {
            return LinkTargetKind::InternalPage(target);
        }
        if let Some(id) = self.find_named_page(target.as_str()) {
            return LinkTargetKind::InternalPage(id);
        }
        if let Some(rest) = without_prefix(target.as_str(), "title:") {
            let title = trim(rest.as_str());
            return self.find_titled_page(title.as_str(), target);
        }
        if let Some(uuid) = extract_uuid_like(target.as_str()) {
            if self.pages.contains_key(uuid.as_str()) {
                return LinkTargetKind::InternalPage(uuid);
            }
        }
        if is_external_target(target.as_str()) {
            return LinkTargetKind::ExternalUrl(target);
        }
        if let Some(path) = self.attachment_resolver().resolve_path(target.as_str()) {
            return LinkTargetKind::AttachmentPath(path);
        }
        let title = copy_of(target.as_str());
        self.find_titled_page(title.as_str(), target)
    }
}

// ---------------------------------------------------------------------------
// Links between pages
// ---------------------------------------------------------------------------

/// The pages that `targets` lead to from the page `id`: each once, in the order
/// they first come, and not the page itself.
pub open spec fn internal_targets(c: Catalog, id: Seq<char>, targets: Seq<Seq<char>>) -> Seq<
    Seq<char>,
>
    decreases targets.len(),
{
    if targets.len() == 0 {
        Seq::empty()
    } else {
        let before = internal_targets(c, id, targets.drop_last());
        match classified(c, targets.last()) {
            TargetModel::InternalPage(t) => if t != id && !before.contains(t) {
                before.push(t)
            } else {
                before
            },
            _ => before,
        }
    }
}

/// The link targets in a page, where it can be loaded.
pub open spec fn page_targets(c: Catalog, id: Seq<char>, source: SourceModel) -> Seq<Seq<char>> {
    match loaded(c.pages, id, source) {
        Ok(page) => link_targets(page.content),
        Err(_) => Seq::empty(),
    }
}

/// The pages that a page links to.
pub open spec fn outgoing(c: Catalog, id: Seq<char>, source: SourceModel) -> Seq<Seq<char>> {
    internal_targets(c, id, page_targets(c, id, source))
}

/// The pages that each page links to.
pub open spec fn forward_of(c: Catalog, sources: SourceTable) -> Lists {
    lists_of(|id: Seq<char>| outgoing(c, id, source_of(sources, id)))
}

/// The pages among `ids` that link to `t`.
pub open spec fn linking_to(
    c: Catalog,
    sources: SourceTable,
    ids: Seq<Seq<char>>,
    t: Seq<char>,
) -> Seq<Seq<char>>
    decreases ids.len(),
{
    if ids.len() == 0 {
        Seq::empty()
    } else {
        let before = linking_to(c, sources, ids.drop_last(), t);
        if outgoing(c, ids.last(), source_of(sources, ids.last())).contains(t) {
            before.push(ids.last())
        } else {
            before
        }
    }
}

/// The pages that link to each page, in title order.
pub open spec fn back_of(c: Catalog, sources: SourceTable, ids: Seq<Seq<char>>) -> Lists {
    lists_of(|t: Seq<char>| linking_to(c, sources, ids, t))
}

/// No page among the targets comes twice, and the page itself does not come.
pub proof fn lemma_internal_targets(c: Catalog, id: Seq<char>, targets: Seq<Seq<char>>)
    ensures
        internal_targets(c, id, targets).no_duplicates(),
        !internal_targets(c, id, targets).contains(id),
        internal_targets(c, id, targets).len() <= targets.len(),
    decreases targets.len(),
{
    if targets.len() > 0 {
        lemma_internal_targets(c, id, targets.drop_last());
    }
}

proof fn lemma_linking_to(c: Catalog, sources: SourceTable, ids: Seq<Seq<char>>, t: Seq<char>)
    ensures
        forall|a: Seq<char>| #[trigger]
            linking_to(c, sources, ids, t).contains(a) == (ids.contains(a) && outgoing(
                c,
                a,
                source_of(sources, a),
            ).contains(t)),
        ids.no_duplicates() ==> linking_to(c, sources, ids, t).no_duplicates(),
        in_title_order(c.pages, ids) ==> in_title_order(
            c.pages,
            linking_to(c, sources, ids, t),
        ),
    decreases ids.len(),
{
    let all = linking_to(c, sources, ids, t);
    if ids.len() > 0 {
        let rest = ids.drop_last();
        let last = ids.last();
        let before = linking_to(c, sources, rest, t);
        let links = outgoing(c, last, source_of(sources, last)).contains(t);
        lemma_linking_to(c, sources, rest, t);
        assert(ids[ids.len() - 1] == last);
        assert forall|a: Seq<char>| #[trigger]
            all.contains(a) == (ids.contains(a) && outgoing(
                c,
                a,
                source_of(sources, a),
            ).contains(t)) by {
            assert(before.contains(a) == (rest.contains(a) && outgoing(
                c,
                a,
                source_of(sources, a),
            ).contains(t)));
            if rest.contains(a) {
                let i = choose|i: int| 0 <= i < rest.len() && rest[i] == a;
                assert(ids[i] == a);
            }
            if ids.contains(a) && a != last {
                let i = choose|i: int| 0 <= i < ids.len() && ids[i] == a;
                assert(rest[i] == a);
            }
            if links {
                assert(all[before.len() as int] == last);
                if before.contains(a) {
                    let i = choose|i: int| 0 <= i < before.len() && before[i] == a;
                    assert(all[i] == a);
                }
                if all.contains(a) && a != last {
                    let i = choose|i: int| 0 <= i < all.len() && all[i] == a;
                    assert(before[i] == a);
                }
            }
        }
        if ids.no_duplicates() {
            assert(rest.no_duplicates());
            assert(!rest.contains(last)) by {
                if rest.contains(last) {
                    let i = choose|i: int| 0 <= i < rest.len() && rest[i] == last;
                    assert(ids[i] == ids[ids.len() - 1]);
                }
            }
            assert(!before.contains(last));
            if links {
                assert forall|i: int, j: int|
                    0 <= i < all.len() && 0 <= j < all.len() && i != j implies all[i]
                    != all[j] by {
                    if i == before.len() {
                        assert(before.contains(before[j]));
                    }
                    if j == before.len() {
                        assert(before.contains(before[i]));
                    }
                }
            }
        }
        if in_title_order(c.pages, ids) {
            assert forall|i: int, j: int| 0 <= i < j < rest.len() implies text_le(
                title_key(c.pages, #[trigger] rest[i]),
                title_key(c.pages, #[trigger] rest[j]),
            ) by {
                assert(rest[i] == ids[i]);
                assert(rest[j] == ids[j]);
            }
            assert(in_title_order(c.pages, rest));
            assert forall|i: int, j: int| 0 <= i < j < all.len() implies text_le(
                title_key(c.pages, #[trigger] all[i]),
                title_key(c.pages, #[trigger] all[j]),
            ) by {
                assert(all[i] == before[i]);
                if j < before.len() {
                    assert(all[j] == before[j]);
                } else {
                    assert(before.contains(before[i]));
                    let k = choose|k: int| 0 <= k < rest.len() && rest[k] == before[i];
                    assert(ids[k] == before[i]);
                    assert(ids[ids.len() - 1] == last);
                }
            }
        }
    }
}

/// A page that is not in the index links to nothing.
proof fn lemma_outgoing_pages(c: Catalog, id: Seq<char>, source: SourceModel)
    ensures
        !c.pages.contains_key(id) ==> outgoing(c, id, source).len() == 0,
        outgoing(c, id, source).no_duplicates(),
        !outgoing(c, id, source).contains(id),
{
    lemma_internal_targets(c, id, page_targets(c, id, source));
}

/// An index with the links that its pages hold.
pub open spec fn linked(m: IndexModel, sources: SourceTable) -> IndexModel {
    IndexModel {
        forward: forward_of(m.catalog(), sources),
        back: back_of(m.catalog(), sources, m.order),
        ..m
    }
}

/// Building the link tables keeps the index, and the pages that link to a page
/// then stand in title order.
pub proof fn building_links_keeps_the_index(m: IndexModel, sources: SourceTable)
    requires
        m.wf(),
    ensures
        linked(m, sources).wf(),
        forall|t: Seq<char>|
            in_title_order(m.pages, #[trigger] listed(linked(m, sources).back, t)),
{
    let c = m.catalog();
    let r = linked(m, sources);
    let out = |id: Seq<char>| outgoing(c, id, source_of(sources, id));
    let back = |t: Seq<char>| linking_to(c, sources, m.order, t);
    assert forall|a: Seq<char>| #[trigger] listed(r.forward, a) == out(a) by {
        lemma_listed_of(out, a);
    }
    assert forall|t: Seq<char>| #[trigger] listed(r.back, t) == back(t) by {
        lemma_listed_of(back, t);
    }
    lemma_listed_of(out, Seq::empty());
    lemma_listed_of(back, Seq::empty());
    assert forall|a: Seq<char>, b: Seq<char>|
        listed(r.forward, a).contains(b) == listed(r.back, b).contains(a) by {
        lemma_linking_to(c, sources, m.order, b);
        lemma_outgoing_pages(c, a, source_of(sources, a));
        assert(m.order.contains(a) == m.pages.contains_key(a));
    }
    assert forall|a: Seq<char>| !(#[trigger] listed(r.forward, a)).contains(a) by {
        lemma_outgoing_pages(c, a, source_of(sources, a));
    }
    assert forall|a: Seq<char>| (#[trigger] listed(r.forward, a)).no_duplicates() by {
        lemma_outgoing_pages(c, a, source_of(sources, a));
    }
    assert forall|a: Seq<char>| (#[trigger] listed(r.back, a)).no_duplicates() by {
        lemma_linking_to(c, sources, m.order, a);
    }
    assert forall|t: Seq<char>| in_title_order(m.pages, #[trigger] listed(r.back, t)) by {
        lemma_linking_to(c, sources, m.order, t);
    }
}

/// The pages that link to `t` once `id` links to `targets`.
pub open spec fn back_after(
    m: IndexModel,
    id: Seq<char>,
    targets: Seq<Seq<char>>,
    t: Seq<char>,
) -> Seq<Seq<char>> {
    let others = without(listed(m.back, t), id);
    if targets.contains(t) {
        inserted(m.pages, others, id)
    } else {
        others
    }
}

/// An index in which the page `id` links to `targets`.
pub open spec fn relinked(m: IndexModel, id: Seq<char>, targets: Seq<Seq<char>>) -> IndexModel {
    IndexModel {
        forward: with_list(m.forward, id, targets),
        back: lists_of(|t: Seq<char>| back_after(m, id, targets, t)),
        ..m
    }
}

/// Changing what one page links to keeps the index, and keeps the pages that
/// link to a page in title order where they were.
pub proof fn relinking_keeps_the_index(m: IndexModel, id: Seq<char>, targets: Seq<Seq<char>>)
    requires
        m.wf(),
        targets.no_duplicates(),
        !targets.contains(id),
    ensures
        relinked(m, id, targets).wf(),
        forall|t: Seq<char>|
            in_title_order(m.pages, listed(m.back, t)) ==> in_title_order(
                m.pages,
                #[trigger] listed(relinked(m, id, targets).back, t),
            ),
{
    let r = relinked(m, id, targets);
    let back = |t: Seq<char>| back_after(m, id, targets, t);
    lemma_with_list(m.forward, id, targets);
    assert forall|t: Seq<char>| #[trigger] listed(r.back, t) == back(t) by {
        lemma_listed_of(back, t);
    }
    lemma_listed_of(back, Seq::empty());
    assert forall|a: Seq<char>, b: Seq<char>|
        listed(r.forward, a).contains(b) == listed(r.back, b).contains(a) by {
        let old_list = listed(m.back, b);
        lemma_without(old_list, id);
        lemma_inserted(m.pages, without(old_list, id), id);
        assert(listed(m.forward, a).contains(b) == old_list.contains(a));
        if a != id {
            assert(without(old_list, id).contains(a) == old_list.contains(a));
        }
    }
    assert forall|a: Seq<char>| (#[trigger] listed(r.back, a)).no_duplicates() by {
        assert(listed(m.back, a).no_duplicates());
        lemma_without(listed(m.back, a), id);
        lemma_inserted(m.pages, without(listed(m.back, a), id), id);
    }
    assert forall|a: Seq<char>| !(#[trigger] listed(r.forward, a)).contains(a) by {
        assert(!listed(m.forward, a).contains(a));
    }
    assert forall|a: Seq<char>| (#[trigger] listed(r.forward, a)).no_duplicates() by {
        assert(listed(m.forward, a).no_duplicates());
    }
    assert forall|t: Seq<char>| in_title_order(m.pages, listed(m.back, t)) implies in_title_order(
        m.pages,
        #[trigger] listed(r.back, t),
    ) by {
        lemma_order_without(m.pages, listed(m.back, t), id);
        lemma_inserted(m.pages, without(listed(m.back, t), id), id);
    }
}

/// Updating the links of the one page that changed gives the links that
/// building them all anew would give.
pub proof fn updating_agrees_with_building(
    m: IndexModel,
    sources: SourceTable,
    id: Seq<char>,
    source: SourceModel,
)
    requires
        m.wf(),
        m == linked(m, sources),
    ensures
        ({
            let updated = relinked(m, id, outgoing(m.catalog(), id, source));
            let built = linked(m, sources.insert(id, source));
            &&& updated.forward == built.forward
            &&& forall|a: Seq<char>, t: Seq<char>|
                listed(updated.back, t).contains(a) == listed(built.back, t).contains(a)
            &&& forall|t: Seq<char>|
                in_title_order(m.pages, #[trigger] listed(updated.back, t))
        }),
{
    let c = m.catalog();
    let targets = outgoing(c, id, source);
    let changed = sources.insert(id, source);
    let updated = relinked(m, id, targets);
    let built = linked(m, changed);
    let out0 = |a: Seq<char>| outgoing(c, a, source_of(sources, a));
    let out1 = |a: Seq<char>| outgoing(c, a, source_of(changed, a));
    lemma_outgoing_pages(c, id, source);
    building_links_keeps_the_index(m, sources);
    building_links_keeps_the_index(m, changed);
    relinking_keeps_the_index(m, id, targets);
    lemma_with_list(m.forward, id, targets);
    assert forall|a: Seq<char>| #[trigger] listed(updated.forward, a) == out1(a) by {
        lemma_listed_of(out0, a);
    }
    lemma_lists_of(updated.forward, out1);
    assert(updated.forward == built.forward);
    assert forall|a: Seq<char>, t: Seq<char>|
        listed(updated.back, t).contains(a) == listed(built.back, t).contains(a) by {
        assert(listed(updated.forward, a).contains(t) == listed(updated.back, t).contains(a));
        assert(listed(built.forward, a).contains(t) == listed(built.back, t).contains(a));
    }
    assert forall|t: Seq<char>| in_title_order(m.pages, #[trigger] listed(updated.back, t)) by {
        assert(in_title_order(m.pages, listed(linked(m, sources).back, t)));
    }
}

impl KnowledgeBaseIndex {
    /// The pages that `targets` lead to from the page `id`.
    fn internal_pages(&self, id: &str, targets: &Vec<String>) -> (ids: Vec<PageId>)
        requires
            self.wf(),
        ensures
            views(ids@) == internal_targets(self@.catalog(), id@, views(targets@)),
    {
        let ghost all = views(targets@);
        let ghost c = self@.catalog();
        let mut ids: Vec<PageId> = Vec::new();
        let mut i: usize = 0;
        assert(all.take(0) =~= Seq::<Seq<char>>::empty());
        assert(views(ids@) =~= Seq::<Seq<char>>::empty());
        while i < targets.len()
            invariant
                self.wf(),
                c == self@.catalog(),
                all == views(targets@),
                i <= targets@.len(),
                views(ids@) == internal_targets(c, id@, all.take(i as int)),
            decreases targets.len() - i,
        {
            assert(all.take(i as int + 1).drop_last() =~= all.take(i as int));
            assert(all.take(i as int + 1).last() == targets@[i as int]@);
            if let LinkTargetKind::InternalPage(t) = self.classify_link_target(
                targets[i].as_str(),
            ) {
                if !same_text(t.as_str(), id) && !has_text(&ids, t.as_str()) {
                    proof {
                        lemma_views_push(ids@, t);
                    }
                    ids.push(t);
                }
            }
            i += 1;
        }
        assert(all.take(i as int) =~= all);
        ids
    }

    /// The pages that a page links to.
    fn outgoing_pages(&self, id: &str, source: &Result<Page, String>) -> (ids: Vec<PageId>)
        requires
            self.wf(),
        ensures
            views(ids@) == internal_targets(
                self@.catalog(),
                id@,
                match page_result(*source) {
                    Ok(page) => link_targets(page.content),
                    Err(_) => Seq::empty(),
                },
            ),
    {
        match source {
            Ok(page) => {
                let targets = extract_link_targets(&page.content);
                self.internal_pages(id, &targets)
            },
            Err(_) => {
                let ids: Vec<PageId> = Vec::new();
                assert(views(ids@) =~= Seq::<Seq<char>>::empty());
                ids
            },
        }
    }

    /// Builds the link tables out of every page: which pages each page links
    /// to, and which pages link to it. A page that could not be loaded links to
    /// nothing.
    ///
    /// Call this once after [`KnowledgeBase::open`] when backlink data is
    /// needed.
    pub fn build_backlinks(&mut self, sources: &StrMap<PageSource>)
        requires
            old(self).wf(),
            sources.wf(),
        ensures
            final(self).wf(),
            final(self)@ == linked(old(self)@, source_table(*sources)),
            final(self).issues() == old(self).issues(),
            final(self).duplicates() == old(self).duplicates(),
    {
        let ghost before = self@;
        let ghost c = self@.catalog();
        let ghost table = source_table(*sources);
        let ghost all = self@.order;
        let mut forward: StrMap<Vec<PageId>> = StrMap::new();
        let mut back: StrMap<Vec<PageId>> = StrMap::new();
        let mut i: usize = 0;
        assert(all.take(0) =~= Seq::<Seq<char>>::empty());
        while i < self.sorted_ids.len()
            invariant
                self.wf(),
                sources.wf(),
                forward.wf(),
                back.wf(),
                c == self@.catalog(),
                table == source_table(*sources),
                all == self@.order,
                i <= self.sorted_ids@.len(),
                none_empty(list_table(forward)),
                none_empty(list_table(back)),
                forall|a: Seq<char>| #[trigger]
                    listed(list_table(forward), a) == if all.take(i as int).contains(a) {
                        outgoing(c, a, source_of(table, a))
                    } else {
                        Seq::empty()
                    },
                forall|t: Seq<char>| #[trigger]
                    listed(list_table(back), t) == linking_to(c, table, all.take(i as int), t),
            decreases self.sorted_ids.len() - i,
        {
            let ghost at = all[i as int];
            let ghost done = all.take(i as int);
            let ghost next = all.take(i as int + 1);
            assert(next.drop_last() =~= done);
            assert(next.last() == at);
            assert(at == self.sorted_ids@[i as int]@);
            assert forall|a: Seq<char>| next.contains(a) == (done.contains(a) || a == at) by {
                if done.contains(a) {
                    let k = choose|k: int| 0 <= k < done.len() && done[k] == a;
                    assert(next[k] == a);
                }
                assert(next[i as int] == at);
                if next.contains(a) && a != at {
                    let k = choose|k: int| 0 <= k < next.len() && next[k] == a;
                    assert(done[k] == a);
                }
            }
            let id = self.sorted_ids[i].as_str();
            let page = self.load_from(id, sources);
            let targets = self.outgoing_pages(id, &page);
            let ghost out = outgoing(c, at, source_of(table, at));
            assert(views(targets@) == out);
            let ghost back0 = list_table(back);
            let ghost forward0 = list_table(forward);
            proof {
                lemma_outgoing_pages(c, at, source_of(table, at));
            }
            let mut k: usize = 0;
            assert(out.take(0) =~= Seq::<Seq<char>>::empty());
            while k < targets.len()
                invariant
                    back.wf(),
                    k <= targets@.len(),
                    views(targets@) == out,
                    out.no_duplicates(),
                    id@ == at,
                    none_empty(list_table(back)),
                    forall|t: Seq<char>| #[trigger]
                        listed(list_table(back), t) == if out.take(k as int).contains(t) {
                            listed(back0, t).push(at)
                        } else {
                            listed(back0, t)
                        },
                decreases targets.len() - k,
            {
                let ghost seen = out.take(k as int);
                let ghost more = out.take(k as int + 1);
                let ghost t0 = out[k as int];
                let ghost mid = list_table(back);
                proof {
                    assert(t0 == targets@[k as int]@);
                    assert(!seen.contains(t0)) by {
                        if seen.contains(t0) {
                            let j = choose|j: int| 0 <= j < seen.len() && seen[j] == t0;
                            assert(out[j] == out[k as int]);
                        }
                    }
                    lemma_with_list(mid, t0, listed(mid, t0).push(at));
                    assert forall|t: Seq<char>| #[trigger]
                        more.contains(t) == (seen.contains(t) || t == t0) by {
                        assert(more[k as int] == t0);
                        if seen.contains(t) {
                            let j = choose|j: int| 0 <= j < seen.len() && seen[j] == t;
                            assert(more[j] == t);
                        }
                        if more.contains(t) && t != t0 {
                            let j = choose|j: int| 0 <= j < more.len() && more[j] == t;
                            assert(seen[j] == t);
                        }
                    }
                }
                add_to_list(&mut back, targets[k].as_str(), copy_of(id));
                assert forall|t: Seq<char>| #[trigger]
                    listed(list_table(back), t) == if more.contains(t) {
                        listed(back0, t).push(at)
                    } else {
                        listed(back0, t)
                    } by {
                    assert(listed(mid, t) == if seen.contains(t) {
                        listed(back0, t).push(at)
                    } else {
                        listed(back0, t)
                    });
                }
                k += 1;
            }
            assert(out.take(k as int) =~= out);
            proof {
                lemma_with_list(forward0, at, out);
                assert(!done.contains(at)) by {
                    if done.contains(at) {
                        let j = choose|j: int| 0 <= j < done.len() && done[j] == at;
                        assert(all[j] == all[i as int]);
                    }
                }
            }
            put_list(&mut forward, id, targets);
            proof {
                assert forall|t: Seq<char>| #[trigger]
                    listed(list_table(back), t) == linking_to(c, table, next, t) by {
                    assert(listed(back0, t) == linking_to(c, table, done, t));
                }
                assert forall|a: Seq<char>| #[trigger]
                    listed(list_table(forward), a) == if next.contains(a) {
                        outgoing(c, a, source_of(table, a))
                    } else {
                        Seq::empty()
                    } by {
                    assert(next.contains(a) == (done.contains(a) || a == at));
                    assert(listed(forward0, a) == if done.contains(a) {
                        outgoing(c, a, source_of(table, a))
                    } else {
                        Seq::empty()
                    });
                }
            }
            i += 1;
        }
        proof {
            assert(all.take(i as int) =~= all);
            let out = |id: Seq<char>| outgoing(c, id, source_of(table, id));
            assert forall|a: Seq<char>| #[trigger] listed(list_table(forward), a) == out(a) by {
                lemma_outgoing_pages(c, a, source_of(table, a));
                assert(all.contains(a) == c.pages.contains_key(a));
                if !all.contains(a) {
                    assert(out(a) =~= Seq::<Seq<char>>::empty());
                }
            }
            lemma_lists_of(list_table(forward), out);
            lemma_lists_of(list_table(back), |t: Seq<char>| linking_to(c, table, all, t));
            building_links_keeps_the_index(before, table);
        }
        self.tables.forward_links = forward;
        self.tables.backlinks = back;
        assert(self@ =~= linked(before, table));
    }

    /// Incrementally updates the link tables for a single page, out of what
    /// loading it gave.
    ///
    /// Removes any existing outgoing links from `page_id`, then re-extracts
    /// and classifies its current links. Much cheaper than a full
    /// [`Self::build_backlinks`] call when only one page changed.
    pub fn update_backlinks_for(&mut self, page_id: &str, source: &PageSource)
        requires
            old(self).wf(),
        ensures
            final(self).wf(),
            final(self)@ == relinked(
                old(self)@,
                page_id@,
                outgoing(old(self)@.catalog(), page_id@, source@),
            ),
            final(self).issues() == old(self).issues(),
            final(self).duplicates() == old(self).duplicates(),
    {
        let ghost before = self@;
        let ghost id = page_id@;
        let page = self.load_page(page_id, source);
        let targets = self.outgoing_pages(page_id, &page);
        let ghost new = outgoing(before.catalog(), id, source@);
        assert(views(targets@) == new);
        proof {
            lemma_outgoing_pages(before.catalog(), id, source@);
        }
        let stale = list_at(&self.tables.forward_links, page_id);
        let ghost gone = views(stale@);
        let mut i: usize = 0;
        assert(gone.take(0) =~= Seq::<Seq<char>>::empty());
        while i < stale.len()
            invariant
                self.maps_wf(),
                self@ == (IndexModel { back: self@.back, ..before }),
                self.issues() == old(self).issues(),
                self.duplicates() == old(self).duplicates(),
                before.wf(),
                id == page_id@,
                gone == views(stale@),
                i <= stale@.len(),
                none_empty(self@.back),
                forall|t: Seq<char>| #[trigger]
                    listed(self@.back, t) == if gone.take(i as int).contains(t) {
                        without(listed(before.back, t), id)
                    } else {
                        listed(before.back, t)
                    },
            decreases stale.len() - i,
        {
            let ghost seen = gone.take(i as int);
            let ghost more = gone.take(i as int + 1);
            let ghost t0 = gone[i as int];
            let ghost mid = self@.back;
            let list = list_at(&self.tables.backlinks, stale[i].as_str());
            let rest = texts_without(&list, page_id);
            proof {
                assert(t0 == stale@[i as int]@);
                lemma_with_list(mid, t0, without(listed(mid, t0), id));
                lemma_without(listed(before.back, t0), id);
                lemma_without(without(listed(before.back, t0), id), id);
                assert forall|t: Seq<char>| #[trigger]
                    more.contains(t) == (seen.contains(t) || t == t0) by {
                    assert(more[i as int] == t0);
                    if seen.contains(t) {
                        let j = choose|j: int| 0 <= j < seen.len() && seen[j] == t;
                        assert(more[j] == t);
                    }
                    if more.contains(t) && t != t0 {
                        let j = choose|j: int| 0 <= j < more.len() && more[j] == t;
                        assert(seen[j] == t);
                    }
                }
            }
            put_list(&mut self.tables.backlinks, stale[i].as_str(), rest);
            assert forall|t: Seq<char>| #[trigger]
                listed(self@.back, t) == if more.contains(t) {
                    without(listed(before.back, t), id)
                } else {
                    listed(before.back, t)
                } by {
                assert(listed(mid, t) == if seen.contains(t) {
                    without(listed(before.back, t), id)
                } else {
                    listed(before.back, t)
                });
            }
            i += 1;
        }
        proof {
            assert(gone.take(i as int) =~= gone);
            assert forall|t: Seq<char>| #[trigger]
                listed(self@.back, t) == without(listed(before.back, t), id) by {
                assert(listed(before.forward, id).contains(t) == listed(before.back, t).contains(
                    id,
                ));
                lemma_without(listed(before.back, t), id);
            }
        }
        let mut k: usize = 0;
        assert(new.take(0) =~= Seq::<Seq<char>>::empty());
        while k < targets.len()
            invariant
                self.maps_wf(),
                self@ == (IndexModel { back: self@.back, ..before }),
                self.issues() == old(self).issues(),
                self.duplicates() == old(self).duplicates(),
                id == page_id@,
                new == views(targets@),
                new.no_duplicates(),
                k <= targets@.len(),
                none_empty(self@.back),
                forall|t: Seq<char>| #[trigger]
                    listed(self@.back, t) == back_after(before, id, new.take(k as int), t),
            decreases targets.len() - k,
        {
            let ghost seen = new.take(k as int);
            let ghost more = new.take(k as int + 1);
            let ghost t0 = new[k as int];
            let ghost mid = self@.back;
            let mut list = list_at(&self.tables.backlinks, targets[k].as_str());
            insert_sorted_by_title(&mut list, &self.pages, copy_of(page_id));
            proof {
                assert(t0 == targets@[k as int]@);
                lemma_with_list(mid, t0, views(list@));
                assert(!seen.contains(t0)) by {
                    if seen.contains(t0) {
                        let j = choose|j: int| 0 <= j < seen.len() && seen[j] == t0;
                        assert(new[j] == new[k as int]);
                    }
                }
                assert forall|t: Seq<char>| #[trigger]
                    more.contains(t) == (seen.contains(t) || t == t0) by {
                    assert(more[k as int] == t0);
                    if seen.contains(t) {
                        let j = choose|j: int| 0 <= j < seen.len() && seen[j] == t;
                        assert(more[j] == t);
                    }
                    if more.contains(t) && t != t0 {
                        let j = choose|j: int| 0 <= j < more.len() && more[j] == t;
                        assert(seen[j] == t);
                    }
                }
            }
            put_list(&mut self.tables.backlinks, targets[k].as_str(), list);
            assert forall|t: Seq<char>| #[trigger]
                listed(self@.back, t) == back_after(before, id, more, t) by {
                assert(listed(mid, t) == back_after(before, id, seen, t));
                assert(more.contains(t) == (seen.contains(t) || t == t0));
            }
            k += 1;
        }
        proof {
            assert(new.take(k as int) =~= new);
            lemma_lists_of(self@.back, |t: Seq<char>| back_after(before, id, new, t));
            relinking_keeps_the_index(before, id, new);
        }
        put_list(&mut self.tables.forward_links, page_id, targets);
        assert(self@ =~= relinked(before, id, new));
    }

    /// Returns the page ids that link to the given page.
    pub fn backlinks_for(&self, id: &str) -> (ids: Vec<PageId>)
        requires
            self.wf(),
        ensures
            views(ids@) == listed(self@.back, id@),
    {
        list_at(&self.tables.backlinks, id)
    }
}

// ---------------------------------------------------------------------------
// Link analysis
// ---------------------------------------------------------------------------

/// A link target that could not be resolved to any known page.
#[derive(Debug, Clone, PartialEq, Eq)]
pub struct BrokenLink {
    /// Title of the page containing the broken link.
    pub source_title: String,
    /// Id of the page containing the broken link.
    pub source_id: PageId,
    /// The raw unresolved link target.
    pub target: String,
}

/// A page that could not be loaded during link analysis.
#[derive(Debug, Clone, PartialEq, Eq)]
pub struct PageLoadError {
    /// Id of the page that failed to load.
    pub page_id: PageId,
    /// Title from the metadata index.
    pub title: String,
    /// Human-readable error message.
    pub error: String,
}

/// A directed edge in the page link graph.
#[derive(Debug, Clone, PartialEq, Eq)]
pub struct LinkEdge {
    /// Page id of the linking page.
    pub source: PageId,
    /// Page id of the linked-to page.
    pub target: PageId,
}

/// An attachment reference that points to a file not found on disk.
#[derive(Debug, Clone, PartialEq, Eq)]
pub struct MissingAttachment {
    /// Title of the page referencing the attachment.
    pub source_title: String,
    /// Id of the page referencing the attachment.
    pub source_id: PageId,
    /// The raw attachment target string from the page content.
    pub target: String,
    /// The resolved path that was not found.
    pub resolved_path: String,
}

/// Result of [`KnowledgeBaseIndex::scan_all_pages`].
#[derive(Debug, Clone, PartialEq, Eq)]
pub struct LinkAnalysisResult {
    /// Links whose targets could not be resolved.
    pub broken_links: Vec<BrokenLink>,
    /// Page ids that are linked to by at least one other page, each once.
    pub linked_pages: Vec<PageId>,
    /// Pages that could not be loaded (e.g. corrupted JSON).
    pub load_errors: Vec<PageLoadError>,
    /// Attachment references whose files are missing from disk, at most one
    /// per (referencing page, resolved path).
    pub missing_attachments: Vec<MissingAttachment>,
    /// Deduplicated directed link graph edges (self-links excluded).
    pub edges: Vec<LinkEdge>,
}

/// Directed link graph across all pages in a knowledge base.
#[derive(Debug, Clone, PartialEq, Eq)]
pub struct LinkGraph {
    /// Deduplicated directed edges (self-links excluded).
    pub edges: Vec<LinkEdge>,
}

#[verifier::ext_equal]
pub struct BrokenModel {
    pub source_title: Seq<char>,
    pub source_id: Seq<char>,
    pub target: Seq<char>,
}

#[verifier::ext_equal]
pub struct LoadErrorModel {
    pub page_id: Seq<char>,
    pub title: Seq<char>,
    pub error: Seq<char>,
}

#[verifier::ext_equal]
pub struct EdgeModel {
    pub source: Seq<char>,
    pub target: Seq<char>,
}

#[verifier::ext_equal]
pub struct MissingModel {
    pub source_title: Seq<char>,
    pub source_id: Seq<char>,
    pub target: Seq<char>,
    pub resolved_path: Seq<char>,
}

impl View for BrokenLink {
    type V = BrokenModel;

    open spec fn view(&self) -> BrokenModel {
        BrokenModel {
            source_title: self.source_title@,
            source_id: self.source_id@,
            target: self.target@,
        }
    }
}

impl View for PageLoadError {
    type V = LoadErrorModel;

    open spec fn view(&self) -> LoadErrorModel {
        LoadErrorModel { page_id: self.page_id@, title: self.title@, error: self.error@ }
    }
}

impl View for LinkEdge {
    type V = EdgeModel;

    open spec fn view(&self) -> EdgeModel {
        EdgeModel { source: self.source@, target: self.target@ }
    }
}

impl View for MissingAttachment {
    type V = MissingModel;

    open spec fn view(&self) -> MissingModel {
        MissingModel {
            source_title: self.source_title@,
            source_id: self.source_id@,
            target: self.target@,
            resolved_path: self.resolved_path@,
        }
    }
}

/// What a [`LinkAnalysisResult`] holds.
#[verifier::ext_equal]
pub struct AnalysisModel {
    pub broken_links: Seq<BrokenModel>,
    pub linked_pages: Seq<Seq<char>>,
    pub load_errors: Seq<LoadErrorModel>,
    pub missing_attachments: Seq<MissingModel>,
    pub edges: Seq<EdgeModel>,
}

pub open spec fn broken_views(v: Seq<BrokenLink>) -> Seq<BrokenModel> {
    Seq::new(v.len(), |i: int| v[i]@)
}

pub open spec fn load_error_views(v: Seq<PageLoadError>) -> Seq<LoadErrorModel> {
    Seq::new(v.len(), |i: int| v[i]@)
}

pub open spec fn edge_views(v: Seq<LinkEdge>) -> Seq<EdgeModel> {
    Seq::new(v.len(), |i: int| v[i]@)
}

pub open spec fn missing_views(v: Seq<MissingAttachment>) -> Seq<MissingModel> {
    Seq::new(v.len(), |i: int| v[i]@)
}

impl View for LinkAnalysisResult {
    type V = AnalysisModel;

    open spec fn view(&self) -> AnalysisModel {
        AnalysisModel {
            broken_links: broken_views(self.broken_links@),
            linked_pages: views(self.linked_pages@),
            load_errors: load_error_views(self.load_errors@),
            missing_attachments: missing_views(self.missing_attachments@),
            edges: edge_views(self.edges@),
        }
    }
}

/// The links of a page that lead nowhere.
pub open spec fn broken_in(
    c: Catalog,
    title: Seq<char>,
    id: Seq<char>,
    targets: Seq<Seq<char>>,
) -> Seq<BrokenModel>
    decreases targets.len(),
{
    if targets.len() == 0 {
        Seq::empty()
    } else {
        let before = broken_in(c, title, id, targets.drop_last());
        if classified(c, targets.last()) is Unknown {
            before.push(
                BrokenModel { source_title: title, source_id: id, target: targets.last() },
            )
        } else {
            before
        }
    }
}

/// Where the attachment that a target names lies, if it names one.
pub open spec fn attachment_path(root: Seq<char>, target: Seq<char>) -> Option<Seq<char>> {
    if attachment_relative(target) is Some && located(root, target) is Ok {
        Some(located(root, target)->Ok_0)
    } else {
        None
    }
}

/// Whether one of `missing` lies at `path`, however it is spelled.
pub open spec fn reported(missing: Seq<MissingModel>, path: Seq<char>) -> bool {
    exists|k: int|
        0 <= k < missing.len() && same_path((#[trigger] missing[k]).resolved_path, path)
}

/// The attachments of a page that are not there, each path once. Paths are told
/// apart by their components.
pub open spec fn missing_in(
    root: Seq<char>,
    title: Seq<char>,
    id: Seq<char>,
    targets: Seq<Seq<char>>,
    existing: Seq<Seq<char>>,
) -> Seq<MissingModel>
    decreases targets.len(),
{
    if targets.len() == 0 {
        Seq::empty()
    } else {
        let before = missing_in(root, title, id, targets.drop_last(), existing);
        match attachment_path(root, targets.last()) {
            Some(path) => if !holds_path(existing, path) && !reported(before, path) {
                before.push(
                    MissingModel {
                        source_title: title,
                        source_id: id,
                        target: targets.last(),
                        resolved_path: path,
                    },
                )
            } else {
                before
            },
            None => before,
        }
    }
}

/// The edges from a page to pages.
pub open spec fn edges_from(id: Seq<char>, targets: Seq<Seq<char>>) -> Seq<EdgeModel> {
    Seq::new(targets.len(), |i: int| EdgeModel { source: id, target: targets[i] })
}

/// The texts of both, each once, in the order they first come.
pub open spec fn merged(texts: Seq<Seq<char>>, more: Seq<Seq<char>>) -> Seq<Seq<char>>
    decreases more.len(),
{
    if more.len() == 0 {
        texts
    } else {
        let before = merged(texts, more.drop_last());
        if before.contains(more.last()) {
            before
        } else {
            before.push(more.last())
        }
    }
}

/// What analysing one more page adds.
pub open spec fn analysed_page(
    c: Catalog,
    sources: SourceTable,
    existing: Seq<Seq<char>>,
    a: AnalysisModel,
    id: Seq<char>,
) -> AnalysisModel {
    let title = c.pages[id].title;
    match loaded(c.pages, id, source_of(sources, id)) {
        Err(error) => AnalysisModel {
            load_errors: a.load_errors.push(LoadErrorModel { page_id: id, title, error }),
            ..a
        },
        Ok(page) => {
            let targets = link_targets(page.content);
            let pages = internal_targets(c, id, targets);
            AnalysisModel {
                broken_links: a.broken_links + broken_in(c, title, id, targets),
                linked_pages: merged(a.linked_pages, pages),
                missing_attachments: a.missing_attachments + missing_in(
                    c.root,
                    title,
                    id,
                    targets,
                    existing,
                ),
                edges: a.edges + edges_from(id, pages),
                ..a
            }
        },
    }
}

/// What analysing pages finds.
pub open spec fn analysed(
    c: Catalog,
    sources: SourceTable,
    existing: Seq<Seq<char>>,
    ids: Seq<Seq<char>>,
) -> AnalysisModel
    decreases ids.len(),
{
    if ids.len() == 0 {
        AnalysisModel {
            broken_links: Seq::empty(),
            linked_pages: Seq::empty(),
            load_errors: Seq::empty(),
            missing_attachments: Seq::empty(),
            edges: Seq::empty(),
        }
    } else {
        analysed_page(
            c,
            sources,
            existing,
            analysed(c, sources, existing, ids.drop_last()),
            ids.last(),
        )
    }
}

proof fn lemma_merged(texts: Seq<Seq<char>>, more: Seq<Seq<char>>)
    ensures
        texts.no_duplicates() ==> merged(texts, more).no_duplicates(),
        forall|t: Seq<char>| #[trigger]
            merged(texts, more).contains(t) == (texts.contains(t) || more.contains(t)),
    decreases more.len(),
{
    if more.len() > 0 {
        let rest = more.drop_last();
        let last = more.last();
        let before = merged(texts, rest);
        let all = merged(texts, more);
        lemma_merged(texts, rest);
        assert forall|t: Seq<char>| #[trigger]
            all.contains(t) == (texts.contains(t) || more.contains(t)) by {
            assert(before.contains(t) == (texts.contains(t) || rest.contains(t)));
            assert(more[more.len() - 1] == last);
            if rest.contains(t) {
                let k = choose|k: int| 0 <= k < rest.len() && rest[k] == t;
                assert(more[k] == t);
            }
            if more.contains(t) && t != last {
                let k = choose|k: int| 0 <= k < more.len() && more[k] == t;
                assert(rest[k] == t);
            }
            if !before.contains(last) {
                assert(all[before.len() as int] == last);
                if before.contains(t) {
                    let k = choose|k: int| 0 <= k < before.len() && before[k] == t;
                    assert(all[k] == t);
                }
                if all.contains(t) && t != last {
                    let k = choose|k: int| 0 <= k < all.len() && all[k] == t;
                    assert(before[k] == t);
                }
            }
        }
        if texts.no_duplicates() && !before.contains(last) {
            assert forall|i: int, j: int|
                0 <= i < all.len() && 0 <= j < all.len() && i != j implies all[i] != all[j] by {
                if i == before.len() {
                    assert(before.contains(before[j]));
                }
                if j == before.len() {
                    assert(before.contains(before[i]));
                }
            }
        }
    }
}

proof fn lemma_analysed(
    c: Catalog,
    sources: SourceTable,
    existing: Seq<Seq<char>>,
    ids: Seq<Seq<char>>,
)
    requires
        ids.no_duplicates(),
    ensures
        ({
            let a = analysed(c, sources, existing, ids);
            &&& a.edges.no_duplicates()
            &&& forall|i: int|
                0 <= i < a.edges.len() ==> (#[trigger] a.edges[i]).source != a.edges[i].target
                    && ids.contains(a.edges[i].source)
            &&& a.linked_pages.no_duplicates()
            &&& forall|t: Seq<char>| #[trigger]
                a.linked_pages.contains(t) == (exists|i: int|
                    0 <= i < a.edges.len() && (#[trigger] a.edges[i]).target == t)
        }),
    decreases ids.len(),
{
    if ids.len() > 0 {
        let rest = ids.drop_last();
        let id = ids.last();
        let b = analysed(c, sources, existing, rest);
        let a = analysed(c, sources, existing, ids);
        assert(rest.no_duplicates());
        lemma_analysed(c, sources, existing, rest);
        assert(ids[ids.len() - 1] == id);
        assert(!rest.contains(id)) by {
            if rest.contains(id) {
                let k = choose|k: int| 0 <= k < rest.len() && rest[k] == id;
                assert(ids[k] == ids[ids.len() - 1]);
            }
        }
        assert forall|x: Seq<char>| rest.contains(x) implies ids.contains(x) by {
            let k = choose|k: int| 0 <= k < rest.len() && rest[k] == x;
            assert(ids[k] == x);
        }
        match loaded(c.pages, id, source_of(sources, id)) {
            Err(_) => {},
            Ok(page) => {
                let targets = link_targets(page.content);
                let pages = internal_targets(c, id, targets);
                lemma_internal_targets(c, id, targets);
                lemma_merged(b.linked_pages, pages);
                let n = b.edges.len() as int;
                assert forall|i: int| 0 <= i < a.edges.len() implies (#[trigger] a.edges[i]).source
                    != a.edges[i].target && ids.contains(a.edges[i].source) by {
                    if i < n {
                        assert(a.edges[i] == b.edges[i]);
                    } else {
                        assert(a.edges[i] == EdgeModel { source: id, target: pages[i - n] });
                        assert(pages.contains(pages[i - n]));
                    }
                }
                assert forall|i: int, j: int|
                    0 <= i < a.edges.len() && 0 <= j < a.edges.len() && i != j implies a.edges[i]
                    != a.edges[j] by {
                    if i < n {
                        assert(a.edges[i] == b.edges[i]);
                        assert(rest.contains(b.edges[i].source));
                    } else {
                        assert(a.edges[i] == EdgeModel { source: id, target: pages[i - n] });
                    }
                    if j < n {
                        assert(a.edges[j] == b.edges[j]);
                        assert(rest.contains(b.edges[j].source));
                    } else {
                        assert(a.edges[j] == EdgeModel { source: id, target: pages[j - n] });
                    }
                }
                assert forall|t: Seq<char>| #[trigger]
                    a.linked_pages.contains(t) == (exists|i: int|
                        0 <= i < a.edges.len() && (#[trigger] a.edges[i]).target == t) by {
                    assert(a.linked_pages.contains(t) == (b.linked_pages.contains(t)
                        || pages.contains(t)));
                    if b.linked_pages.contains(t) {
                        let i = choose|i: int|
                            0 <= i < b.edges.len() && (#[trigger] b.edges[i]).target == t;
                        assert(a.edges[i] == b.edges[i]);
                    }
                    if pages.contains(t) {
                        let k = choose|k: int| 0 <= k < pages.len() && pages[k] == t;
                        assert(a.edges[n + k] == EdgeModel { source: id, target: t });
                    }
                    if exists|i: int| 0 <= i < a.edges.len() && (#[trigger] a.edges[i]).target
                        == t {
                        let i = choose|i: int|
                            0 <= i < a.edges.len() && (#[trigger] a.edges[i]).target == t;
                        if i < n {
                            assert(a.edges[i] == b.edges[i]);
                        } else {
                            assert(a.edges[i] == EdgeModel { source: id, target: pages[i - n] });
                            assert(pages.contains(pages[i - n]));
                        }
                    }
                }
            },
        }
    }
}

/// The link graph has every edge once and no page linking to itself; and the
/// linked pages are the targets of its edges, each once.
pub proof fn the_link_graph_is_simple(
    m: IndexModel,
    sources: SourceTable,
    existing: Seq<Seq<char>>,
)
    requires
        m.wf(),
    ensures
        ({
            let a = analysed(m.catalog(), sources, existing, m.order);
            &&& a.edges.no_duplicates()
            &&& forall|i: int|
                0 <= i < a.edges.len() ==> (#[trigger] a.edges[i]).source != a.edges[i].target
                    && m.pages.contains_key(a.edges[i].source)
            &&& a.linked_pages.no_duplicates()
            &&& forall|t: Seq<char>| #[trigger]
                a.linked_pages.contains(t) == (exists|i: int|
                    0 <= i < a.edges.len() && (#[trigger] a.edges[i]).target == t)
        }),
{
    lemma_analysed(m.catalog(), sources, existing, m.order);
    let a = analysed(m.catalog(), sources, existing, m.order);
    assert forall|i: int| 0 <= i < a.edges.len() implies (#[trigger] a.edges[i]).source
        != a.edges[i].target && m.pages.contains_key(a.edges[i].source) by {
        assert(m.order.contains(a.edges[i].source));
    }
}

/// What the links of a page lead to; none where the page cannot be loaded.
pub open spec fn loaded_targets(c: Catalog, sources: SourceTable, id: Seq<char>) -> Option<
    Seq<Seq<char>>,
> {
    match loaded(c.pages, id, source_of(sources, id)) {
        Ok(page) => Some(link_targets(page.content)),
        Err(_) => None,
    }
}

proof fn lemma_ends<A>(s: Seq<A>, x: A)
    requires
        s.len() > 0,
    ensures
        s.contains(x) == (s.drop_last().contains(x) || s.last() == x),
{
    assert(s.drop_last().push(s.last()) =~= s);
    vstd::seq_lib::lemma_seq_contains_after_push(s.drop_last(), s.last(), x);
}

proof fn lemma_broken_in(
    c: Catalog,
    title: Seq<char>,
    id: Seq<char>,
    targets: Seq<Seq<char>>,
    b: BrokenModel,
)
    ensures
        broken_in(c, title, id, targets).contains(b) == (b.source_title == title && b.source_id
            == id && targets.contains(b.target) && classified(c, b.target) is Unknown),
    decreases targets.len(),
{
    if targets.len() > 0 {
        let before = broken_in(c, title, id, targets.drop_last());
        let here = BrokenModel { source_title: title, source_id: id, target: targets.last() };
        lemma_broken_in(c, title, id, targets.drop_last(), b);
        lemma_ends(targets, b.target);
        vstd::seq_lib::lemma_seq_contains_after_push(before, here, b);
        if b.source_title == title && b.source_id == id && b.target == targets.last() {
            assert(b =~= here);
        }
    }
}

/// A link is reported as broken exactly where a page that can be loaded holds
/// it and it leads nowhere.
pub proof fn broken_links_are_reported(
    c: Catalog,
    sources: SourceTable,
    existing: Seq<Seq<char>>,
    ids: Seq<Seq<char>>,
    b: BrokenModel,
)
    ensures
        analysed(c, sources, existing, ids).broken_links.contains(b) == (ids.contains(b.source_id)
            && b.source_title == c.pages[b.source_id].title && (loaded_targets(
            c,
            sources,
            b.source_id,
        ) matches Some(targets) && targets.contains(b.target)) && classified(c, b.target)
            is Unknown),
    decreases ids.len(),
{
    if ids.len() > 0 {
        let id = ids.last();
        let before = analysed(c, sources, existing, ids.drop_last()).broken_links;
        broken_links_are_reported(c, sources, existing, ids.drop_last(), b);
        lemma_ends(ids, b.source_id);
        if let Some(targets) = loaded_targets(c, sources, id) {
            let title = c.pages[id].title;
            lemma_broken_in(c, title, id, targets, b);
            vstd::seq_lib::lemma_seq_concat_contains_all_elements(
                before,
                broken_in(c, title, id, targets),
                b,
            );
        }
    }
}

/// A page is reported as unreadable exactly where it cannot be loaded.
pub proof fn unreadable_pages_are_reported(
    c: Catalog,
    sources: SourceTable,
    existing: Seq<Seq<char>>,
    ids: Seq<Seq<char>>,
    e: LoadErrorModel,
)
    ensures
        analysed(c, sources, existing, ids).load_errors.contains(e) == (ids.contains(e.page_id)
            && e.title == c.pages[e.page_id].title && loaded(
            c.pages,
            e.page_id,
            source_of(sources, e.page_id),
        ) == Result::<PageModel, Seq<char>>::Err(e.error)),
    decreases ids.len(),
{
    if ids.len() > 0 {
        let id = ids.last();
        let before = analysed(c, sources, existing, ids.drop_last()).load_errors;
        unreadable_pages_are_reported(c, sources, existing, ids.drop_last(), e);
        lemma_ends(ids, e.page_id);
        if let Err(error) = loaded(c.pages, id, source_of(sources, id)) {
            let here = LoadErrorModel { page_id: id, title: c.pages[id].title, error };
            vstd::seq_lib::lemma_seq_contains_after_push(before, here, e);
            if e.page_id == id && e.title == here.title && e.error == error {
                assert(e =~= here);
            }
        }
    }
}

proof fn lemma_internal_pages(c: Catalog, id: Seq<char>, targets: Seq<Seq<char>>, page: Seq<char>)
    ensures
        internal_targets(c, id, targets).contains(page) == (page != id && exists|k: int|
            0 <= k < targets.len() && classified(c, #[trigger] targets[k])
                == TargetModel::InternalPage(page)),
    decreases targets.len(),
{
    if targets.len() > 0 {
        let rest = targets.drop_last();
        let before = internal_targets(c, id, rest);
        lemma_internal_pages(c, id, rest, page);
        if exists|k: int|
            0 <= k < rest.len() && classified(c, #[trigger] rest[k]) == TargetModel::InternalPage(
                page,
            ) {
            let k = choose|k: int|
                0 <= k < rest.len() && classified(c, #[trigger] rest[k])
                    == TargetModel::InternalPage(page);
            assert(targets[k] == rest[k]);
        }
        if exists|k: int|
            0 <= k < targets.len() && classified(c, #[trigger] targets[k])
                == TargetModel::InternalPage(page) {
            let k = choose|k: int|
                0 <= k < targets.len() && classified(c, #[trigger] targets[k])
                    == TargetModel::InternalPage(page);
            if k < rest.len() {
                assert(rest[k] == targets[k]);
            }
        }
        assert(targets[rest.len() as int] == targets.last());
        if let TargetModel::InternalPage(p) = classified(c, targets.last()) {
            vstd::seq_lib::lemma_seq_contains_after_push(before, p, page);
        }
    }
}

/// The link graph has an edge between two different pages exactly where the
/// first can be loaded and one of its links leads to the second.
pub proof fn edges_are_the_links_between_pages(
    c: Catalog,
    sources: SourceTable,
    existing: Seq<Seq<char>>,
    ids: Seq<Seq<char>>,
    e: EdgeModel,
)
    ensures
        analysed(c, sources, existing, ids).edges.contains(e) == (ids.contains(e.source) && e.target
            != e.source && (loaded_targets(c, sources, e.source) matches Some(targets) && exists|
            k: int,
        |
            0 <= k < targets.len() && classified(c, #[trigger] targets[k])
                == TargetModel::InternalPage(e.target))),
    decreases ids.len(),
{
    if ids.len() > 0 {
        let id = ids.last();
        let before = analysed(c, sources, existing, ids.drop_last()).edges;
        edges_are_the_links_between_pages(c, sources, existing, ids.drop_last(), e);
        lemma_ends(ids, e.source);
        if let Some(targets) = loaded_targets(c, sources, id) {
            let pages = internal_targets(c, id, targets);
            let here = edges_from(id, pages);
            lemma_internal_pages(c, id, targets, e.target);
            vstd::seq_lib::lemma_seq_concat_contains_all_elements(before, here, e);
            if here.contains(e) {
                let k = choose|k: int| 0 <= k < here.len() && here[k] == e;
                assert(pages[k] == e.target);
            }
            if e.source == id && pages.contains(e.target) {
                let k = choose|k: int| 0 <= k < pages.len() && pages[k] == e.target;
                assert(here[k] =~= e);
            }
        }
    }
}

/// A page is among the backlinks of another one exactly where it can be loaded
/// and one of its links leads there.
pub proof fn backlinks_are_the_links_to_a_page(
    m: IndexModel,
    sources: SourceTable,
    a: Seq<char>,
    t: Seq<char>,
)
    requires
        m.wf(),
    ensures
        listed(linked(m, sources).back, t).contains(a) == (m.pages.contains_key(a) && a != t && (
        loaded_targets(m.catalog(), sources, a) matches Some(targets) && exists|k: int|
            0 <= k < targets.len() && classified(m.catalog(), #[trigger] targets[k])
                == TargetModel::InternalPage(t))),
{
    let c = m.catalog();
    let back = |x: Seq<char>| linking_to(c, sources, m.order, x);
    lemma_listed_of(back, t);
    assert(listed(linked(m, sources).back, t) == linking_to(c, sources, m.order, t));
    lemma_linking_to(c, sources, m.order, t);
    assert(m.order.contains(a) == m.pages.contains_key(a));
    lemma_internal_pages(c, a, page_targets(c, a, source_of(sources, a)), t);
}

proof fn lemma_missing_in(
    root: Seq<char>,
    title: Seq<char>,
    id: Seq<char>,
    targets: Seq<Seq<char>>,
    existing: Seq<Seq<char>>,
)
    ensures
        ({
            let missing = missing_in(root, title, id, targets, existing);
            &&& forall|k: int|
                0 <= k < missing.len() ==> {
                    let m = #[trigger] missing[k];
                    &&& m.source_title == title
                    &&& m.source_id == id
                    &&& targets.contains(m.target)
                    &&& attachment_path(root, m.target) == Some(m.resolved_path)
                    &&& !holds_path(existing, m.resolved_path)
                }
            &&& forall|t: Seq<char>|
                #![trigger targets.contains(t)]
                targets.contains(t) ==> (attachment_path(root, t) matches Some(path)
                    ==> holds_path(existing, path) || reported(missing, path))
        }),
    decreases targets.len(),
{
    if targets.len() > 0 {
        let rest = targets.drop_last();
        let before = missing_in(root, title, id, rest, existing);
        let missing = missing_in(root, title, id, targets, existing);
        lemma_missing_in(root, title, id, rest, existing);
        assert forall|t: Seq<char>| rest.contains(t) implies #[trigger] targets.contains(t) by {
            lemma_ends(targets, t);
        }
        lemma_ends(targets, targets.last());
        assert forall|path: Seq<char>| reported(before, path) implies reported(missing, path) by {
            let k = choose|k: int|
                0 <= k < before.len() && same_path((#[trigger] before[k]).resolved_path, path);
            assert(missing[k] == before[k]);
        }
        assert forall|t: Seq<char>| #[trigger] targets.contains(t) implies (attachment_path(
            root,
            t,
        ) matches Some(path) ==> holds_path(existing, path) || reported(missing, path)) by {
            lemma_ends(targets, t);
            if let Some(path) = attachment_path(root, t) {
                if !rest.contains(t) && !holds_path(existing, path) && !reported(before, path) {
                    assert(missing[before.len() as int].resolved_path == path);
                }
            }
        }
        assert forall|k: int| 0 <= k < missing.len() implies {
            let m = #[trigger] missing[k];
            &&& m.source_title == title
            &&& m.source_id == id
            &&& targets.contains(m.target)
            &&& attachment_path(root, m.target) == Some(m.resolved_path)
            &&& !holds_path(existing, m.resolved_path)
        } by {
            if k < before.len() {
                assert(missing[k] == before[k]);
                assert(rest.contains(before[k].target));
            }
        }
    }
}

/// What is reported as missing is an attachment that a page links to and that
/// is not there.
pub proof fn reported_attachments_are_missing(
    c: Catalog,
    sources: SourceTable,
    existing: Seq<Seq<char>>,
    ids: Seq<Seq<char>>,
    m: MissingModel,
)
    requires
        analysed(c, sources, existing, ids).missing_attachments.contains(m),
    ensures
        ids.contains(m.source_id),
        m.source_title == c.pages[m.source_id].title,
        loaded_targets(c, sources, m.source_id) matches Some(targets) && targets.contains(m.target),
        attachment_path(c.root, m.target) == Some(m.resolved_path),
        !holds_path(existing, m.resolved_path),
    decreases ids.len(),
{
    let rest = ids.drop_last();
    let last = ids.last();
    let before = analysed(c, sources, existing, rest).missing_attachments;
    lemma_ends(ids, m.source_id);
    if before.contains(m) {
        reported_attachments_are_missing(c, sources, existing, rest, m);
    } else {
        let targets = loaded_targets(c, sources, last)->0;
        let title = c.pages[last].title;
        let here = missing_in(c.root, title, last, targets, existing);
        vstd::seq_lib::lemma_seq_concat_contains_all_elements(before, here, m);
        lemma_missing_in(c.root, title, last, targets, existing);
        let k = choose|k: int| 0 <= k < here.len() && here[k] == m;
        assert(here[k].source_id == last);
    }
}

/// Each attachment that a page links to and that is not there is reported for
/// the page, in one of its spellings.
pub proof fn missing_attachments_are_reported(
    c: Catalog,
    sources: SourceTable,
    existing: Seq<Seq<char>>,
    ids: Seq<Seq<char>>,
    id: Seq<char>,
    target: Seq<char>,
    path: Seq<char>,
)
    requires
        ids.contains(id),
        loaded_targets(c, sources, id) matches Some(targets) && targets.contains(target),
        attachment_path(c.root, target) == Some(path),
        !holds_path(existing, path),
    ensures
        exists|m: MissingModel| #[trigger]
            analysed(c, sources, existing, ids).missing_attachments.contains(m) && m.source_id == id
                && same_path(m.resolved_path, path),
    decreases ids.len(),
{
    let rest = ids.drop_last();
    let last = ids.last();
    let before = analysed(c, sources, existing, rest).missing_attachments;
    let all = analysed(c, sources, existing, ids).missing_attachments;
    lemma_ends(ids, id);
    if rest.contains(id) {
        missing_attachments_are_reported(c, sources, existing, rest, id, target, path);
        let m = choose|m: MissingModel| #[trigger]
            before.contains(m) && m.source_id == id && same_path(m.resolved_path, path);
        if let Some(targets) = loaded_targets(c, sources, last) {
            let here = missing_in(c.root, c.pages[last].title, last, targets, existing);
            vstd::seq_lib::lemma_seq_concat_contains_all_elements(before, here, m);
        }
        assert(all.contains(m));
    } else {
        let targets = loaded_targets(c, sources, last)->0;
        let title = c.pages[last].title;
        let here = missing_in(c.root, title, last, targets, existing);
        lemma_missing_in(c.root, title, last, targets, existing);
        let k = choose|k: int|
            0 <= k < here.len() && same_path((#[trigger] here[k]).resolved_path, path);
        vstd::seq_lib::lemma_seq_concat_contains_all_elements(before, here, here[k]);
        assert(all.contains(here[k]));
    }
}

/// Adds the texts that are not there yet.
fn merge_texts(texts: &mut Vec<String>, more: &Vec<String>)
    ensures
        views(final(texts)@) == merged(views(old(texts)@), views(more@)),
{
    let ghost start = views(texts@);
    let ghost all = views(more@);
    let mut i: usize = 0;
    assert(all.take(0) =~= Seq::<Seq<char>>::empty());
    while i < more.len()
        invariant
            all == views(more@),
            i <= more@.len(),
            views(texts@) == merged(start, all.take(i as int)),
        decreases more.len() - i,
    {
        assert(all.take(i as int + 1).drop_last() =~= all.take(i as int));
        assert(all.take(i as int + 1).last() == more@[i as int]@);
        if !has_text(texts, more[i].as_str()) {
            let t = copy_of(more[i].as_str());
            proof {
                lemma_views_push(texts@, t);
            }
            texts.push(t);
        }
        i += 1;
    }
    assert(all.take(i as int) =~= all);
}

impl KnowledgeBaseIndex {
    fn broken_of(&self, title: &str, id: &str, targets: &Vec<String>) -> (broken: Vec<BrokenLink>)
        requires
            self.wf(),
        ensures
            broken_views(broken@) == broken_in(self@.catalog(), title@, id@, views(targets@)),
    {
        let ghost all = views(targets@);
        let ghost c = self@.catalog();
        let mut broken: Vec<BrokenLink> = Vec::new();
        let mut i: usize = 0;
        assert(all.take(0) =~= Seq::<Seq<char>>::empty());
        assert(broken_views(broken@) =~= Seq::<BrokenModel>::empty());
        while i < targets.len()
            invariant
                self.wf(),
                c == self@.catalog(),
                all == views(targets@),
                i <= targets@.len(),
                broken_views(broken@) == broken_in(c, title@, id@, all.take(i as int)),
            decreases targets.len() - i,
        {
            assert(all.take(i as int + 1).drop_last() =~= all.take(i as int));
            assert(all.take(i as int + 1).last() == targets@[i as int]@);
            let ghost before = broken@;
            if let LinkTargetKind::Unknown(_) = self.classify_link_target(targets[i].as_str()) {
                broken.push(
                    BrokenLink {
                        source_title: copy_of(title),
                        source_id: copy_of(id),
                        target: copy_of(targets[i].as_str()),
                    },
                );
                assert(broken_views(broken@) =~= broken_views(before).push(
                    BrokenModel {
                        source_title: title@,
                        source_id: id@,
                        target: all[i as int],
                    },
                ));
            }
            i += 1;
        }
        assert(all.take(i as int) =~= all);
        broken
    }

    /// Where the attachment that a target names lies, if it names one.
    fn find_attachment(&self, target: &str) -> (path: Option<String>)
        ensures
            opt_view(path) == attachment_path(self@.root, target@),
    {
        if extract_attachment_relative(target).is_none() {
            return None;
        }
        self.attachment_resolver().resolve_path(target)
    }

    fn missing_of(
        &self,
        title: &str,
        id: &str,
        targets: &Vec<String>,
        existing: &Vec<String>,
    ) -> (missing: Vec<MissingAttachment>)
        ensures
            missing_views(missing@) == missing_in(
                self@.root,
                title@,
                id@,
                views(targets@),
                views(existing@),
            ),
    {
        let ghost all = views(targets@);
        let ghost there = views(existing@);
        let ghost root = self@.root;
        let mut missing: Vec<MissingAttachment> = Vec::new();
        let mut paths: Vec<String> = Vec::new();
        let mut i: usize = 0;
        assert(all.take(0) =~= Seq::<Seq<char>>::empty());
        assert(missing_views(missing@) =~= Seq::<MissingModel>::empty());
        while i < targets.len()
            invariant
                root == self@.root,
                all == views(targets@),
                there == views(existing@),
                i <= targets@.len(),
                missing_views(missing@) == missing_in(root, title@, id@, all.take(i as int), there),
                paths@.len() == missing@.len(),
                forall|k: int|
                    0 <= k < paths@.len() ==> (#[trigger] paths@[k])@
                        == missing@[k].resolved_path@,
            decreases targets.len() - i,
        {
            assert(all.take(i as int + 1).drop_last() =~= all.take(i as int));
            assert(all.take(i as int + 1).last() == targets@[i as int]@);
            let ghost before = missing@;
            if let Some(path) = self.find_attachment(targets[i].as_str()) {
                let seen = has_path(&paths, path.as_str());
                proof {
                    if seen {
                        let k = choose|k: int|
                            0 <= k < views(paths@).len() && same_path(
                                #[trigger] views(paths@)[k],
                                path@,
                            );
                        assert(missing_views(before)[k].resolved_path == paths@[k]@);
                        assert(reported(missing_views(before), path@));
                    } else if reported(missing_views(before), path@) {
                        let k = choose|k: int|
                            0 <= k < missing_views(before).len() && same_path(
                                (#[trigger] missing_views(before)[k]).resolved_path,
                                path@,
                            );
                        assert(views(paths@)[k] == paths@[k]@);
                    }
                }
                if !has_path(existing, path.as_str()) && !seen {
                    paths.push(copy_of(path.as_str()));
                    missing.push(
                        MissingAttachment {
                            source_title: copy_of(title),
                            source_id: copy_of(id),
                            target: copy_of(targets[i].as_str()),
                            resolved_path: path,
                        },
                    );
                    assert(missing_views(missing@) =~= missing_views(before).push(
                        MissingModel {
                            source_title: title@,
                            source_id: id@,
                            target: all[i as int],
                            resolved_path: path@,
                        },
                    ));
                }
            }
            i += 1;
        }
        assert(all.take(i as int) =~= all);
        missing
    }

    fn edges_of(id: &str, targets: &Vec<PageId>) -> (edges: Vec<LinkEdge>)
        ensures
            edge_views(edges@) == edges_from(id@, views(targets@)),
    {
        let mut edges: Vec<LinkEdge> = Vec::new();
        let mut i: usize = 0;
        while i < targets.len()
            invariant
                i <= targets@.len(),
                edges@.len() == i,
                forall|k: int|
                    0 <= k < i ==> (#[trigger] edges@[k])@ == (EdgeModel {
                        source: id@,
                        target: targets@[k]@,
                    }),
            decreases targets.len() - i,
        {
            edges.push(LinkEdge { source: copy_of(id), target: copy_of(targets[i].as_str()) });
            i += 1;
        }
        assert(edge_views(edges@) =~= edges_from(id@, views(targets@)));
        edges
    }

    /// Analyses one more page.
    fn scan_page(
        &self,
        id: &str,
        sources: &StrMap<PageSource>,
        existing: &Vec<String>,
        found: &mut LinkAnalysisResult,
    )
        requires
            self.wf(),
            sources.wf(),
            self@.pages.contains_key(id@),
        ensures
            final(found)@ == analysed_page(
                self@.catalog(),
                source_table(*sources),
                views(existing@),
                old(found)@,
                id@,
            ),
    {
        let ghost before = found@;
        let title = match self.pages.get(id) {
            Some(meta) => copy_of(meta.title.as_str()),
            None => String::new(),
        };
        match self.load_from(id, sources) {
            Err(error) => {
                let ghost errors = found.load_errors@;
                found.load_errors.push(PageLoadError { page_id: copy_of(id), title, error });
                assert(load_error_views(found.load_errors@) =~= load_error_views(errors).push(
                    LoadErrorModel { page_id: id@, title: title@, error: error@ },
                ));
            },
            Ok(page) => {
                let targets = extract_link_targets(&page.content);
                let pages = self.internal_pages(id, &targets);
                let mut broken = self.broken_of(title.as_str(), id, &targets);
                let mut missing = self.missing_of(title.as_str(), id, &targets, existing);
                let mut edges = Self::edges_of(id, &pages);
                let ghost broken0 = found.broken_links@;
                let ghost missing0 = found.missing_attachments@;
                let ghost edges0 = found.edges@;
                let ghost broken1 = broken@;
                let ghost missing1 = missing@;
                let ghost edges1 = edges@;
                found.broken_links.append(&mut broken);
                found.missing_attachments.append(&mut missing);
                found.edges.append(&mut edges);
                merge_texts(&mut found.linked_pages, &pages);
                assert(broken_views(found.broken_links@) =~= broken_views(broken0)
                    + broken_views(broken1));
                assert(missing_views(found.missing_attachments@) =~= missing_views(missing0)
                    + missing_views(missing1));
                assert(edge_views(found.edges@) =~= edge_views(edges0) + edge_views(edges1));
            },
        }
    }

    /// Scans all pages in a single pass, collecting broken links, linked
    /// pages, link graph edges, missing attachments, and load errors. An
    /// attachment is missing unless a spelling of its path is one of `existing`.
    pub fn scan_all_pages(
        &self,
        sources: &StrMap<PageSource>,
        existing: &Vec<String>,
    ) -> (found: LinkAnalysisResult)
        requires
            self.wf(),
            sources.wf(),
        ensures
            found@ == analysed(
                self@.catalog(),
                source_table(*sources),
                views(existing@),
                self@.order,
            ),
    {
        let ghost all = self@.order;
        let ghost c = self@.catalog();
        let ghost table = source_table(*sources);
        let ghost there = views(existing@);
        let mut found = LinkAnalysisResult {
            broken_links: Vec::new(),
            linked_pages: Vec::new(),
            load_errors: Vec::new(),
            missing_attachments: Vec::new(),
            edges: Vec::new(),
        };
        let mut i: usize = 0;
        assert(all.take(0) =~= Seq::<Seq<char>>::empty());
        assert(found@ =~= analysed(c, table, there, all.take(0)));
        while i < self.sorted_ids.len()
            invariant
                self.wf(),
                sources.wf(),
                all == self@.order,
                c == self@.catalog(),
                table == source_table(*sources),
                there == views(existing@),
                i <= self.sorted_ids@.len(),
                found@ == analysed(c, table, there, all.take(i as int)),
            decreases self.sorted_ids.len() - i,
        {
            assert(all.take(i as int + 1).drop_last() =~= all.take(i as int));
            assert(all.take(i as int + 1).last() == all[i as int]);
            assert(all[i as int] == self.sorted_ids@[i as int]@);
            assert(all.contains(all[i as int]));
            self.scan_page(self.sorted_ids[i].as_str(), sources, existing, &mut found);
            i += 1;
        }
        assert(all.take(i as int) =~= all);
        found
    }

    /// Alias for [`Self::scan_all_pages`].
    pub fn analyze_all(
        &self,
        sources: &StrMap<PageSource>,
        existing: &Vec<String>,
    ) -> (found: LinkAnalysisResult)
        requires
            self.wf(),
            sources.wf(),
        ensures
            found@ == analysed(
                self@.catalog(),
                source_table(*sources),
                views(existing@),
                self@.order,
            ),
    {
        self.scan_all_pages(sources, existing)
    }

    /// Alias for [`Self::scan_all_pages`].
    pub fn analyze_links(
        &self,
        sources: &StrMap<PageSource>,
        existing: &Vec<String>,
    ) -> (found: LinkAnalysisResult)
        requires
            self.wf(),
            sources.wf(),
        ensures
            found@ == analysed(
                self@.catalog(),
                source_table(*sources),
                views(existing@),
                self@.order,
            ),
    {
        self.scan_all_pages(sources, existing)
    }

    /// Builds the full directed link graph across all pages.
    ///
    /// Each edge represents one internal page-to-page link (deduplicated per
    /// source/target pair). Self-links are excluded.
    pub fn build_link_graph(&self, sources: &StrMap<PageSource>) -> (graph: LinkGraph)
        requires
            self.wf(),
            sources.wf(),
        ensures
            edge_views(graph.edges@) == analysed(
                self@.catalog(),
                source_table(*sources),
                Seq::empty(),
                self@.order,
            ).edges,
    {
        let none: Vec<String> = Vec::new();
        assert(views(none@) =~= Seq::<Seq<char>>::empty());
        let found = self.scan_all_pages(sources, &none);
        LinkGraph { edges: found.edges }
    }

    /// Finds attachment references whose files are missing; see
    /// [`LinkAnalysisResult::missing_attachments`].
    pub fn find_missing_attachments(
        &self,
        sources: &StrMap<PageSource>,
        existing: &Vec<String>,
    ) -> (missing: Vec<MissingAttachment>)
        requires
            self.wf(),
            sources.wf(),
        ensures
            missing_views(missing@) == analysed(
                self@.catalog(),
                source_table(*sources),
                views(existing@),
                self@.order,
            ).missing_attachments,
    {
        let found = self.scan_all_pages(sources, existing);
        found.missing_attachments
    }
}

/// The edges that start or end at a page.
pub open spec fn ego_edges(edges: Seq<EdgeModel>, id: Seq<char>) -> Seq<EdgeModel>
    decreases edges.len(),
{
    if edges.len() == 0 {
        Seq::empty()
    } else {
        let before = ego_edges(edges.drop_last(), id);
        if edges.last().source == id || edges.last().target == id {
            before.push(edges.last())
        } else {
            before
        }
    }
}

/// The edges around a page are those of the graph that begin or end at it.
pub proof fn ego_edges_touch_the_page(edges: Seq<EdgeModel>, id: Seq<char>, e: EdgeModel)
    ensures
        ego_edges(edges, id).contains(e) == (edges.contains(e) && (e.source == id || e.target
            == id)),
    decreases edges.len(),
{
    if edges.len() > 0 {
        ego_edges_touch_the_page(edges.drop_last(), id, e);
        lemma_ends(edges, e);
        vstd::seq_lib::lemma_seq_contains_after_push(
            ego_edges(edges.drop_last(), id),
            edges.last(),
            e,
        );
    }
}

impl LinkGraph {
    /// Returns edges filtered to only those involving `page_id` (as source or
    /// target).
    pub fn ego(&self, page_id: &str) -> (edges: Vec<&LinkEdge>)
        ensures
            Seq::new(edges@.len(), |i: int| edges@[i]@) == ego_edges(
                edge_views(self.edges@),
                page_id@,
            ),
    {
        let ghost all = edge_views(self.edges@);
        let mut edges: Vec<&LinkEdge> = Vec::new();
        let mut i: usize = 0;
        assert(all.take(0) =~= Seq::<EdgeModel>::empty());
        assert(Seq::new(edges@.len(), |i: int| edges@[i]@) =~= Seq::<EdgeModel>::empty());
        while i < self.edges.len()
            invariant
                all == edge_views(self.edges@),
                i <= self.edges@.len(),
                Seq::new(edges@.len(), |i: int| edges@[i]@) == ego_edges(
                    all.take(i as int),
                    page_id@,
                ),
            decreases self.edges.len() - i,
        {
            assert(all.take(i as int + 1).drop_last() =~= all.take(i as int));
            assert(all.take(i as int + 1).last() == self.edges@[i as int]@);
            let ghost before = edges@;
            let edge = &self.edges[i];
            if same_text(edge.source.as_str(), page_id) || same_text(
                edge.target.as_str(),
                page_id,
            ) {
                edges.push(edge);
                assert(Seq::new(edges@.len(), |i: int| edges@[i]@) =~= Seq::new(
                    before.len(),
                    |i: int| before[i]@,
                ).push(all[i as int]));
            }
            i += 1;
        }
        assert(all.take(i as int) =~= all);
        edges
    }
}

/// The ids that nothing links to, without the table of contents.
pub open spec fn orphans_among(
    ids: Seq<Seq<char>>,
    linked: Seq<Seq<char>>,
    toc: Option<Seq<char>>,
) -> Seq<Seq<char>>
    decreases ids.len(),
{
    if ids.len() == 0 {
        Seq::empty()
    } else {
        let before = orphans_among(ids.drop_last(), linked, toc);
        if !linked.contains(ids.last()) && toc != Some(ids.last()) {
            before.push(ids.last())
        } else {
            before
        }
    }
}

/// The orphans are the pages to which nothing links, but for the table of
/// contents.
pub proof fn orphans_are_unlinked(
    ids: Seq<Seq<char>>,
    linked: Seq<Seq<char>>,
    toc: Option<Seq<char>>,
    id: Seq<char>,
)
    ensures
        orphans_among(ids, linked, toc).contains(id) == (ids.contains(id) && !linked.contains(id)
            && toc != Some(id)),
    decreases ids.len(),
{
    if ids.len() > 0 {
        orphans_are_unlinked(ids.drop_last(), linked, toc, id);
        lemma_ends(ids, id);
        vstd::seq_lib::lemma_seq_contains_after_push(
            orphans_among(ids.drop_last(), linked, toc),
            ids.last(),
            id,
        );
    }
}

/// A set of pages that share the same title (case-insensitive).
#[derive(Debug, Clone, PartialEq, Eq)]
pub struct DuplicateTitle {
    /// The shared title (original casing from the first match).
    pub title: String,
    /// Page ids sharing this title.
    pub page_ids: Vec<PageId>,
}

/// Whether `dupe` reports the pages with the lowercased title `t`: their ids in
/// order, and the title as the first of them writes it.
pub open spec fn reports_title(m: IndexModel, dupe: DuplicateTitle, t: Seq<char>) -> bool {
    let ids = listed(m.titled, t);
    &&& ids.len() > 1
    &&& is_sorting(views(dupe.page_ids@), ids)
    &&& dupe.title@ == m.pages[ids[0]].title
}

/// Whether `dupes` reports each title that more than one page has, once, by
/// lowercased title.
pub open spec fn lists_duplicate_titles(m: IndexModel, dupes: Seq<DuplicateTitle>) -> bool {
    &&& exists|titles: Seq<Seq<char>>|
        {
            &&& titles.no_duplicates()
            &&& titles.len() == dupes.len()
            &&& forall|t: Seq<char>| #[trigger]
                titles.contains(t) == (listed(m.titled, t).len() > 1)
            &&& forall|i: int|
                0 <= i < dupes.len() ==> reports_title(m, #[trigger] dupes[i], titles[i])
        }
    &&& forall|i: int, j: int|
        0 <= i < j < dupes.len() ==> text_le(
            lowercase((#[trigger] dupes[i]).title@),
            lowercase((#[trigger] dupes[j]).title@),
        )
}

impl KnowledgeBaseIndex {
    /// Returns page ids that are not linked to by any other page.
    ///
    /// The `toc_page_id` (table-of-contents), when present, is excluded from the
    /// result since it serves as the root entry point and is not expected to be
    /// linked to.
    pub fn orphan_ids(&self, linked_pages: &Vec<PageId>, toc_page_id: Option<&str>) -> (ids: Vec<
        PageId,
    >)
        ensures
            views(ids@) == orphans_among(
                self@.order,
                views(linked_pages@),
                match toc_page_id {
                    Some(t) => Some(t@),
                    None => None,
                },
            ),
    {
        let ghost all = self@.order;
        let ghost toc = match toc_page_id {
            Some(t) => Some(t@),
            None => None,
        };
        let mut ids: Vec<PageId> = Vec::new();
        let mut i: usize = 0;
        assert(all.take(0) =~= Seq::<Seq<char>>::empty());
        assert(views(ids@) =~= Seq::<Seq<char>>::empty());
        while i < self.sorted_ids.len()
            invariant
                all == self@.order,
                toc == match toc_page_id {
                    Some(t) => Some(t@),
                    None => None,
                },
                i <= self.sorted_ids@.len(),
                views(ids@) == orphans_among(all.take(i as int), views(linked_pages@), toc),
            decreases self.sorted_ids.len() - i,
        {
            assert(all.take(i as int + 1).drop_last() =~= all.take(i as int));
            assert(all.take(i as int + 1).last() == self.sorted_ids@[i as int]@);
            let id = self.sorted_ids[i].as_str();
            let is_toc = match toc_page_id {
                Some(t) => same_text(t, id),
                None => false,
            };
            if !has_text(linked_pages, id) && !is_toc {
                let orphan = copy_of(id);
                proof {
                    lemma_views_push(ids@, orphan);
                }
                ids.push(orphan);
            }
            i += 1;
        }
        assert(all.take(i as int) =~= all);
        ids
    }

    /// Finds page titles shared by more than one page (case-insensitive).
    pub fn find_duplicate_titles(&self) -> (dupes: Vec<DuplicateTitle>)
        requires
            self.wf(),
        ensures
            lists_duplicate_titles(self@, dupes@),
    {
        let ghost keys = self.tables.title_index.keys();
        let ghost m = self@;
        let mut groups: Vec<DuplicateTitle> = Vec::new();
        let mut labels: Vec<String> = Vec::new();
        let ghost mut titles: Seq<Seq<char>> = Seq::empty();
        let mut i: usize = 0;
        while i < self.tables.title_index.len()
            invariant
                self.wf(),
                m == self@,
                keys == self.tables.title_index.keys(),
                i <= keys.len(),
                titles.len() == groups@.len(),
                labels@.len() == groups@.len(),
                titles.no_duplicates(),
                forall|k: int|
                    0 <= k < titles.len() ==> (exists|j: int|
                        0 <= j < i && (#[trigger] keys[j]) == (#[trigger] titles[k])),
                forall|j: int|
                    0 <= j < i && listed(m.titled, #[trigger] keys[j]).len() > 1
                        ==> titles.contains(keys[j]),
                forall|k: int|
                    0 <= k < groups@.len() ==> reports_title(m, #[trigger] groups@[k], titles[k]),
                forall|k: int|
                    0 <= k < labels@.len() ==> (#[trigger] labels@[k])@ == lowercase(
                        groups@[k].title@,
                    ),
            decreases keys.len() - i,
        {
            proof {
                self.tables.title_index.lemma_at(i as int);
            }
            let key = self.tables.title_index.key_at(i);
            let ids = list_at(&self.tables.title_index, key);
            let ghost titles0 = titles;
            let ghost groups0 = groups@;
            if ids.len() > 1 {
                assert(listed(m.titled, key@).contains(views(ids@)[0]));
                let title = match self.pages.get(ids[0].as_str()) {
                    Some(meta) => copy_of(meta.title.as_str()),
                    None => String::new(),
                };
                labels.push(to_lowercase(title.as_str()));
                let page_ids = sorted_texts(&ids);
                groups.push(DuplicateTitle { title, page_ids });
                proof {
                    titles = titles.push(key@);
                    assert(titles[titles0.len() as int] == key@);
                    assert forall|k: int| 0 <= k < titles0.len() implies titles0[k] != key@ by {
                        let j = choose|j: int| 0 <= j < i && (#[trigger] keys[j]) == titles0[k];
                        assert(keys[j] != keys[i as int]);
                    }
                    assert forall|k: int| 0 <= k < titles.len() implies (exists|j: int|
                        0 <= j < i + 1 && (#[trigger] keys[j]) == (#[trigger] titles[k])) by {
                        if k < titles0.len() {
                            assert(titles[k] == titles0[k]);
                            let j = choose|j: int| 0 <= j < i && (#[trigger] keys[j]) == titles0[k];
                            assert(keys[j] == titles[k]);
                        } else {
                            assert(keys[i as int] == titles[k]);
                        }
                    }
                    assert forall|j: int|
                        0 <= j < i + 1 && listed(m.titled, #[trigger] keys[j]).len()
                            > 1 implies titles.contains(keys[j]) by {
                        if j < i {
                            let k = choose|k: int| 0 <= k < titles0.len() && titles0[k] == keys[j];
                            assert(titles[k] == keys[j]);
                        }
                    }
                    assert forall|k: int| 0 <= k < groups@.len() implies reports_title(
                        m,
                        #[trigger] groups@[k],
                        titles[k],
                    ) by {
                        if k < groups0.len() {
                            assert(groups@[k] == groups0[k]);
                        }
                    }
                }
            } else {
                assert(listed(m.titled, keys[i as int]).len() <= 1);
            }
            i += 1;
        }
        let order = sorted_text_order(&labels);
        let ghost held = groups@;
        let mut dupes: Vec<DuplicateTitle> = Vec::new();
        let mut n: usize = 0;
        while n < order.len()
            invariant
                n <= order@.len(),
                order@.len() == groups@.len(),
                forall|k: int| 0 <= k < order@.len() ==> (#[trigger] order@[k]) < groups@.len(),
                dupes@.len() == n,
                forall|k: int|
                    0 <= k < n ==> (#[trigger] dupes@[k]).title@ == groups@[order@[k] as int].title@
                        && views(dupes@[k].page_ids@) == views(
                        groups@[order@[k] as int].page_ids@,
                    ),
            decreases order.len() - n,
        {
            let group = &groups[order[n]];
            dupes.push(
                DuplicateTitle {
                    title: copy_of(group.title.as_str()),
                    page_ids: copy_texts(&group.page_ids),
                },
            );
            n += 1;
        }
        proof {
            let sorted = arranged(titles, order@);
            assert forall|i: int, j: int|
                0 <= i < sorted.len() && 0 <= j < sorted.len() && i != j implies sorted[i]
                != sorted[j] by {
                assert(order@[i] != order@[j]);
                assert(titles[order@[i] as int] != titles[order@[j] as int]);
            }
            assert(sorted.no_duplicates());
            assert forall|t: Seq<char>| #[trigger]
                sorted.contains(t) == (listed(m.titled, t).len() > 1) by {
                if listed(m.titled, t).len() > 1 {
                    assert(self.tables.title_index.has(t));
                    let j = keys.index_of(t);
                    assert(keys[j] == t);
                    assert(titles.contains(t));
                    let k = choose|k: int| 0 <= k < titles.len() && titles[k] == t;
                    lemma_all_listed(order@, titles.len(), k);
                    let p = choose|p: int| 0 <= p < order@.len() && #[trigger] order@[p] == k;
                    assert(sorted[p] == t);
                }
                if sorted.contains(t) {
                    let p = choose|p: int| 0 <= p < sorted.len() && sorted[p] == t;
                    let k = order@[p] as int;
                    assert(titles[k] == t);
                    assert(reports_title(m, groups@[k], titles[k]));
                }
            }
            assert forall|i: int| 0 <= i < dupes@.len() implies reports_title(
                m,
                #[trigger] dupes@[i],
                sorted[i],
            ) by {
                let k = order@[i] as int;
                assert(reports_title(m, groups@[k], titles[k]));
            }
            assert forall|i: int, j: int| 0 <= i < j < dupes@.len() implies text_le(
                lowercase((#[trigger] dupes@[i]).title@),
                lowercase((#[trigger] dupes@[j]).title@),
            ) by {
                assert(comes_before(text_keys(views(labels@)), order@[i] as int, order@[j] as int));
                assert(labels@[order@[i] as int]@ == lowercase(dupes@[i].title@));
                assert(labels@[order@[j] as int]@ == lowercase(dupes@[j].title@));
            }
            assert(sorted.len() == dupes@.len());
        }
        dupes
    }

    /// Returns page ids claimed by more than one file, captured at open time.
    pub fn find_duplicate_ids(&self) -> (dupes: Vec<DuplicateId>)
        ensures
            dupes@.len() == self.duplicates().len(),
            forall|i: int|
                0 <= i < dupes@.len() ==> (#[trigger] dupes@[i]).id@ == self.duplicates()[i].id@
                    && views(dupes@[i].paths@) == views(self.duplicates()[i].paths@),
    {
        let mut dupes: Vec<DuplicateId> = Vec::new();
        let mut i: usize = 0;
        while i < self.duplicate_ids.len()
            invariant
                i <= self.duplicate_ids@.len(),
                dupes@.len() == i,
                forall|k: int|
                    0 <= k < i ==> (#[trigger] dupes@[k]).id@ == self.duplicate_ids@[k].id@
                        && views(dupes@[k].paths@) == views(self.duplicate_ids@[k].paths@),
            decreases self.duplicate_ids.len() - i,
        {
            let dupe = &self.duplicate_ids[i];
            dupes.push(
                DuplicateId { id: copy_of(dupe.id.as_str()), paths: copy_texts(&dupe.paths) },
            );
            i += 1;
        }
        dupes
    }
}

// ---------------------------------------------------------------------------
// What searching and following links are for
// ---------------------------------------------------------------------------

/// A page is found by every part of its title, of its id and of each of its tags.
/// What its title or its id holds is a match of the title.
pub proof fn a_page_is_found_by_every_part(
    m: IndexModel,
    sources: SourceTable,
    with_content: bool,
    query: Seq<char>,
    id: Seq<char>,
    whole: Seq<char>,
    a: int,
    b: int,
)
    requires
        m.wf(),
        m.pages.contains_key(id),
        whole == m.pages[id].title_lower || whole == m.pages[id].id_lower
            || m.pages[id].tags_lower.contains(whole),
        0 <= a < b <= whole.len(),
        lowercase(trimmed(query)) == whole.subrange(a, b),
    ensures
        page_match(m.pages, sources, with_content, whole.subrange(a, b), id) is Some,
        page_match(m.pages, sources, with_content, whole.subrange(a, b), id) != Some(
            SearchMatchKind::Content,
        ),
        matching_ids(m.pages, m.order, whole.subrange(a, b)).contains(id),
        exists|kind: SearchMatchKind|
            kind != SearchMatchKind::Content && #[trigger] found_hits(
                m,
                sources,
                with_content,
                query,
            ).contains(HitModel { id, kind }) && matching_kinds(
                m.pages,
                m.order,
                whole.subrange(a, b),
            ).contains(HitModel { id, kind }),
        whole == m.pages[id].title_lower || whole == m.pages[id].id_lower ==> found_hits(
            m,
            sources,
            with_content,
            query,
        ).contains(HitModel { id, kind: SearchMatchKind::Title }),
{
    let part = whole.subrange(a, b);
    let meta = m.pages[id];
    a_text_holds_its_parts(whole, a, b);
    if meta.tags_lower.contains(whole) {
        let k = choose|k: int| 0 <= k < meta.tags_lower.len() && meta.tags_lower[k] == whole;
        assert(contains(meta.tags_lower[k], part));
        assert(any_holds(meta.tags_lower, part));
    }
    let kind = meta_match(meta, part)->0;
    assert(m.order.contains(id));
    a_search_finds_what_matches(m, sources, with_content, query, id, kind);
    lemma_matching(m.pages, m.order, part, id);
}

proof fn lemma_matching(pages: PageTable, ids: Seq<Seq<char>>, needle: Seq<char>, id: Seq<char>)
    ensures
        matching_ids(pages, ids, needle).contains(id) == (ids.contains(id) && meta_match(
            pages[id],
            needle,
        ) is Some),
        forall|kind: SearchMatchKind|
            #[trigger] matching_kinds(pages, ids, needle).contains(HitModel { id, kind }) == (
            ids.contains(id) && meta_match(pages[id], needle) == Some(kind)),
    decreases ids.len(),
{
    if ids.len() > 0 {
        let rest = ids.drop_last();
        let last = ids.last();
        lemma_matching(pages, rest, needle, id);
        assert(ids =~= rest.push(last));
        vstd::seq_lib::lemma_seq_contains_after_push(rest, last, id);
        vstd::seq_lib::lemma_seq_contains_after_push(
            matching_ids(pages, rest, needle),
            last,
            id,
        );
        assert forall|kind: SearchMatchKind|
            #[trigger] matching_kinds(pages, ids, needle).contains(HitModel { id, kind }) == (
            ids.contains(id) && meta_match(pages[id], needle) == Some(kind)) by {
            let hit = HitModel { id, kind };
            let before = matching_kinds(pages, rest, needle);
            assert(before.contains(hit) == (rest.contains(id) && meta_match(pages[id], needle)
                == Some(kind)));
            if meta_match(pages[last], needle) is Some {
                let own = HitModel { id: last, kind: meta_match(pages[last], needle)->0 };
                vstd::seq_lib::lemma_seq_contains_after_push(before, own, hit);
            }
        }
    }
}

/// A page that is found without its content holds what is searched: a match of
/// the title in its title or its id, a match of a tag in one of its tags.
pub proof fn a_found_page_holds_the_text(
    m: IndexModel,
    sources: SourceTable,
    with_content: bool,
    query: Seq<char>,
    id: Seq<char>,
    kind: SearchMatchKind,
)
    requires
        m.wf(),
        found_hits(m, sources, with_content, query).contains(HitModel { id, kind }),
    ensures
        m.pages.contains_key(id),
        kind == SearchMatchKind::Title ==> contains(
            m.pages[id].title_lower,
            lowercase(trimmed(query)),
        ) || contains(m.pages[id].id_lower, lowercase(trimmed(query))),
        kind == SearchMatchKind::Tag ==> exists|k: int|
            0 <= k < m.pages[id].tags_lower.len() && contains(
                #[trigger] m.pages[id].tags_lower[k],
                lowercase(trimmed(query)),
            ),
        kind == SearchMatchKind::Content ==> with_content && sources.contains_key(id)
            && sources[id] is Raw && content_mentions(
            page_content(sources[id]->Raw_0),
            lowercase(trimmed(query)),
        ),
{
    assert(needle_of(query).len() > 0);
    a_search_finds_what_matches(m, sources, with_content, query, id, kind);
    let needle = needle_of(query);
    if kind == SearchMatchKind::Tag {
        assert(any_holds(m.pages[id].tags_lower, needle));
    }
}

/// A page whose content mentions what is searched is found, where content is
/// searched.
pub proof fn a_page_is_found_by_its_content(
    m: IndexModel,
    sources: SourceTable,
    query: Seq<char>,
    id: Seq<char>,
    raw: JsonModel,
)
    requires
        m.wf(),
        m.pages.contains_key(id),
        sources.contains_key(id),
        sources[id] == SourceModel::Raw(raw),
        lowercase(trimmed(query)).len() > 0,
        content_mentions(page_content(raw), lowercase(trimmed(query))),
    ensures
        exists|kind: SearchMatchKind| #[trigger]
            found_hits(m, sources, true, query).contains(HitModel { id, kind }),
{
    let needle = needle_of(query);
    let kind = page_match(m.pages, sources, true, needle, id)->0;
    a_search_finds_what_matches(m, sources, true, query, id, kind);
}

/// A page without content that is searched is found once at most, by the most
/// that it matches.
pub proof fn a_page_is_found_in_one_way(
    m: IndexModel,
    sources: SourceTable,
    with_content: bool,
    query: Seq<char>,
    id: Seq<char>,
    a: SearchMatchKind,
    b: SearchMatchKind,
)
    requires
        m.wf(),
        found_hits(m, sources, with_content, query).contains(HitModel { id, kind: a }),
        found_hits(m, sources, with_content, query).contains(HitModel { id, kind: b }),
    ensures
        a == b,
{
    assert(needle_of(query).len() > 0);
    a_search_finds_what_matches(m, sources, with_content, query, id, a);
    a_search_finds_what_matches(m, sources, with_content, query, id, b);
}

/// Nothing searched finds nothing.
pub proof fn nothing_is_found_by_nothing(
    m: IndexModel,
    sources: SourceTable,
    with_content: bool,
    query: Seq<char>,
)
    requires
        lowercase(trimmed(query)).len() == 0,
    ensures
        found_hits(m, sources, with_content, query).len() == 0,
{
}

/// A title that several pages have resolves to all of these, and to no others.
pub proof fn shared_titles_are_ambiguous(m: IndexModel, title: Seq<char>, ids: Seq<Seq<char>>)
    requires
        m.wf(),
        resolved_exactly(m.catalog(), title) == ResolutionModel::Ambiguous(ids),
    ensures
        ids.len() > 1,
        ids.no_duplicates(),
        forall|id: Seq<char>| #[trigger]
            ids.contains(id) == (m.pages.contains_key(id) && m.pages[id].title_lower == lowercase(
                trimmed(title),
            )),
{
}

/// A title that no page has resolves to nothing.
pub proof fn unknown_titles_are_not_found(m: IndexModel, title: Seq<char>)
    requires
        m.wf(),
        lowercase(trimmed(title)).len() > 0,
    ensures
        resolved_exactly(m.catalog(), title) == ResolutionModel::NotFound <==> (forall|
            id: Seq<char>,
        | #[trigger]
            m.pages.contains_key(id) ==> m.pages[id].title_lower != lowercase(trimmed(title))),
{
    let ids = listed(m.titled, needle_of(title));
    if ids.len() > 0 {
        assert(ids.contains(ids[0]));
        assert(m.pages.contains_key(ids[0]));
    } else {
        assert forall|id: Seq<char>| #[trigger] m.pages.contains_key(id) implies
            m.pages[id].title_lower != lowercase(trimmed(title)) by {
            assert(!ids.contains(id));
        }
    }
}

/// Where no page has a title, a part of a title resolves: to the page that it is a
/// part of where there is one, to all of them where there are more, and to nothing
/// where there is none. A whole title is preferred to a part of one.
pub proof fn a_part_of_a_title_resolves(m: IndexModel, title: Seq<char>, id: Seq<char>)
    requires
        m.wf(),
        lowercase(trimmed(title)).len() > 0,
    ensures
        ({
            let needle = lowercase(trimmed(title));
            let loose = resolved_loosely(m, title);
            let exact = resolved_exactly(m.catalog(), title);
            &&& exact != ResolutionModel::NotFound ==> loose == exact
            &&& exact == ResolutionModel::NotFound ==> {
                &&& loose == ResolutionModel::Unique(id) ==> m.pages.contains_key(id) && contains(
                    m.pages[id].title_lower,
                    needle,
                ) && (forall|other: Seq<char>|
                    m.pages.contains_key(other) && contains(
                        #[trigger] m.pages[other].title_lower,
                        needle,
                    ) ==> other == id)
                &&& loose == ResolutionModel::NotFound ==> !(m.pages.contains_key(id) && contains(
                    m.pages[id].title_lower,
                    needle,
                ))
                &&& loose is Ambiguous ==> loose->Ambiguous_0.contains(id) == (
                m.pages.contains_key(id) && contains(m.pages[id].title_lower, needle))
            }
        }),
{
    let needle = needle_of(title);
    let found = titles_holding(m.pages, m.order, needle);
    lemma_titles_holding(m.pages, m.order, needle, id);
    assert(m.order.contains(id) == m.pages.contains_key(id));
    if listed(m.titled, needle).len() == 0 && found.len() == 1 && found[0] == id {
        assert(found.contains(id));
        assert forall|other: Seq<char>|
            m.pages.contains_key(other) && contains(
                #[trigger] m.pages[other].title_lower,
                needle,
            ) implies other == id by {
            lemma_titles_holding(m.pages, m.order, needle, other);
            assert(m.order.contains(other));
            assert(found.contains(other));
        }
    }
}

proof fn lemma_titles_holding(
    pages: PageTable,
    ids: Seq<Seq<char>>,
    needle: Seq<char>,
    id: Seq<char>,
)
    ensures
        titles_holding(pages, ids, needle).contains(id) == (ids.contains(id) && contains(
            pages[id].title_lower,
            needle,
        )),
    decreases ids.len(),
{
    if ids.len() > 0 {
        let rest = ids.drop_last();
        lemma_titles_holding(pages, rest, needle, id);
        assert(ids =~= rest.push(ids.last()));
        vstd::seq_lib::lemma_seq_contains_after_push(rest, ids.last(), id);
        vstd::seq_lib::lemma_seq_contains_after_push(
            titles_holding(pages, rest, needle),
            ids.last(),
            id,
        );
    }
}

/// The white space around a target does not matter.
pub proof fn white_space_around_a_target_does_not_matter(c: Catalog, raw: Seq<char>)
    requires
        trimmed(raw).len() > 0,
    ensures
        classified(c, raw) == classified(c, trimmed(raw)),
{
    trimming_takes_the_white_space_around(raw);
    trimming_keeps_what_is_trimmed(trimmed(raw));
}

/// A link to a page by its id, behind the word for pages, leads to that page, with
/// or without white space between; one by a title that a single page has leads to
/// that page.
pub proof fn links_by_page_lead_to_the_page(m: IndexModel, name: Seq<char>, id: Seq<char>)
    requires
        m.wf(),
        name.len() > 0,
        !whitespace(name.last()),
        !m.pages.contains_key("page:"@ + name),
    ensures
        m.pages.contains_key(trimmed(name)) ==> classified(m.catalog(), "page:"@ + name)
            == TargetModel::InternalPage(trimmed(name)),
        !m.pages.contains_key(trimmed(name)) && resolved_exactly(m.catalog(), trimmed(name))
            == ResolutionModel::Unique(id) ==> classified(m.catalog(), "page:"@ + name)
            == TargetModel::InternalPage(id),
{
    reveal_strlit("page:");
    let t = "page:"@ + name;
    assert(t[0] == 'p');
    assert(t.last() == name.last());
    assert(trimmed(t) == t);
    a_prefix_is_stripped("page:"@, name);
}

/// A link to a page by its title leads to the page that has it alone: the bare
/// title does, unless it is itself an id, an address or a path of an attachment,
/// or names an id; behind the word for titles it does in any case but the first.
#[verifier::rlimit(40)]
pub proof fn links_by_title_lead_to_the_page(m: IndexModel, title: Seq<char>, id: Seq<char>)
    requires
        m.wf(),
        title.len() > 0,
        !whitespace(title[0]),
        !whitespace(title.last()),
        m.pages.contains_key(id),
        m.pages[id].title_lower == lowercase(title),
        lowercase(title).len() > 0,
        forall|other: Seq<char>|
            m.pages.contains_key(other) && (#[trigger] m.pages[other]).title_lower == lowercase(
                title,
            ) ==> other == id,
    ensures
        !m.pages.contains_key(title) && !starts_with(title, "page:"@) && !starts_with(
            title,
            "title:"@,
        ) && !external_target(title) && uuid_from(title, 0) is None && located(m.root, title) is Err
            ==> classified(m.catalog(), title) == TargetModel::InternalPage(id),
        !m.pages.contains_key("title:"@ + title) ==> classified(m.catalog(), "title:"@ + title)
            == TargetModel::InternalPage(id),
        !m.pages.contains_key("page:"@ + title) && !m.pages.contains_key(title) ==> classified(
            m.catalog(),
            "page:"@ + title,
        ) == TargetModel::InternalPage(id),
{
    assert(trimmed(title) == title);
    exact_titles_are_exact(m, title, id);
    reveal_strlit("page:");
    reveal_strlit("title:");
    let t = "title:"@ + title;
    assert(t[0] == 't');
    assert(t.last() == title.last());
    assert(trimmed(t) == t);
    a_prefix_is_stripped("title:"@, title);
    if starts_with(t, "page:"@) {
        assert(t.subrange(0, 5)[0] == 'p');
    }
    if !m.pages.contains_key("page:"@ + title) {
        links_by_page_lead_to_the_page(m, title, id);
    }
}

/// A target that mentions the id of a page leads to it, whatever stands around the
/// id.
pub proof fn links_that_mention_an_id_lead_to_the_page(
    m: IndexModel,
    target: Seq<char>,
    id: Seq<char>,
)
    requires
        trimmed(target) == target,
        target.len() > 0,
        uuid_from(target, 0) == Some(id),
        m.pages.contains_key(id),
        !m.pages.contains_key(target),
        !starts_with(target, "page:"@),
        !starts_with(target, "title:"@),
    ensures
        classified(m.catalog(), target) == TargetModel::InternalPage(id),
{
}

/// An address is what it is, and an attachment lies below the root, unless the
/// target names a page; what names none of these is unknown.
pub proof fn other_links_are_told_apart(m: IndexModel, target: Seq<char>)
    requires
        trimmed(target) == target,
        target.len() > 0,
        !m.pages.contains_key(target),
        !starts_with(target, "page:"@),
        !starts_with(target, "title:"@),
        uuid_from(target, 0) is None,
    ensures
        external_target(target) ==> classified(m.catalog(), target) == TargetModel::ExternalUrl(
            target,
        ),
        !external_target(target) && located(m.root, target) is Ok ==> classified(
            m.catalog(),
            target,
        ) == TargetModel::AttachmentPath(located(m.root, target)->Ok_0),
        !external_target(target) && located(m.root, target) is Err && m.wf() && lowercase(
            target,
        ).len() > 0 && (forall|id: Seq<char>| #[trigger]
            m.pages.contains_key(id) ==> m.pages[id].title_lower != lowercase(target))
            ==> classified(m.catalog(), target) == TargetModel::Unknown(target),
{
    if m.wf() && lowercase(target).len() > 0 {
        unknown_titles_are_not_found(m, target);
    }
}

/// A target of white space is unknown.
pub proof fn a_blank_target_is_unknown(c: Catalog, raw: Seq<char>)
    requires
        trimmed(raw).len() == 0,
    ensures
        classified(c, raw) == TargetModel::Unknown(raw),
{
}

// ---------------------------------------------------------------------------
// What reading the files is for
// ---------------------------------------------------------------------------

/// A file with the suffix of page files is a page file, whatever its directory,
/// and its stem is what stands before the suffix. A file that is nothing but the
/// suffix, or has another, is none.
pub proof fn page_files_have_their_suffix(dir: Seq<char>, stem: Seq<char>)
    requires
        !contains_char(stem, '/'),
    ensures
        stem.len() > 0 ==> page_stem(dir + "/"@ + stem + ".lepiter"@) == Some(stem),
        stem.len() > 0 ==> page_stem(stem + ".lepiter"@) == Some(stem),
        stem.len() == 0 ==> page_stem(dir + "/"@ + stem + ".lepiter"@) is None,
        !ends_with(stem, ".lepiter"@) ==> page_stem(dir + "/"@ + stem) is None,
{
    reveal_strlit("/");
    reveal_strlit(".lepiter");
    assert(!contains_char(".lepiter"@, '/'));
    let name = stem + ".lepiter"@;
    assert(!contains_char(name, '/')) by {
        if contains_char(name, '/') {
            let k = choose|k: int| 0 <= k < name.len() && name[k] == '/';
            if k < stem.len() {
                assert(stem[k] == '/');
            } else {
                assert(".lepiter"@[k - stem.len()] == '/');
            }
        }
    }
    lemma_file_name(dir, name);
    lemma_file_name(dir, stem);
    assert(dir + "/"@ + stem + ".lepiter"@ =~= dir + "/"@ + name);
    a_prefix_is_stripped(".lepiter"@, stem);
    assert(name.take(name.len() - 8) =~= stem);
}

proof fn lemma_file_name(dir: Seq<char>, name: Seq<char>)
    requires
        !contains_char(name, '/'),
    ensures
        file_name(dir + "/"@ + name) == name,
        file_name(name) == name,
{
    reveal_strlit("/");
    let path = dir + "/"@ + name;
    lemma_name_start(path, path.len() as int, dir.len() as int + 1);
    assert(path.skip(dir.len() as int + 1) =~= name);
    lemma_name_start(name, name.len() as int, 0);
    assert(name.skip(0) =~= name);
}

proof fn lemma_name_start(path: Seq<char>, i: int, at: int)
    requires
        0 <= at <= i <= path.len(),
        at > 0 ==> path[at - 1] == '/',
        forall|k: int| at <= k < i ==> path[k] != '/',
    ensures
        name_start(path, i) == at,
    decreases i,
{
    if i > at {
        lemma_name_start(path, i - 1, at);
    }
}

/// A page that was written without an id has the stem of its file as id, and one
/// without a title its id as title; what was written is kept.
pub proof fn missing_metadata_comes_from_the_file(meta: MetaModel, stem: Seq<char>)
    ensures
        ({
            let m = completed(meta, stem);
            &&& m.id == if meta.id.len() == 0 {
                stem
            } else {
                meta.id
            }
            &&& m.title == if meta.title.len() == 0 {
                m.id
            } else {
                meta.title
            }
            &&& meta.id.len() == 0 ==> m.id_lower == lowercase(m.id)
            &&& meta.title.len() == 0 ==> m.title_lower == lowercase(m.title)
            &&& m.path == meta.path && m.tags == meta.tags && m.tags_lower == meta.tags_lower
                && m.updated_at == meta.updated_at
        }),
{
}

/// A page that is loaded is its metadata and the content of its file; one that is
/// not in the index cannot be loaded, and one whose file could not be read says
/// why.
pub proof fn a_loaded_page_is_its_file(
    pages: PageTable,
    id: Seq<char>,
    raw: JsonModel,
    message: Seq<char>,
)
    ensures
        pages.contains_key(id) ==> ({
            let page = loaded(pages, id, SourceModel::Raw(raw));
            &&& page is Ok
            &&& (page->Ok_0).id == pages[id].id
            &&& (page->Ok_0).title == pages[id].title
            &&& (page->Ok_0).tags == pages[id].tags
            &&& (page->Ok_0).updated_at == pages[id].updated_at
            &&& (page->Ok_0).content == page_content(raw)
        }),
        pages.contains_key(id) ==> loaded(pages, id, SourceModel::Failed(message)) == Err::<
            PageModel,
            Seq<char>,
        >(message),
        !pages.contains_key(id) ==> loaded(pages, id, SourceModel::Raw(raw)) == Err::<
            PageModel,
            Seq<char>,
        >("page id not found: "@ + id),
{
}

/// A page that is registered is in the index, as it was given, under its title;
/// the other pages stay as they were.
pub proof fn a_registered_page_is_there(m: IndexModel, meta: MetaModel, other: Seq<char>)
    requires
        m.wf(),
    ensures
        ({
            let r = registered(m, meta);
            &&& r.pages.contains_key(meta.id)
            &&& r.pages[meta.id] == meta
            &&& r.order.contains(meta.id)
            &&& listed(r.titled, meta.title_lower).contains(meta.id)
            &&& other != meta.id ==> r.pages.contains_key(other) == m.pages.contains_key(other)
                && r.pages[other] == m.pages[other]
            &&& r.root == m.root
            &&& r.forward == m.forward
            &&& r.back == m.back
        }),
{
    registering_keeps_the_index(m, meta);
    let r = registered(m, meta);
    assert(r.order.contains(meta.id) == r.pages.contains_key(meta.id));
    assert(listed(r.titled, meta.title_lower).contains(meta.id) == (r.pages.contains_key(meta.id)
        && r.pages[meta.id].title_lower == meta.title_lower));
}

/// A page counts as linked where some page links to it, itself excepted.
pub proof fn linked_pages_are_those_that_are_linked(
    c: Catalog,
    sources: SourceTable,
    existing: Seq<Seq<char>>,
    ids: Seq<Seq<char>>,
    t: Seq<char>,
)
    ensures
        analysed(c, sources, existing, ids).linked_pages.contains(t) <==> exists|e: EdgeModel|
            analysed(c, sources, existing, ids).edges.contains(e) && e.target == t,
    decreases ids.len(),
{
    let a = analysed(c, sources, existing, ids);
    if ids.len() > 0 {
        let rest = ids.drop_last();
        let id = ids.last();
        let before = analysed(c, sources, existing, rest);
        linked_pages_are_those_that_are_linked(c, sources, existing, rest, t);
        match loaded(c.pages, id, source_of(sources, id)) {
            Err(_) => {
                assert(a.edges == before.edges);
                assert(a.linked_pages == before.linked_pages);
            },
            Ok(page) => {
                let pages = internal_targets(c, id, link_targets(page.content));
                let more = edges_from(id, pages);
                lemma_merged(before.linked_pages, pages);
                if exists|e: EdgeModel| before.edges.contains(e) && e.target == t {
                    let e = choose|e: EdgeModel| before.edges.contains(e) && e.target == t;
                    vstd::seq_lib::lemma_seq_concat_contains_all_elements(before.edges, more, e);
                    assert(a.edges.contains(e));
                }
                if pages.contains(t) {
                    let k = choose|k: int| 0 <= k < pages.len() && pages[k] == t;
                    let e = EdgeModel { source: id, target: t };
                    assert(more[k] == e);
                    assert(more.contains(e));
                    vstd::seq_lib::lemma_seq_concat_contains_all_elements(before.edges, more, e);
                    assert(a.edges.contains(e));
                }
                if exists|e: EdgeModel| a.edges.contains(e) && e.target == t {
                    let e = choose|e: EdgeModel| a.edges.contains(e) && e.target == t;
                    vstd::seq_lib::lemma_seq_concat_contains_all_elements(before.edges, more, e);
                    if more.contains(e) {
                        let k = choose|k: int| 0 <= k < more.len() && more[k] == e;
                        assert(pages[k] == t);
                        assert(pages.contains(t));
                    } else {
                        assert(before.edges.contains(e) && e.target == t);
                        assert(before.linked_pages.contains(t));
                    }
                    assert(a.linked_pages.contains(t));
                }
                if a.linked_pages.contains(t) {
                    assert(before.linked_pages.contains(t) || pages.contains(t));
                    assert(exists|e: EdgeModel| a.edges.contains(e) && e.target == t);
                }
            },
        }
    } else {
        assert(!a.linked_pages.contains(t));
        assert(!(exists|e: EdgeModel| a.edges.contains(e) && e.target == t));
    }
}

} // verus!
