//! Pages, their content, and what is said about them.

use crate::json::{Json, JsonModel};
use crate::text::{opt_view, views};
use crate::time::Timestamp;
use vstd::prelude::*;

verus! {

/// Canonical page identifier used throughout the API.
pub type PageId = String;

/// Metadata for a page discovered during index scanning.
#[derive(Debug, Clone, PartialEq, Eq)]
pub struct PageMeta {
    /// Canonical page id (preferred key over filename).
    pub id: PageId,
    /// Pre-computed lowercased id for case-insensitive comparisons.
    pub id_lower: String,
    /// Human-readable page title.
    pub title: String,
    /// Pre-computed lowercased title for case-insensitive comparisons.
    pub title_lower: String,
    /// Absolute or relative path to the source page file.
    pub path: String,
    /// Last edit timestamp, if present in source metadata.
    pub updated_at: Option<Timestamp>,
    /// Optional page tags extracted from metadata.
    pub tags: Vec<String>,
    /// Pre-computed lowercased tags for case-insensitive comparisons.
    pub tags_lower: Vec<String>,
}

/// What a [`PageMeta`] holds.
#[verifier::ext_equal]
pub struct MetaModel {
    pub id: Seq<char>,
    pub id_lower: Seq<char>,
    pub title: Seq<char>,
    pub title_lower: Seq<char>,
    pub path: Seq<char>,
    pub updated_at: Option<Timestamp>,
    pub tags: Seq<Seq<char>>,
    pub tags_lower: Seq<Seq<char>>,
}

impl View for PageMeta {
    type V = MetaModel;

    open spec fn view(&self) -> MetaModel {
        MetaModel {
            id: self.id@,
            id_lower: self.id_lower@,
            title: self.title@,
            title_lower: self.title_lower@,
            path: self.path@,
            updated_at: self.updated_at,
            tags: views(self.tags@),
            tags_lower: views(self.tags_lower@),
        }
    }
}

/// Fully parsed page content.
#[derive(Debug, PartialEq, Eq)]
pub struct Page {
    /// Canonical page id.
    pub id: PageId,
    /// Page title.
    pub title: String,
    /// Last edit timestamp, if present.
    pub updated_at: Option<Timestamp>,
    /// Page tags.
    pub tags: Vec<String>,
    /// Parsed block-level content.
    pub content: Vec<Node>,
}

/// What a [`Page`] holds.
#[verifier::ext_equal]
pub struct PageModel {
    pub id: Seq<char>,
    pub title: Seq<char>,
    pub updated_at: Option<Timestamp>,
    pub tags: Seq<Seq<char>>,
    pub content: Seq<NodeModel>,
}

impl View for Page {
    type V = PageModel;

    open spec fn view(&self) -> PageModel {
        PageModel {
            id: self.id@,
            title: self.title@,
            updated_at: self.updated_at,
            tags: views(self.tags@),
            content: node_views(self.content@),
        }
    }
}

/// Block-oriented normalized node.
#[derive(Debug, PartialEq, Eq)]
pub enum Node {
    /// Markdown-style heading.
    Heading { level: u8, text: String },
    /// Paragraph text.
    Paragraph { text: String },
    /// Plain text line.
    Text { text: String },
    /// List with item nodes.
    List { items: Vec<Vec<Node>> },
    /// Code block with optional language.
    Code { language: Option<String>, code: String },
    /// Link block.
    Link { text: String, url: String },
    /// Quote block.
    Quote { text: String },
    /// Rewrite block (search/replace transformation).
    Rewrite {
        language: Option<String>,
        search: String,
        replace: String,
        scope: Option<String>,
        is_method_pattern: Option<bool>,
    },
    /// Unknown or unsupported source node type preserved losslessly.
    Unknown { typ: String, raw: Json },
}

/// What a [`Node`] holds.
#[verifier::ext_equal]
pub enum NodeModel {
    Heading { level: u8, text: Seq<char> },
    Paragraph { text: Seq<char> },
    Text { text: Seq<char> },
    List { items: Seq<Seq<NodeModel>> },
    Code { language: Option<Seq<char>>, code: Seq<char> },
    Link { text: Seq<char>, url: Seq<char> },
    Quote { text: Seq<char> },
    Rewrite {
        language: Option<Seq<char>>,
        search: Seq<char>,
        replace: Seq<char>,
        scope: Option<Seq<char>>,
        is_method_pattern: Option<bool>,
    },
    Unknown { typ: Seq<char>, raw: JsonModel },
}

impl View for Node {
    type V = NodeModel;

    open spec fn view(&self) -> NodeModel
        decreases self,
    {
        match self {
            Node::Heading { level, text } => NodeModel::Heading { level: *level, text: text@ },
            Node::Paragraph { text } => NodeModel::Paragraph { text: text@ },
            Node::Text { text } => NodeModel::Text { text: text@ },
            Node::List { items } => NodeModel::List {
                items: Seq::new(
                    items@.len(),
                    |i: int|
                        if 0 <= i < items@.len() {
                            Seq::new(
                                items@[i]@.len(),
                                |j: int|
                                    if 0 <= j < items@[i]@.len() {
                                        items@[i]@[j].view()
                                    } else {
                                        NodeModel::Text { text: Seq::empty() }
                                    },
                            )
                        } else {
                            Seq::empty()
                        },
                ),
            },
            Node::Code { language, code } => NodeModel::Code {
                language: opt_view(*language),
                code: code@,
            },
            Node::Link { text, url } => NodeModel::Link { text: text@, url: url@ },
            Node::Quote { text } => NodeModel::Quote { text: text@ },
            Node::Rewrite { language, search, replace, scope, is_method_pattern } =>
                NodeModel::Rewrite {
                language: opt_view(*language),
                search: search@,
                replace: replace@,
                scope: opt_view(*scope),
                is_method_pattern: *is_method_pattern,
            },
            Node::Unknown { typ, raw } => NodeModel::Unknown { typ: typ@, raw: raw@ },
        }
    }
}

/// What each node of a sequence holds.
pub open spec fn node_views(v: Seq<Node>) -> Seq<NodeModel> {
    Seq::new(v.len(), |i: int| v[i]@)
}

/// What the nodes of each list item hold.
pub open spec fn item_views(v: Seq<Vec<Node>>) -> Seq<Seq<NodeModel>> {
    Seq::new(v.len(), |i: int| node_views(v[i]@))
}

/// A list holds the items that its vector holds.
pub proof fn lemma_list_view(n: Node)
    ensures
        n matches Node::List { items } ==> n@ == (NodeModel::List { items: item_views(items@) }),
{
    if let Node::List { items } = n {
        reveal_with_fuel(<Node as View>::view, 3);
        let held = n@->items;
        assert forall|i: int| 0 <= i < items@.len() implies held[i] == item_views(items@)[i] by {
            assert(held[i] =~= node_views(items@[i]@));
        }
        assert(held =~= item_views(items@));
    }
}

pub proof fn lemma_node_views_push(v: Seq<Node>, n: Node)
    ensures
        node_views(v.push(n)) == node_views(v).push(n@),
{
    assert(node_views(v.push(n)) =~= node_views(v).push(n@));
}

/// Non-fatal parse or indexing issue associated with a source file.
#[derive(Debug, Clone, PartialEq, Eq)]
pub struct ParseIssue {
    /// File path where the issue occurred.
    pub path: String,
    /// Human-readable error description.
    pub message: String,
}

/// Match category for search results.
#[derive(Debug, Clone, Copy, PartialEq, Eq, Structural)]
pub enum SearchMatchKind {
    /// Match came from page title or id.
    Title,
    /// Match came from a page tag.
    Tag,
    /// Match came from rendered page content.
    Content,
}

impl SearchMatchKind {
    /// How relevant a kind of match is.
    pub open spec fn relevance(self) -> int {
        match self {
            SearchMatchKind::Title => 3,
            SearchMatchKind::Tag => 2,
            SearchMatchKind::Content => 1,
        }
    }

    /// Relevance score used for ranking search results.
    /// Higher is more relevant.
    pub fn score(self) -> (n: u32)
        ensures
            n == self.relevance(),
    {
        match self {
            SearchMatchKind::Title => 3,
            SearchMatchKind::Tag => 2,
            SearchMatchKind::Content => 1,
        }
    }

    /// Returns `true` when the match came from metadata (title, id, or tags)
    /// rather than page content.
    pub fn is_meta(self) -> (b: bool)
        ensures
            b == (self != SearchMatchKind::Content),
    {
        match self {
            SearchMatchKind::Title => true,
            SearchMatchKind::Tag => true,
            SearchMatchKind::Content => false,
        }
    }
}

/// A match in the title outranks one in a tag, which outranks one in the
/// content; and a match is in the metadata just when it outranks the content.
pub proof fn match_kinds_are_ranked(kind: SearchMatchKind)
    ensures
        SearchMatchKind::Title.relevance() > SearchMatchKind::Tag.relevance(),
        SearchMatchKind::Tag.relevance() > SearchMatchKind::Content.relevance(),
        (kind != SearchMatchKind::Content) == (kind.relevance()
            > SearchMatchKind::Content.relevance()),
{
}

/// Search result entry for one page.
#[derive(Debug, Clone, PartialEq, Eq)]
pub struct SearchHit {
    /// Canonical page id.
    pub id: PageId,
    /// How this page matched.
    pub kind: SearchMatchKind,
}

/// Classification of a raw link target.
#[derive(Debug, Clone, PartialEq, Eq)]
pub enum LinkTargetKind {
    /// Resolved to an internal page id.
    InternalPage(PageId),
    /// Resolved to an attachment file path in the knowledge base.
    AttachmentPath(String),
    /// Resolved to an external URL or scheme target.
    ExternalUrl(String),
    /// Could not classify target.
    Unknown(String),
}

/// Result of resolving a page by title.
#[derive(Debug, Clone, PartialEq, Eq)]
pub enum TitleResolution {
    /// A unique page id was resolved.
    Unique(PageId),
    /// No matching title found.
    NotFound,
    /// Multiple candidate page ids matched.
    Ambiguous(Vec<PageId>),
}

/// What a [`SearchHit`] holds.
#[verifier::ext_equal]
pub struct HitModel {
    pub id: Seq<char>,
    pub kind: SearchMatchKind,
}

impl View for SearchHit {
    type V = HitModel;

    open spec fn view(&self) -> HitModel {
        HitModel { id: self.id@, kind: self.kind }
    }
}

pub open spec fn hit_views(v: Seq<SearchHit>) -> Seq<HitModel> {
    Seq::new(v.len(), |i: int| v[i]@)
}

/// What a [`LinkTargetKind`] holds.
#[verifier::ext_equal]
pub enum TargetModel {
    InternalPage(Seq<char>),
    AttachmentPath(Seq<char>),
    ExternalUrl(Seq<char>),
    Unknown(Seq<char>),
}

impl View for LinkTargetKind {
    type V = TargetModel;

    open spec fn view(&self) -> TargetModel {
        match self {
            LinkTargetKind::InternalPage(id) => TargetModel::InternalPage(id@),
            LinkTargetKind::AttachmentPath(path) => TargetModel::AttachmentPath(path@),
            LinkTargetKind::ExternalUrl(url) => TargetModel::ExternalUrl(url@),
            LinkTargetKind::Unknown(target) => TargetModel::Unknown(target@),
        }
    }
}

/// What a [`TitleResolution`] holds.
#[verifier::ext_equal]
pub enum ResolutionModel {
    Unique(Seq<char>),
    NotFound,
    Ambiguous(Seq<Seq<char>>),
}

impl View for TitleResolution {
    type V = ResolutionModel;

    open spec fn view(&self) -> ResolutionModel {
        match self {
            TitleResolution::Unique(id) => ResolutionModel::Unique(id@),
            TitleResolution::NotFound => ResolutionModel::NotFound,
            TitleResolution::Ambiguous(ids) => ResolutionModel::Ambiguous(views(ids@)),
        }
    }
}

} // verus!
