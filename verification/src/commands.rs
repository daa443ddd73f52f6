//! The subcommands: what each accepts, and what it is asked to do.

use crate::args::{
    default_kb_path, flag_views, parse_args, parsed, refused, unknown_flag, ArgSpec, CliError,
    FlagModel, Outcome, ParsedModel, SpecModel, UsageError, ValuedFlag,
};
use crate::lists::has_text;
use crate::strmap::looked_up;
use crate::text::{
    copy_of, lemma_views_push, opt_view, same_text, starts_with, text_starts_with, trim, trimmed,
    views,
};
use vstd::prelude::*;

verus! {

// ---------------------------------------------------------------------------
// What each subcommand accepts
// ---------------------------------------------------------------------------

fn arg_spec(usage: &str) -> (spec: ArgSpec)
    ensures
        spec@ == (SpecModel { usage: usage@, toggles: Seq::empty(), valued: Seq::empty() }),
{
    let spec = ArgSpec { usage: copy_of(usage), toggles: Vec::new(), valued: Vec::new() };
    assert(views(spec.toggles@) =~= Seq::<Seq<char>>::empty());
    assert(flag_views(spec.valued@) =~= Seq::<FlagModel>::empty());
    spec
}

fn with_toggle(spec: ArgSpec, flag: &str) -> (more: ArgSpec)
    ensures
        more@ == (SpecModel { toggles: spec@.toggles.push(flag@), ..spec@ }),
{
    let mut more = spec;
    let t = copy_of(flag);
    proof {
        lemma_views_push(more.toggles@, t);
    }
    more.toggles.push(t);
    more
}

fn with_value(spec: ArgSpec, flag: &str, noun: &str) -> (more: ArgSpec)
    ensures
        more@ == (SpecModel {
            valued: spec@.valued.push(FlagModel { flag: flag@, noun: noun@ }),
            ..spec@
        }),
{
    let mut more = spec;
    let f = ValuedFlag { flag: copy_of(flag), noun: copy_of(noun) };
    more.valued.push(f);
    assert(flag_views(more.valued@) =~= spec@.valued.push(
        FlagModel { flag: flag@, noun: noun@ },
    ));
    more
}

/// The help of `info`.
pub const INFO_USAGE: &'static str = "usage: lepiter-cli info [--detail] [--json] [kb-path]\n\nprints a knowledge base metadata summary.\n\nflags:\n  --detail  show broken links, orphan pages, tag distribution, snippet type breakdown\n  --json    output as json (combinable with --detail)";

/// What `info` says in its help, and what it accepts.
pub open spec fn info_args() -> SpecModel {
    SpecModel {
        usage: INFO_USAGE@,
        toggles: seq!["--detail"@, "--json"@],
        valued: Seq::empty(),
    }
}

/// What `info` says in its help, and what it accepts.
pub fn info_spec() -> (spec: ArgSpec)
    ensures
        spec@ == info_args(),
{
    let spec = arg_spec(INFO_USAGE);
    let spec = with_toggle(spec, "--detail");
    let spec = with_toggle(spec, "--json");
    assert(spec@ =~= info_args());
    spec
}

/// The help of `links`.
pub const LINKS_USAGE: &'static str = "usage: lepiter-cli links [--dot] [--json] [--for <page>] [kb-path]\n\nshows the page link graph.\n\nflags:\n  --dot       output as graphviz dot\n  --json      output as json with nodes and edges arrays\n  --for PAGE  show only links involving PAGE (ego graph, resolved by title)";

/// What `links` says in its help, and what it accepts.
pub open spec fn links_args() -> SpecModel {
    SpecModel {
        usage: LINKS_USAGE@,
        toggles: seq!["--dot"@, "--json"@],
        valued: seq![FlagModel { flag: "--for"@, noun: "page"@ }],
    }
}

/// What `links` says in its help, and what it accepts.
pub fn links_spec() -> (spec: ArgSpec)
    ensures
        spec@ == links_args(),
{
    let spec = arg_spec(LINKS_USAGE);
    let spec = with_toggle(spec, "--dot");
    let spec = with_toggle(spec, "--json");
    let spec = with_value(spec, "--for", "page");
    assert(spec@ =~= links_args());
    spec
}

/// The help of `tags`.
pub const TAGS_USAGE: &'static str = "usage: lepiter-cli tags [--tsv] [--json] [--for <tag>] [kb-path]\n\nlists tags with page counts, or the pages carrying one tag.\n\nflags:\n  --for TAG   list pages tagged with TAG (case-insensitive)\n  --tsv       output as tab-separated values\n  --json      output as json";

/// What `tags` says in its help, and what it accepts.
pub open spec fn tags_args() -> SpecModel {
    SpecModel {
        usage: TAGS_USAGE@,
        toggles: seq!["--json"@, "--tsv"@],
        valued: seq![FlagModel { flag: "--for"@, noun: "tag"@ }],
    }
}

/// What `tags` says in its help, and what it accepts.
pub fn tags_spec() -> (spec: ArgSpec)
    ensures
        spec@ == tags_args(),
{
    let spec = arg_spec(TAGS_USAGE);
    let spec = with_toggle(spec, "--json");
    let spec = with_toggle(spec, "--tsv");
    let spec = with_value(spec, "--for", "tag");
    assert(spec@ =~= tags_args());
    spec
}

/// The help of `ids`.
pub const IDS_USAGE: &'static str = "usage: lepiter-cli ids [kb-path]\n\nprints page ids only, sorted by title.";

/// What `ids` says in its help, and what it accepts.
pub open spec fn ids_args() -> SpecModel {
    SpecModel {
        usage: IDS_USAGE@,
        toggles: Seq::empty(),
        valued: Seq::empty(),
    }
}

/// What `ids` says in its help, and what it accepts.
pub fn ids_spec() -> (spec: ArgSpec)
    ensures
        spec@ == ids_args(),
{
    let spec = arg_spec(IDS_USAGE);
    assert(spec@ =~= ids_args());
    spec
}

/// The help of `search`.
pub const SEARCH_USAGE: &'static str = "usage: lepiter-cli search [--full-text] [--tsv] [--json] <query> [kb-path]\n\nsearches by title, id, and tags, optionally page content too.\n\nflags:\n  --full-text  also search page content\n  --tsv        output as tab-separated values\n  --json       include match kind alongside page metadata";

/// What `search` says in its help, and what it accepts.
pub open spec fn search_args() -> SpecModel {
    SpecModel {
        usage: SEARCH_USAGE@,
        toggles: seq!["--full-text"@, "--tsv"@, "--json"@],
        valued: Seq::empty(),
    }
}

/// What `search` says in its help, and what it accepts.
pub fn search_spec() -> (spec: ArgSpec)
    ensures
        spec@ == search_args(),
{
    let spec = arg_spec(SEARCH_USAGE);
    let spec = with_toggle(spec, "--full-text");
    let spec = with_toggle(spec, "--tsv");
    let spec = with_toggle(spec, "--json");
    assert(spec@ =~= search_args());
    spec
}

/// The help of `show`.
pub const SHOW_USAGE: &'static str = "usage: lepiter-cli show [--id|--by-title] [--open-links] [--json] <value> [kb-path]\n\nrenders one page, looked up by title unless told otherwise.\n\nflags:\n  --id, -i      look the page up by id instead of title\n  --by-title    look the page up by title (the default)\n  --open-links  list the page's resolved links after the page body\n  --json        serialize the full parsed page structure";

/// What `show` says in its help, and what it accepts.
pub open spec fn show_args() -> SpecModel {
    SpecModel {
        usage: SHOW_USAGE@,
        toggles: seq!["--id"@, "-i"@, "--by-title"@, "--open-links"@, "--json"@],
        valued: Seq::empty(),
    }
}

/// What `show` says in its help, and what it accepts.
pub fn show_spec() -> (spec: ArgSpec)
    ensures
        spec@ == show_args(),
{
    let spec = arg_spec(SHOW_USAGE);
    let spec = with_toggle(spec, "--id");
    let spec = with_toggle(spec, "-i");
    let spec = with_toggle(spec, "--by-title");
    let spec = with_toggle(spec, "--open-links");
    let spec = with_toggle(spec, "--json");
    assert(spec@ =~= show_args());
    spec
}

/// The help of `check`.
pub const CHECK_USAGE: &'static str = "usage: lepiter-cli check [--json] [kb-path]\n\nvalidates knowledge base integrity. exits with status 1 if any issues\nare found (broken links, orphan pages, duplicate titles, missing\nattachments).\n\nflags:\n  --json  output as json";

/// What `check` says in its help, and what it accepts.
pub open spec fn check_args() -> SpecModel {
    SpecModel {
        usage: CHECK_USAGE@,
        toggles: seq!["--json"@],
        valued: Seq::empty(),
    }
}

/// What `check` says in its help, and what it accepts.
pub fn check_spec() -> (spec: ArgSpec)
    ensures
        spec@ == check_args(),
{
    let spec = arg_spec(CHECK_USAGE);
    let spec = with_toggle(spec, "--json");
    assert(spec@ =~= check_args());
    spec
}

/// The help of `export`.
pub const EXPORT_USAGE: &'static str = "usage: lepiter-cli export <output-dir> [kb-path]\n\nbulk-exports all pages to a directory of markdown files with\nyaml frontmatter and rewritten internal links.";

/// What `export` says in its help, and what it accepts.
pub open spec fn export_args() -> SpecModel {
    SpecModel {
        usage: EXPORT_USAGE@,
        toggles: Seq::empty(),
        valued: Seq::empty(),
    }
}

/// What `export` says in its help, and what it accepts.
pub fn export_spec() -> (spec: ArgSpec)
    ensures
        spec@ == export_args(),
{
    let spec = arg_spec(EXPORT_USAGE);
    assert(spec@ =~= export_args());
    spec
}

/// The help of `import`.
pub const IMPORT_USAGE: &'static str = "usage: lepiter-cli import <input-dir> [kb-path]\n\nconverts exported markdown files (with yaml frontmatter) back\ninto lepiter page json files. reverses the `export` subcommand.\n\npage content survives the round trip, with these exceptions:\n  - binary attachments (images, etc.) are not copied. picture\n    snippet references are preserved but the files must be\n    restored separately\n  - an unknown snippet keeps its type but not its other fields\n  - picture, youtube and word snippets come back as the link or\n    text snippet their markdown form implies\n  - a text snippet that is exactly [label](url) comes back as a\n    link snippet\n  - an empty text snippet is dropped\n  - a snippet nested inside a list item is flattened to text";

/// What `import` says in its help, and what it accepts.
pub open spec fn import_args() -> SpecModel {
    SpecModel {
        usage: IMPORT_USAGE@,
        toggles: Seq::empty(),
        valued: Seq::empty(),
    }
}

/// What `import` says in its help, and what it accepts.
pub fn import_spec() -> (spec: ArgSpec)
    ensures
        spec@ == import_args(),
{
    let spec = arg_spec(IMPORT_USAGE);
    assert(spec@ =~= import_args());
    spec
}

// ---------------------------------------------------------------------------
// What each subcommand is asked to do
// ---------------------------------------------------------------------------

/// A summary of a knowledge base, with or without details.
#[derive(Debug, PartialEq, Eq)]
pub struct InfoRequest {
    pub detail: bool,
    pub json: bool,
    pub kb_path: String,
}

impl InfoRequest {
    /// Whether this is what some arguments ask for.
    pub open spec fn asks(self, p: ParsedModel) -> bool {
        &&& self.detail == p.has("--detail"@)
        &&& self.json == p.has("--json"@)
        &&& self.kb_path@ == p.kb_path(0)
    }
}

/// What `info` is asked to do; nothing where help is asked for.
pub fn run_info(args: &Vec<String>) -> (found: Result<Option<InfoRequest>, CliError>)
    ensures
        match parsed(views(args@), info_args()) {
            Outcome::Help => found matches Ok(None),
            Outcome::Parsed(p) => match found {
                Ok(Some(r)) => r.asks(p),
                Ok(None) => false,
                Err(e) => false,
            },
            other => found matches Err(e) && refused(e, other),
        },
{
    let args = match parse_args(args, &info_spec()) {
        Ok(Some(args)) => args,
        Ok(None) => {
            return Ok(None);
        },
        Err(e) => {
            return Err(e);
        },
    };
    Ok(
        Some(
            InfoRequest {
                detail: args.has("--detail"),
                json: args.has("--json"),
                kb_path: args.kb_path(0),
            },
        ),
    )
}

/// The link graph, or the links of one page.
#[derive(Debug, PartialEq, Eq)]
pub struct LinksRequest {
    pub dot: bool,
    pub json: bool,
    pub page: Option<String>,
    pub kb_path: String,
}

/// Why `links` cannot be run with some arguments.
pub open spec fn links_fault(p: ParsedModel) -> Option<Seq<char>> {
    if p.has("--dot"@) && p.has("--json"@) {
        Some("--dot and --json are mutually exclusive"@)
    } else {
        None
    }
}

impl LinksRequest {
    /// Whether this is what some arguments ask for.
    pub open spec fn asks(self, p: ParsedModel) -> bool {
        &&& self.dot == p.has("--dot"@)
        &&& self.json == p.has("--json"@)
        &&& opt_view(self.page) == looked_up(p.values, "--for"@)
        &&& self.kb_path@ == p.kb_path(0)
    }
}

/// What `links` is asked to do; nothing where help is asked for.
pub fn run_links(args: &Vec<String>) -> (found: Result<Option<LinksRequest>, CliError>)
    ensures
        match parsed(views(args@), links_args()) {
            Outcome::Help => found matches Ok(None),
            Outcome::Parsed(p) => match found {
                Ok(Some(r)) => links_fault(p) is None && r.asks(p),
                Ok(None) => false,
                Err(e) => links_fault(p) == Some(e.text()) && e is Failed,
            },
            other => found matches Err(e) && refused(e, other),
        },
{
    let args = match parse_args(args, &links_spec()) {
        Ok(Some(args)) => args,
        Ok(None) => {
            return Ok(None);
        },
        Err(e) => {
            return Err(e);
        },
    };
    let page = match args.value("--for") {
        Some(v) => Some(copy_of(v)),
        None => None,
    };
    if args.has("--dot") && args.has("--json") {
        return Err(CliError::Failed(copy_of("--dot and --json are mutually exclusive")));
    }
    Ok(
        Some(
            LinksRequest {
                dot: args.has("--dot"),
                json: args.has("--json"),
                page,
                kb_path: args.kb_path(0),
            },
        ),
    )
}

/// The tags, or the pages of one tag.
#[derive(Debug, PartialEq, Eq)]
pub struct TagsRequest {
    pub json: bool,
    pub tsv: bool,
    pub tag: Option<String>,
    pub kb_path: String,
}

impl TagsRequest {
    /// Whether this is what some arguments ask for.
    pub open spec fn asks(self, p: ParsedModel) -> bool {
        &&& self.json == p.has("--json"@)
        &&& self.tsv == p.has("--tsv"@)
        &&& opt_view(self.tag) == looked_up(p.values, "--for"@)
        &&& self.kb_path@ == p.kb_path(0)
    }
}

/// What `tags` is asked to do; nothing where help is asked for.
pub fn run_tags(args: &Vec<String>) -> (found: Result<Option<TagsRequest>, CliError>)
    ensures
        match parsed(views(args@), tags_args()) {
            Outcome::Help => found matches Ok(None),
            Outcome::Parsed(p) => match found {
                Ok(Some(r)) => r.asks(p),
                Ok(None) => false,
                Err(e) => false,
            },
            other => found matches Err(e) && refused(e, other),
        },
{
    let args = match parse_args(args, &tags_spec()) {
        Ok(Some(args)) => args,
        Ok(None) => {
            return Ok(None);
        },
        Err(e) => {
            return Err(e);
        },
    };
    let tag = match args.value("--for") {
        Some(v) => Some(copy_of(v)),
        None => None,
    };
    Ok(
        Some(
            TagsRequest {
                json: args.has("--json"),
                tsv: args.has("--tsv"),
                tag,
                kb_path: args.kb_path(0),
            },
        ),
    )
}

/// The page ids.
#[derive(Debug, PartialEq, Eq)]
pub struct IdsRequest {
    pub kb_path: String,
}

impl IdsRequest {
    /// Whether this is what some arguments ask for.
    pub open spec fn asks(self, p: ParsedModel) -> bool {
        &&& self.kb_path@ == p.kb_path(0)
    }
}

/// What `ids` is asked to do; nothing where help is asked for.
pub fn run_ids(args: &Vec<String>) -> (found: Result<Option<IdsRequest>, CliError>)
    ensures
        match parsed(views(args@), ids_args()) {
            Outcome::Help => found matches Ok(None),
            Outcome::Parsed(p) => match found {
                Ok(Some(r)) => r.asks(p),
                Ok(None) => false,
                Err(e) => false,
            },
            other => found matches Err(e) && refused(e, other),
        },
{
    let args = match parse_args(args, &ids_spec()) {
        Ok(Some(args)) => args,
        Ok(None) => {
            return Ok(None);
        },
        Err(e) => {
            return Err(e);
        },
    };
    Ok(
        Some(
            IdsRequest {
                kb_path: args.kb_path(0),
            },
        ),
    )
}

/// A search.
#[derive(Debug, PartialEq, Eq)]
pub struct SearchRequest {
    pub query: String,
    pub full_text: bool,
    pub tsv: bool,
    pub json: bool,
    pub kb_path: String,
}

/// Why `search` cannot be run with some arguments.
pub open spec fn search_fault(p: ParsedModel) -> Option<Seq<char>> {
    if p.positional_at(0) is None {
        Some("missing required argument: <query>"@)
    } else if trimmed(p.positional_at(0)->0).len() == 0 {
        Some("query must not be empty"@)
    } else {
        None
    }
}

impl SearchRequest {
    /// Whether this is what some arguments ask for.
    pub open spec fn asks(self, p: ParsedModel) -> bool {
        &&& Some(self.query@) == (match p.positional_at(0) {
            Some(q) => Some(trimmed(q)),
            None => None,
        })
        &&& self.full_text == p.has("--full-text"@)
        &&& self.tsv == p.has("--tsv"@)
        &&& self.json == p.has("--json"@)
        &&& self.kb_path@ == p.kb_path(1)
    }
}

/// What `search` is asked to do; nothing where help is asked for.
pub fn run_search(args: &Vec<String>) -> (found: Result<Option<SearchRequest>, CliError>)
    ensures
        match parsed(views(args@), search_args()) {
            Outcome::Help => found matches Ok(None),
            Outcome::Parsed(p) => match found {
                Ok(Some(r)) => search_fault(p) is None && r.asks(p),
                Ok(None) => false,
                Err(e) => search_fault(p) == Some(e.text()) && e is Failed,
            },
            other => found matches Err(e) && refused(e, other),
        },
{
    let args = match parse_args(args, &search_spec()) {
        Ok(Some(args)) => args,
        Ok(None) => {
            return Ok(None);
        },
        Err(e) => {
            return Err(e);
        },
    };
    let query = match args.positional(0) {
        Some(v) => trim(v),
        None => {
            return Err(CliError::Failed(copy_of("missing required argument: <query>")));
        },
    };
    if query.as_str().is_empty() {
        return Err(CliError::Failed(copy_of("query must not be empty")));
    }
    Ok(
        Some(
            SearchRequest {
                query,
                full_text: args.has("--full-text"),
                tsv: args.has("--tsv"),
                json: args.has("--json"),
                kb_path: args.kb_path(1),
            },
        ),
    )
}

/// One page.
#[derive(Debug, PartialEq, Eq)]
pub struct ShowRequest {
    pub value: String,
    pub by_id: bool,
    pub open_links: bool,
    pub json: bool,
    pub kb_path: String,
}

/// Why `show` cannot be run with some arguments.
pub open spec fn show_fault(p: ParsedModel) -> Option<Seq<char>> {
    if (p.has("--id"@) || p.has("-i"@)) && p.has("--by-title"@) {
        Some("--id and --by-title are mutually exclusive"@)
    } else if p.positional_at(0) is None {
        Some("missing required argument: <value>"@)
    } else if trimmed(p.positional_at(0)->0).len() == 0 {
        Some("value must not be empty"@)
    } else {
        None
    }
}

impl ShowRequest {
    /// Whether this is what some arguments ask for.
    pub open spec fn asks(self, p: ParsedModel) -> bool {
        &&& Some(self.value@) == (match p.positional_at(0) {
            Some(v) => Some(trimmed(v)),
            None => None,
        })
        &&& self.by_id == (p.has("--id"@) || p.has("-i"@))
        &&& self.open_links == p.has("--open-links"@)
        &&& self.json == p.has("--json"@)
        &&& self.kb_path@ == p.kb_path(1)
    }
}

/// What `show` is asked to do; nothing where help is asked for.
pub fn run_show(args: &Vec<String>) -> (found: Result<Option<ShowRequest>, CliError>)
    ensures
        match parsed(views(args@), show_args()) {
            Outcome::Help => found matches Ok(None),
            Outcome::Parsed(p) => match found {
                Ok(Some(r)) => show_fault(p) is None && r.asks(p),
                Ok(None) => false,
                Err(e) => show_fault(p) == Some(e.text()) && e is Failed,
            },
            other => found matches Err(e) && refused(e, other),
        },
{
    let args = match parse_args(args, &show_spec()) {
        Ok(Some(args)) => args,
        Ok(None) => {
            return Ok(None);
        },
        Err(e) => {
            return Err(e);
        },
    };
    let by_id = args.has("--id") || args.has("-i");
    if by_id && args.has("--by-title") {
        return Err(CliError::Failed(copy_of("--id and --by-title are mutually exclusive")));
    }
    let value = match args.positional(0) {
        Some(v) => trim(v),
        None => {
            return Err(CliError::Failed(copy_of("missing required argument: <value>")));
        },
    };
    if value.as_str().is_empty() {
        return Err(CliError::Failed(copy_of("value must not be empty")));
    }
    Ok(
        Some(
            ShowRequest {
                value,
                by_id,
                open_links: args.has("--open-links"),
                json: args.has("--json"),
                kb_path: args.kb_path(1),
            },
        ),
    )
}

/// A check of a knowledge base.
#[derive(Debug, PartialEq, Eq)]
pub struct CheckRequest {
    pub json: bool,
    pub kb_path: String,
}

impl CheckRequest {
    /// Whether this is what some arguments ask for.
    pub open spec fn asks(self, p: ParsedModel) -> bool {
        &&& self.json == p.has("--json"@)
        &&& self.kb_path@ == p.kb_path(0)
    }
}

/// What `check` is asked to do; nothing where help is asked for.
pub fn run_check(args: &Vec<String>) -> (found: Result<Option<CheckRequest>, CliError>)
    ensures
        match parsed(views(args@), check_args()) {
            Outcome::Help => found matches Ok(None),
            Outcome::Parsed(p) => match found {
                Ok(Some(r)) => r.asks(p),
                Ok(None) => false,
                Err(e) => false,
            },
            other => found matches Err(e) && refused(e, other),
        },
{
    let args = match parse_args(args, &check_spec()) {
        Ok(Some(args)) => args,
        Ok(None) => {
            return Ok(None);
        },
        Err(e) => {
            return Err(e);
        },
    };
    Ok(
        Some(
            CheckRequest {
                json: args.has("--json"),
                kb_path: args.kb_path(0),
            },
        ),
    )
}

/// An export into a directory.
#[derive(Debug, PartialEq, Eq)]
pub struct ExportRequest {
    pub out_dir: String,
    pub kb_path: String,
}

/// Why `export` cannot be run with some arguments.
pub open spec fn export_fault(p: ParsedModel) -> Option<Seq<char>> {
    if p.positional_at(0) is None {
        Some("missing required argument: <output-dir>"@)
    } else {
        None
    }
}

impl ExportRequest {
    /// Whether this is what some arguments ask for.
    pub open spec fn asks(self, p: ParsedModel) -> bool {
        &&& Some(self.out_dir@) == p.positional_at(0)
        &&& self.kb_path@ == p.kb_path(1)
    }
}

/// What `export` is asked to do; nothing where help is asked for.
pub fn run_export(args: &Vec<String>) -> (found: Result<Option<ExportRequest>, CliError>)
    ensures
        match parsed(views(args@), export_args()) {
            Outcome::Help => found matches Ok(None),
            Outcome::Parsed(p) => match found {
                Ok(Some(r)) => export_fault(p) is None && r.asks(p),
                Ok(None) => false,
                Err(e) => export_fault(p) == Some(e.text()) && e is Failed,
            },
            other => found matches Err(e) && refused(e, other),
        },
{
    let args = match parse_args(args, &export_spec()) {
        Ok(Some(args)) => args,
        Ok(None) => {
            return Ok(None);
        },
        Err(e) => {
            return Err(e);
        },
    };
    let out_dir = match args.positional(0) {
        Some(v) => copy_of(v),
        None => {
            return Err(CliError::Failed(copy_of("missing required argument: <output-dir>")));
        },
    };
    Ok(
        Some(
            ExportRequest {
                out_dir,
                kb_path: args.kb_path(1),
            },
        ),
    )
}

/// An import of a directory.
#[derive(Debug, PartialEq, Eq)]
pub struct ImportRequest {
    pub input_dir: String,
    pub kb_path: String,
}

/// Why `import` cannot be run with some arguments.
pub open spec fn import_fault(p: ParsedModel) -> Option<Seq<char>> {
    if p.positional_at(0) is None {
        Some("missing required argument: <input-dir>"@)
    } else {
        None
    }
}

impl ImportRequest {
    /// Whether this is what some arguments ask for.
    pub open spec fn asks(self, p: ParsedModel) -> bool {
        &&& Some(self.input_dir@) == p.positional_at(0)
        &&& self.kb_path@ == p.kb_path(1)
    }
}

/// What `import` is asked to do; nothing where help is asked for.
pub fn run_import(args: &Vec<String>) -> (found: Result<Option<ImportRequest>, CliError>)
    ensures
        match parsed(views(args@), import_args()) {
            Outcome::Help => found matches Ok(None),
            Outcome::Parsed(p) => match found {
                Ok(Some(r)) => import_fault(p) is None && r.asks(p),
                Ok(None) => false,
                Err(e) => import_fault(p) == Some(e.text()) && e is Failed,
            },
            other => found matches Err(e) && refused(e, other),
        },
{
    let args = match parse_args(args, &import_spec()) {
        Ok(Some(args)) => args,
        Ok(None) => {
            return Ok(None);
        },
        Err(e) => {
            return Err(e);
        },
    };
    let input_dir = match args.positional(0) {
        Some(v) => copy_of(v),
        None => {
            return Err(CliError::Failed(copy_of("missing required argument: <input-dir>")));
        },
    };
    Ok(
        Some(
            ImportRequest {
                input_dir,
                kb_path: args.kb_path(1),
            },
        ),
    )
}

/// A list of the pages.
#[derive(Debug, PartialEq, Eq)]
pub struct ListRequest {
    pub tsv: bool,
    pub json: bool,
    pub kb_path: String,
}

/// The first argument from the `i`-th on that looks like a flag and is none that
/// `list` knows.
pub open spec fn stray_flag(args: Seq<Seq<char>>, i: int) -> Option<Seq<char>>
    decreases args.len() - i,
{
    if i < 0 || i >= args.len() {
        None
    } else if args[i] != "--tsv"@ && args[i] != "--json"@ && starts_with(args[i], "-"@) {
        Some(args[i])
    } else {
        stray_flag(args, i + 1)
    }
}

/// The first argument from the `i`-th on that is no flag.
pub open spec fn first_value(args: Seq<Seq<char>>, i: int) -> Option<Seq<char>>
    decreases args.len() - i,
{
    if i < 0 || i >= args.len() {
        None
    } else if args[i] == "--tsv"@ || args[i] == "--json"@ {
        first_value(args, i + 1)
    } else {
        Some(args[i])
    }
}

/// What `list` is asked to do. It has no help of its own.
pub fn run_list(args: &Vec<String>) -> (found: Result<ListRequest, CliError>)
    ensures
        match found {
            Ok(r) => stray_flag(views(args@), 0) is None && r.tsv == views(args@).contains(
                "--tsv"@,
            ) && r.json == views(args@).contains("--json"@) && r.kb_path@ == match first_value(
                views(args@),
                0,
            ) {
                Some(p) => p,
                None => "./lepiter"@,
            },
            Err(e) => e matches CliError::Usage(u) && stray_flag(views(args@), 0) is Some && u.0@
                == unknown_flag(stray_flag(views(args@), 0)->0),
        },
{
    let ghost all = views(args@);
    let mut path: Option<String> = None;
    let mut i: usize = 0;
    while i < args.len()
        invariant
            i <= args@.len(),
            all == views(args@),
            stray_flag(all, 0) == stray_flag(all, i as int),
            match path {
                Some(p) => first_value(all, 0) == Some(p@),
                None => first_value(all, 0) == first_value(all, i as int),
            },
        decreases args.len() - i,
    {
        let arg = args[i].as_str();
        assert(all[i as int] == arg@);
        if !same_text(arg, "--tsv") && !same_text(arg, "--json") {
            if text_starts_with(arg, "-") {
                let mut text = copy_of("unknown flag: ");
                text.push_str(arg);
                assert(text@ =~= unknown_flag(arg@));
                return Err(CliError::Usage(UsageError(text)));
            }
            if path.is_none() {
                path = Some(copy_of(arg));
            }
        }
        i += 1;
    }
    let kb_path = match path {
        Some(p) => p,
        None => default_kb_path(),
    };
    Ok(ListRequest { tsv: has_text(args, "--tsv"), json: has_text(args, "--json"), kb_path })
}

// ---------------------------------------------------------------------------
// Which subcommand
// ---------------------------------------------------------------------------

#[derive(Debug, Clone, Copy, PartialEq, Eq, Structural)]
pub enum Subcommand {
    Info,
    List,
    Ids,
    Search,
    Show,
    Links,
    Tags,
    Check,
    Export,
    Import,
}

/// What the whole command line asks for.
#[derive(Debug, PartialEq, Eq)]
pub enum Request {
    /// The usage text.
    Usage,
    /// The reader and editor, on a knowledge base.
    Tui(String),
    /// A subcommand with its arguments.
    Run(Subcommand, Vec<String>),
    /// What may be the path of a knowledge base.
    Path(String),
}

/// The subcommand of a name.
pub open spec fn subcommand_of(name: Seq<char>) -> Option<Subcommand> {
    if name == "info"@ {
        Some(Subcommand::Info)
    } else if name == "list"@ {
        Some(Subcommand::List)
    } else if name == "ids"@ {
        Some(Subcommand::Ids)
    } else if name == "search"@ {
        Some(Subcommand::Search)
    } else if name == "show"@ {
        Some(Subcommand::Show)
    } else if name == "links"@ {
        Some(Subcommand::Links)
    } else if name == "tags"@ {
        Some(Subcommand::Tags)
    } else if name == "check"@ {
        Some(Subcommand::Check)
    } else if name == "export"@ {
        Some(Subcommand::Export)
    } else if name == "import"@ {
        Some(Subcommand::Import)
    } else {
        None
    }
}

fn find_subcommand(name: &str) -> (found: Option<Subcommand>)
    ensures
        found == subcommand_of(name@),
{
    if same_text(name, "info") {
        Some(Subcommand::Info)
    } else if same_text(name, "list") {
        Some(Subcommand::List)
    } else if same_text(name, "ids") {
        Some(Subcommand::Ids)
    } else if same_text(name, "search") {
        Some(Subcommand::Search)
    } else if same_text(name, "show") {
        Some(Subcommand::Show)
    } else if same_text(name, "links") {
        Some(Subcommand::Links)
    } else if same_text(name, "tags") {
        Some(Subcommand::Tags)
    } else if same_text(name, "check") {
        Some(Subcommand::Check)
    } else if same_text(name, "export") {
        Some(Subcommand::Export)
    } else if same_text(name, "import") {
        Some(Subcommand::Import)
    } else {
        None
    }
}

fn rest_of(args: &Vec<String>) -> (rest: Vec<String>)
    requires
        args@.len() > 0,
    ensures
        views(rest@) == views(args@).drop_first(),
{
    let ghost all = views(args@).drop_first();
    let mut rest: Vec<String> = Vec::new();
    let mut i: usize = 1;
    assert(views(rest@) =~= all.take(0));
    while i < args.len()
        invariant
            1 <= i <= args@.len(),
            all == views(args@).drop_first(),
            views(rest@) == all.take(i - 1),
        decreases args.len() - i,
    {
        let t = copy_of(args[i].as_str());
        proof {
            lemma_views_push(rest@, t);
        }
        rest.push(t);
        assert(all.take(i as int) =~= all.take(i - 1).push(all[i - 1]));
        i += 1;
    }
    assert(all.take(i - 1) =~= all);
    rest
}

/// What the whole command line asks for. Nothing at all asks for the usage text,
/// and what is no subcommand may be the path of a knowledge base.
pub fn requested(args: &Vec<String>) -> (request: Request)
    ensures
        ({
            let all = views(args@);
            if all.len() == 0 || all[0] == "-h"@ || all[0] == "--help"@ || all[0] == "help"@ {
                request is Usage
            } else if all[0] == "tui"@ {
                request matches Request::Tui(path) && path@ == if all.len() > 1 {
                    all[1]
                } else {
                    "./lepiter"@
                }
            } else {
                match subcommand_of(all[0]) {
                    Some(cmd) => request matches Request::Run(c, rest) && c == cmd && views(rest@)
                        == all.drop_first(),
                    None => request matches Request::Path(path) && path@ == all[0],
                }
            }
        }),
{
    if args.len() == 0 {
        return Request::Usage;
    }
    let name = args[0].as_str();
    assert(views(args@)[0] == name@);
    if same_text(name, "-h") || same_text(name, "--help") || same_text(name, "help") {
        return Request::Usage;
    }
    if same_text(name, "tui") {
        let path = if args.len() > 1 {
            copy_of(args[1].as_str())
        } else {
            default_kb_path()
        };
        return Request::Tui(path);
    }
    match find_subcommand(name) {
        Some(cmd) => Request::Run(cmd, rest_of(args)),
        None => Request::Path(copy_of(name)),
    }
}

// ---------------------------------------------------------------------------
// What each command is asked
// ---------------------------------------------------------------------------

/// The flags that each command knows.
pub proof fn the_flags_of_each_command()
    ensures
        info_args().toggles == seq!["--detail"@, "--json"@] && info_args().valued.len() == 0,
        links_args().toggles == seq!["--dot"@, "--json"@] && links_args().valued == seq![
            FlagModel { flag: "--for"@, noun: "page"@ },
        ],
        tags_args().toggles == seq!["--json"@, "--tsv"@] && tags_args().valued == seq![
            FlagModel { flag: "--for"@, noun: "tag"@ },
        ],
        search_args().toggles == seq!["--full-text"@, "--tsv"@, "--json"@]
            && search_args().valued.len() == 0,
        show_args().toggles == seq!["--id"@, "-i"@, "--by-title"@, "--open-links"@, "--json"@]
            && show_args().valued.len() == 0,
        check_args().toggles == seq!["--json"@] && check_args().valued.len() == 0,
        ids_args().toggles.len() == 0 && ids_args().valued.len() == 0,
        export_args().toggles.len() == 0 && export_args().valued.len() == 0,
        import_args().toggles.len() == 0 && import_args().valued.len() == 0,
{
}

/// What a command does is what its flags say, on the knowledge base that is named
/// behind its other arguments.
pub proof fn requests_follow_their_flags(
    p: ParsedModel,
    info: InfoRequest,
    links: LinksRequest,
    tags: TagsRequest,
    check: CheckRequest,
)
    ensures
        info.asks(p) ==> (info.detail <==> p.toggles.contains("--detail"@)) && (info.json
            <==> p.toggles.contains("--json"@)),
        links.asks(p) ==> (links.dot <==> p.toggles.contains("--dot"@)) && (links.json
            <==> p.toggles.contains("--json"@)),
        links.asks(p) && p.values.contains_key("--for"@) ==> links.page is Some && (links.page->0)@
            == p.values["--for"@],
        links.asks(p) && !p.values.contains_key("--for"@) ==> links.page is None,
        tags.asks(p) ==> (tags.json <==> p.toggles.contains("--json"@)) && (tags.tsv
            <==> p.toggles.contains("--tsv"@)),
        tags.asks(p) && p.values.contains_key("--for"@) ==> tags.tag is Some && (tags.tag->0)@
            == p.values["--for"@],
        tags.asks(p) && !p.values.contains_key("--for"@) ==> tags.tag is None,
        check.asks(p) ==> (check.json <==> p.toggles.contains("--json"@)),
        p.positional.len() > 0 ==> (info.asks(p) ==> info.kb_path@ == p.positional[0]) && (
        links.asks(p) ==> links.kb_path@ == p.positional[0]) && (tags.asks(p) ==> tags.kb_path@
            == p.positional[0]) && (check.asks(p) ==> check.kb_path@ == p.positional[0]),
        p.positional.len() == 0 ==> (info.asks(p) ==> info.kb_path@ == "./lepiter"@) && (
        links.asks(p) ==> links.kb_path@ == "./lepiter"@) && (tags.asks(p) ==> tags.kb_path@
            == "./lepiter"@) && (check.asks(p) ==> check.kb_path@ == "./lepiter"@),
{
}

/// The commands that need an argument take it first, without the white space
/// around it where it is searched or shown, and the knowledge base behind it.
pub proof fn requests_take_their_argument(
    p: ParsedModel,
    search: SearchRequest,
    show: ShowRequest,
    out: ExportRequest,
    into: ImportRequest,
)
    requires
        p.positional.len() > 0,
    ensures
        search.asks(p) ==> search.query@ == trimmed(p.positional[0]) && (search.full_text
            <==> p.toggles.contains("--full-text"@)) && (search.tsv <==> p.toggles.contains(
            "--tsv"@,
        )) && (search.json <==> p.toggles.contains("--json"@)),
        show.asks(p) ==> show.value@ == trimmed(p.positional[0]) && (show.by_id
            <==> p.toggles.contains("--id"@) || p.toggles.contains("-i"@)) && (show.open_links
            <==> p.toggles.contains("--open-links"@)) && (show.json <==> p.toggles.contains(
            "--json"@,
        )),
        out.asks(p) ==> out.out_dir@ == p.positional[0],
        into.asks(p) ==> into.input_dir@ == p.positional[0],
        p.positional.len() > 1 ==> (search.asks(p) ==> search.kb_path@ == p.positional[1]) && (
        show.asks(p) ==> show.kb_path@ == p.positional[1]) && (out.asks(p) ==> out.kb_path@
            == p.positional[1]) && (into.asks(p) ==> into.kb_path@ == p.positional[1]),
        p.positional.len() == 1 ==> (search.asks(p) ==> search.kb_path@ == "./lepiter"@) && (
        show.asks(p) ==> show.kb_path@ == "./lepiter"@) && (out.asks(p) ==> out.kb_path@
            == "./lepiter"@) && (into.asks(p) ==> into.kb_path@ == "./lepiter"@),
{
}

/// What is refused of a request, and with what words; anything else is done.
pub proof fn refused_requests(p: ParsedModel)
    ensures
        links_fault(p) is Some <==> p.toggles.contains("--dot"@) && p.toggles.contains("--json"@),
        links_fault(p) is Some ==> links_fault(p)->0 == "--dot and --json are mutually exclusive"@,
        search_fault(p) is Some <==> p.positional.len() == 0 || trimmed(p.positional[0]).len() == 0,
        p.positional.len() == 0 ==> search_fault(p) == Some("missing required argument: <query>"@)
            && export_fault(p) == Some("missing required argument: <output-dir>"@) && import_fault(
            p,
        ) == Some("missing required argument: <input-dir>"@),
        p.positional.len() > 0 && trimmed(p.positional[0]).len() == 0 ==> search_fault(p) == Some(
            "query must not be empty"@,
        ),
        p.positional.len() > 0 ==> export_fault(p) is None && import_fault(p) is None,
        (p.toggles.contains("--id"@) || p.toggles.contains("-i"@)) && p.toggles.contains(
            "--by-title"@,
        ) ==> show_fault(p) == Some("--id and --by-title are mutually exclusive"@),
        !p.toggles.contains("--by-title"@) && p.positional.len() == 0 ==> show_fault(p) == Some(
            "missing required argument: <value>"@,
        ),
        !p.toggles.contains("--by-title"@) && p.positional.len() > 0 ==> show_fault(p) == (
        if trimmed(p.positional[0]).len() == 0 {
            Some("value must not be empty"@)
        } else {
            None
        }),
        !p.toggles.contains("--id"@) && !p.toggles.contains("-i"@) && p.positional.len() > 0
            && trimmed(p.positional[0]).len() > 0 ==> show_fault(p) is None,
{
}

proof fn lemma_subcommand_names()
    ensures
        "info"@.len() == 4 && "info"@[0] == 'i',
        "list"@.len() == 4 && "list"@[0] == 'l',
        "ids"@.len() == 3,
        "search"@.len() == 6 && "search"@[0] == 's',
        "show"@.len() == 4 && "show"@[0] == 's',
        "links"@.len() == 5 && "links"@[0] == 'l',
        "tags"@.len() == 4 && "tags"@[0] == 't',
        "check"@.len() == 5 && "check"@[0] == 'c',
        "export"@.len() == 6 && "export"@[0] == 'e',
        "import"@.len() == 6 && "import"@[0] == 'i',
{
    reveal_strlit("info");
    reveal_strlit("list");
    reveal_strlit("ids");
    reveal_strlit("search");
    reveal_strlit("show");
    reveal_strlit("links");
    reveal_strlit("tags");
    reveal_strlit("check");
    reveal_strlit("export");
    reveal_strlit("import");
}

/// The names of the commands; no other name is one.
pub proof fn commands_have_their_names(name: Seq<char>)
    ensures
        subcommand_of(name) == Some(Subcommand::Info) <==> name == "info"@,
        subcommand_of(name) == Some(Subcommand::List) <==> name == "list"@,
        subcommand_of(name) == Some(Subcommand::Ids) <==> name == "ids"@,
        subcommand_of(name) == Some(Subcommand::Search) <==> name == "search"@,
        subcommand_of(name) == Some(Subcommand::Show) <==> name == "show"@,
        subcommand_of(name) == Some(Subcommand::Links) <==> name == "links"@,
        subcommand_of(name) == Some(Subcommand::Tags) <==> name == "tags"@,
        subcommand_of(name) == Some(Subcommand::Check) <==> name == "check"@,
        subcommand_of(name) == Some(Subcommand::Export) <==> name == "export"@,
        subcommand_of(name) == Some(Subcommand::Import) <==> name == "import"@,
{
    lemma_subcommand_names();
}

/// Where the arguments are only formats and values, no flag is stray and the first
/// value is the first that is no format; a flag of another name is stray.
pub proof fn formats_stand_anywhere(args: Seq<Seq<char>>, i: int)
    requires
        0 <= i < args.len(),
        forall|k: int| 0 <= k < i ==> #[trigger] args[k] == "--tsv"@ || args[k] == "--json"@,
        args[i] != "--tsv"@,
        args[i] != "--json"@,
    ensures
        first_value(args, 0) == Some(args[i]),
        args[i].len() > 0 && args[i][0] == '-' ==> stray_flag(args, 0) == Some(args[i]),
{
    lemma_first_value(args, 0, i);
}

proof fn lemma_first_value(args: Seq<Seq<char>>, k: int, i: int)
    requires
        0 <= k <= i < args.len(),
        forall|j: int| 0 <= j < i ==> #[trigger] args[j] == "--tsv"@ || args[j] == "--json"@,
        args[i] != "--tsv"@,
        args[i] != "--json"@,
    ensures
        first_value(args, k) == Some(args[i]),
        args[i].len() > 0 && args[i][0] == '-' ==> stray_flag(args, k) == Some(args[i]),
    decreases i - k,
{
    if k < i {
        lemma_first_value(args, k + 1, i);
    } else {
        reveal_strlit("-");
        if args[i].len() > 0 && args[i][0] == '-' {
            assert(args[i].subrange(0, 1) =~= "-"@);
        }
    }
}

} // verus!
