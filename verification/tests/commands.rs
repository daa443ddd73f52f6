use lepiter::args::CliError;
use lepiter::commands::{
    check_spec, export_spec, ids_spec, import_spec, info_spec, links_spec, requested, run_check,
    run_export, run_ids, run_import, run_info, run_links, run_list, run_search, run_show, run_tags,
    search_spec, show_spec, tags_spec, Request, Subcommand,
};

fn words(line: &str) -> Vec<String> {
    line.split_whitespace().map(str::to_string).collect()
}

fn failure<T: std::fmt::Debug>(found: Result<T, CliError>) -> String {
    match found {
        Err(CliError::Failed(message)) => message,
        other => panic!("expected a failure, got {other:?}"),
    }
}

#[test]
fn subcommands_are_told_apart() {
    assert!(matches!(requested(&vec![]), Request::Usage));
    assert!(matches!(requested(&words("help")), Request::Usage));
    assert!(matches!(requested(&words("tui")), Request::Tui(path) if path == "./lepiter"));
    assert!(matches!(requested(&words("tui here")), Request::Tui(path) if path == "here"));
    assert!(matches!(requested(&words("some/dir")), Request::Path(path) if path == "some/dir"));
    match requested(&words("tags --json kb")) {
        Request::Run(Subcommand::Tags, rest) => assert_eq!(rest, words("--json kb")),
        _ => panic!("expected tags"),
    }
}

#[test]
fn flags_and_values_reach_their_requests() {
    let info = run_info(&words("--detail kb")).unwrap().unwrap();
    assert!(info.detail && !info.json);
    assert_eq!(info.kb_path, "kb");
    let links = run_links(&words("--dot --for Alpha kb")).unwrap().unwrap();
    assert!(links.dot);
    assert_eq!(links.page.as_deref(), Some("Alpha"));
    let tags = run_tags(&words("--tsv")).unwrap().unwrap();
    assert!(tags.tsv);
    assert_eq!(tags.kb_path, "./lepiter");
    assert_eq!(run_ids(&words("kb")).unwrap().unwrap().kb_path, "kb");
    assert!(run_check(&words("--json")).unwrap().unwrap().json);
    let search = run_search(&words("--full-text needle kb")).unwrap().unwrap();
    assert!(search.full_text);
    assert_eq!((search.query.as_str(), search.kb_path.as_str()), ("needle", "kb"));
    let show = run_show(&words("-i p1")).unwrap().unwrap();
    assert!(show.by_id);
    assert_eq!(show.value, "p1");
    let export = run_export(&words("out kb")).unwrap().unwrap();
    assert_eq!((export.out_dir.as_str(), export.kb_path.as_str()), ("out", "kb"));
    let import = run_import(&words("in")).unwrap().unwrap();
    assert_eq!((import.input_dir.as_str(), import.kb_path.as_str()), ("in", "./lepiter"));
    let list = run_list(&words("--json kb")).unwrap();
    assert!(list.json && !list.tsv);
    assert_eq!(list.kb_path, "kb");
}

#[test]
fn wrong_arguments_are_refused() {
    assert_eq!(
        failure(run_links(&words("--dot --json"))),
        "--dot and --json are mutually exclusive"
    );
    assert_eq!(failure(run_search(&vec![])), "missing required argument: <query>");
    assert_eq!(
        failure(run_search(&vec!["  ".to_string()])),
        "query must not be empty"
    );
    assert_eq!(
        failure(run_show(&words("--id --by-title x"))),
        "--id and --by-title are mutually exclusive"
    );
    assert_eq!(failure(run_show(&vec![])), "missing required argument: <value>");
    assert_eq!(failure(run_show(&vec![" ".to_string()])), "value must not be empty");
    assert_eq!(failure(run_export(&vec![])), "missing required argument: <output-dir>");
    assert_eq!(failure(run_import(&vec![])), "missing required argument: <input-dir>");
    assert_eq!(failure(run_tags(&words("--for"))), "--for requires a tag argument");
    assert!(matches!(run_ids(&words("--nope")), Err(CliError::Usage(_))));
    assert_eq!(run_list(&words("--nope")).unwrap_err().message(), "unknown flag: --nope");
    assert!(run_info(&words("--help")).unwrap().is_none());
}

#[test]
fn every_subcommand_has_its_help() {
    assert_eq!(
        ids_spec().usage,
        "usage: lepiter-cli ids [kb-path]\n\nprints page ids only, sorted by title."
    );
    for (spec, name) in [
        (info_spec(), "info"),
        (links_spec(), "links"),
        (tags_spec(), "tags"),
        (search_spec(), "search"),
        (show_spec(), "show"),
        (check_spec(), "check"),
        (export_spec(), "export"),
        (import_spec(), "import"),
    ] {
        assert!(spec.usage.starts_with(&format!("usage: lepiter-cli {name} ")));
    }
}
