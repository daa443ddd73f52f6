use lepiter::args::{default_kb_path, parse_args, ArgSpec, CliError, ParsedArgs, ValuedFlag};

fn parse(args: &[&str]) -> Result<Option<ParsedArgs>, CliError> {
    let spec = ArgSpec {
        usage: "usage: lepiter-cli demo [--json] [--for <tag>] [kb-path]".to_string(),
        toggles: vec!["--json".to_string(), "--tsv".to_string()],
        valued: vec![ValuedFlag { flag: "--for".to_string(), noun: "tag".to_string() }],
    };
    parse_args(&args.iter().map(|a| a.to_string()).collect(), &spec)
}

#[test]
fn collects_toggles_values_and_positionals() {
    let parsed = parse(&["--json", "--for", "rust", "kb", "extra"])
        .unwrap()
        .unwrap();
    assert!(parsed.has("--json"));
    assert!(!parsed.has("--tsv"));
    assert_eq!(parsed.value("--for"), Some("rust"));
    assert_eq!(parsed.positional(0), Some("kb"));
    assert_eq!(parsed.positional(1), Some("extra"));
    assert_eq!(parsed.positional(2), None);
}

#[test]
fn positionals_keep_command_line_order() {
    let parsed = parse(&["a", "--json", "b"]).unwrap().unwrap();
    assert_eq!(parsed.positional(0), Some("a"));
    assert_eq!(parsed.positional(1), Some("b"));
}

#[test]
fn kb_path_falls_back_to_default() {
    let parsed = parse(&["--json"]).unwrap().unwrap();
    assert_eq!(parsed.kb_path(0), default_kb_path());
    let parsed = parse(&["somewhere"]).unwrap().unwrap();
    assert_eq!(parsed.kb_path(0), "somewhere");
}

#[test]
fn unknown_flag_is_a_usage_error() {
    let err = parse(&["--nope"]).unwrap_err();
    assert!(matches!(err, CliError::Usage(_)));
    assert_eq!(err.message(), "unknown flag: --nope");
}

#[test]
fn valued_flag_without_value_names_the_expected_noun() {
    let err = parse(&["--for"]).unwrap_err();
    assert!(matches!(err, CliError::Failed(_)));
    assert_eq!(err.message(), "--for requires a tag argument");
}

#[test]
fn valued_flag_takes_the_next_argument_verbatim() {
    let parsed = parse(&["--for", "--json"]).unwrap().unwrap();
    assert_eq!(parsed.value("--for"), Some("--json"));
    assert!(!parsed.has("--json"));
}

#[test]
fn help_flags_stop_parsing() {
    assert!(parse(&["--help"]).unwrap().is_none());
    assert!(parse(&["-h"]).unwrap().is_none());
    assert!(parse(&["kb", "--help"]).unwrap().is_none());
}

#[test]
fn help_wins_over_a_later_unknown_flag() {
    assert!(parse(&["--help", "--nope"]).unwrap().is_none());
}
