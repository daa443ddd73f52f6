//! The command line: which subcommand is asked for, and with what.

use crate::lists::has_text;
use crate::strmap::{lemma_looked_up, looked_up, put_text, text_table, StrMap, TextTable};
use crate::text::{copy_of, lemma_views_push, same_text, starts_with, text_starts_with, views};
use vstd::prelude::*;

verus! {

// ---------------------------------------------------------------------------
// Flags and values
// ---------------------------------------------------------------------------

/// The place of the knowledge base where none is given.
pub fn default_kb_path() -> (path: String)
    ensures
        path@ == "./lepiter"@,
{
    copy_of("./lepiter")
}

/// An argument-usage failure, such as an unrecognized flag. It ends the program
/// with another status than other errors do.
#[derive(Debug, PartialEq, Eq)]
pub struct UsageError(pub String);

/// Why a command cannot be run.
#[derive(Debug, PartialEq, Eq)]
pub enum CliError {
    Usage(UsageError),
    Failed(String),
}

impl CliError {
    pub open spec fn text(self) -> Seq<char> {
        match self {
            CliError::Usage(e) => e.0@,
            CliError::Failed(message) => message@,
        }
    }

    /// What the user is told.
    pub fn message(&self) -> (text: &str)
        ensures
            text@ == self.text(),
    {
        match self {
            CliError::Usage(e) => e.0.as_str(),
            CliError::Failed(message) => message.as_str(),
        }
    }
}

/// A flag that takes the argument behind it, and what that argument is called.
#[derive(Debug, PartialEq, Eq)]
pub struct ValuedFlag {
    pub flag: String,
    pub noun: String,
}

/// The flags one subcommand accepts, plus the text `-h`/`--help` prints.
#[derive(Debug, PartialEq, Eq)]
pub struct ArgSpec {
    pub usage: String,
    /// Standalone flags such as `--json`. Aliases are listed as separate entries.
    pub toggles: Vec<String>,
    /// Flags that consume the following argument.
    pub valued: Vec<ValuedFlag>,
}

/// What a [`ValuedFlag`] holds.
#[verifier::ext_equal]
pub struct FlagModel {
    pub flag: Seq<char>,
    pub noun: Seq<char>,
}

impl View for ValuedFlag {
    type V = FlagModel;

    open spec fn view(&self) -> FlagModel {
        FlagModel { flag: self.flag@, noun: self.noun@ }
    }
}

/// What an [`ArgSpec`] says in its help, and what it accepts.
#[verifier::ext_equal]
pub struct SpecModel {
    pub usage: Seq<char>,
    pub toggles: Seq<Seq<char>>,
    pub valued: Seq<FlagModel>,
}

pub open spec fn flag_views(v: Seq<ValuedFlag>) -> Seq<FlagModel> {
    Seq::new(v.len(), |i: int| v[i]@)
}

impl View for ArgSpec {
    type V = SpecModel;

    open spec fn view(&self) -> SpecModel {
        SpecModel {
            usage: self.usage@,
            toggles: views(self.toggles@),
            valued: flag_views(self.valued@),
        }
    }
}

/// The outcome of parsing one subcommand's arguments against an [`ArgSpec`].
#[derive(Debug)]
pub struct ParsedArgs {
    toggles: Vec<String>,
    values: StrMap<String>,
    positional: Vec<String>,
}

/// What [`ParsedArgs`] hold.
#[verifier::ext_equal]
pub struct ParsedModel {
    pub toggles: Seq<Seq<char>>,
    pub values: TextTable,
    pub positional: Seq<Seq<char>>,
}

impl View for ParsedArgs {
    type V = ParsedModel;

    closed spec fn view(&self) -> ParsedModel {
        ParsedModel {
            toggles: views(self.toggles@),
            values: text_table(self.values),
            positional: views(self.positional@),
        }
    }
}

/// What parsing arguments leads to.
#[verifier::ext_equal]
pub enum Outcome {
    /// Help was asked for.
    Help,
    Parsed(ParsedModel),
    /// The argument behind a flag is missing.
    MissingValue(FlagModel),
    UnknownFlag(Seq<char>),
}

/// What the argument behind a flag is called, where the flag takes one.
pub open spec fn noun_from(valued: Seq<FlagModel>, i: int, flag: Seq<char>) -> Option<Seq<char>>
    decreases valued.len() - i,
{
    if i < 0 || i >= valued.len() {
        None
    } else if valued[i].flag == flag {
        Some(valued[i].noun)
    } else {
        noun_from(valued, i + 1, flag)
    }
}

/// What the arguments from the `i`-th on lead to, `seen` being what stands before
/// them.
pub open spec fn parsed_from(
    args: Seq<Seq<char>>,
    i: int,
    spec: SpecModel,
    seen: ParsedModel,
) -> Outcome
    decreases args.len() - i,
{
    if i < 0 || i >= args.len() {
        Outcome::Parsed(seen)
    } else {
        let arg = args[i];
        if arg == "-h"@ || arg == "--help"@ {
            Outcome::Help
        } else if spec.toggles.contains(arg) {
            parsed_from(
                args,
                i + 1,
                spec,
                ParsedModel { toggles: seen.toggles.push(arg), ..seen },
            )
        } else {
            match noun_from(spec.valued, 0, arg) {
                Some(noun) => if i + 1 < args.len() {
                    parsed_from(
                        args,
                        i + 2,
                        spec,
                        ParsedModel { values: seen.values.insert(arg, args[i + 1]), ..seen },
                    )
                } else {
                    Outcome::MissingValue(FlagModel { flag: arg, noun })
                },
                None => if starts_with(arg, "-"@) {
                    Outcome::UnknownFlag(arg)
                } else {
                    parsed_from(
                        args,
                        i + 1,
                        spec,
                        ParsedModel { positional: seen.positional.push(arg), ..seen },
                    )
                },
            }
        }
    }
}

/// Arguments of which nothing has been seen.
pub open spec fn nothing_seen() -> ParsedModel {
    ParsedModel { toggles: Seq::empty(), values: Map::empty(), positional: Seq::empty() }
}

/// What arguments lead to.
pub open spec fn parsed(args: Seq<Seq<char>>, spec: SpecModel) -> Outcome {
    parsed_from(args, 0, spec, nothing_seen())
}

impl ParsedModel {
    pub open spec fn has(self, flag: Seq<char>) -> bool {
        self.toggles.contains(flag)
    }

    pub open spec fn positional_at(self, i: nat) -> Option<Seq<char>> {
        if i < self.positional.len() {
            Some(self.positional[i as int])
        } else {
            None
        }
    }

    /// The knowledge base path given at a place, or the default.
    pub open spec fn kb_path(self, i: nat) -> Seq<char> {
        match self.positional_at(i) {
            Some(p) => p,
            None => "./lepiter"@,
        }
    }
}

impl ParsedArgs {
    pub closed spec fn wf(&self) -> bool {
        self.values.wf()
    }

    /// Whether the flag was given.
    pub fn has(&self, flag: &str) -> (b: bool)
        ensures
            b == self@.has(flag@),
    {
        has_text(&self.toggles, flag)
    }

    /// The value that was given with the flag.
    pub fn value(&self, flag: &str) -> (value: Option<&str>)
        requires
            self.wf(),
        ensures
            match value {
                Some(v) => looked_up(self@.values, flag@) == Some(v@),
                None => looked_up(self@.values, flag@) is None,
            },
    {
        proof {
            lemma_looked_up(self.values, flag@);
        }
        match self.values.get(flag) {
            Some(v) => Some(v.as_str()),
            None => None,
        }
    }

    /// The positional argument at an index.
    pub fn positional(&self, index: usize) -> (value: Option<&str>)
        ensures
            match value {
                Some(v) => self@.positional_at(index as nat) == Some(v@),
                None => self@.positional_at(index as nat) is None,
            },
    {
        if index < self.positional.len() {
            Some(self.positional[index].as_str())
        } else {
            None
        }
    }

    /// The knowledge base path given at `index`, or the default location.
    pub fn kb_path(&self, index: usize) -> (path: String)
        ensures
            path@ == self@.kb_path(index as nat),
    {
        match self.positional(index) {
            Some(p) => copy_of(p),
            None => default_kb_path(),
        }
    }
}

/// What is said of a flag that is not known.
pub open spec fn unknown_flag(flag: Seq<char>) -> Seq<char> {
    "unknown flag: "@ + flag
}

/// What is said of a flag whose value is missing.
pub open spec fn missing_value(f: FlagModel) -> Seq<char> {
    f.flag + " requires a "@ + f.noun + " argument"@
}

/// Whether an error is the one that an outcome leads to.
pub open spec fn refused(e: CliError, outcome: Outcome) -> bool {
    match outcome {
        Outcome::MissingValue(f) => e matches CliError::Failed(m) && m@ == missing_value(f),
        Outcome::UnknownFlag(flag) => e matches CliError::Usage(u) && u.0@ == unknown_flag(flag),
        _ => false,
    }
}

fn usage_error(flag: &str) -> (e: CliError)
    ensures
        refused(e, Outcome::UnknownFlag(flag@)),
{
    let mut text = copy_of("unknown flag: ");
    text.push_str(flag);
    assert(text@ =~= unknown_flag(flag@));
    CliError::Usage(UsageError(text))
}

fn missing_error(flag: &str, noun: &str) -> (e: CliError)
    ensures
        refused(e, Outcome::MissingValue(FlagModel { flag: flag@, noun: noun@ })),
{
    let mut text = copy_of(flag);
    text.push_str(" requires a ");
    text.push_str(noun);
    text.push_str(" argument");
    assert(text@ =~= missing_value(FlagModel { flag: flag@, noun: noun@ }));
    CliError::Failed(text)
}

fn find_noun<'a>(valued: &'a Vec<ValuedFlag>, flag: &str) -> (noun: Option<&'a str>)
    ensures
        match noun {
            Some(n) => noun_from(flag_views(valued@), 0, flag@) == Some(n@),
            None => noun_from(flag_views(valued@), 0, flag@) is None,
        },
{
    let ghost all = flag_views(valued@);
    let mut i: usize = 0;
    while i < valued.len()
        invariant
            i <= valued@.len(),
            all == flag_views(valued@),
            noun_from(all, 0, flag@) == noun_from(all, i as int, flag@),
        decreases valued.len() - i,
    {
        assert(all[i as int] == valued@[i as int]@);
        if same_text(valued[i].flag.as_str(), flag) {
            return Some(valued[i].noun.as_str());
        }
        i += 1;
    }
    None
}

/// Parses one subcommand's arguments against `spec`.
///
/// Returns `Ok(None)` where `-h`/`--help` asks for the usage text. Positionals
/// keep their command-line order; the first one wins wherever a subcommand
/// expects a single value.
pub fn parse_args(args: &Vec<String>, spec: &ArgSpec) -> (found: Result<
    Option<ParsedArgs>,
    CliError,
>)
    ensures
        match found {
            Ok(None) => parsed(views(args@), spec@) == Outcome::Help,
            Ok(Some(p)) => parsed(views(args@), spec@) == Outcome::Parsed(p@) && p.wf(),
            Err(e) => refused(e, parsed(views(args@), spec@)),
        },
{
    let ghost all = views(args@);
    let ghost whole = parsed(all, spec@);
    let mut toggles: Vec<String> = Vec::new();
    let mut values: StrMap<String> = StrMap::new();
    let mut positional: Vec<String> = Vec::new();
    let mut i: usize = 0;
    assert(views(toggles@) =~= Seq::<Seq<char>>::empty());
    assert(views(positional@) =~= Seq::<Seq<char>>::empty());
    assert(text_table(values) =~= Map::empty());
    while i < args.len()
        invariant
            i <= args@.len(),
            all == views(args@),
            values.wf(),
            whole == parsed_from(
                all,
                i as int,
                spec@,
                ParsedModel {
                    toggles: views(toggles@),
                    values: text_table(values),
                    positional: views(positional@),
                },
            ),
            whole == parsed(all, spec@),
        decreases args.len() - i,
    {
        let arg = args[i].as_str();
        assert(all[i as int] == arg@);
        if same_text(arg, "-h") || same_text(arg, "--help") {
            return Ok(None);
        }
        if has_text(&spec.toggles, arg) {
            let t = copy_of(arg);
            proof {
                lemma_views_push(toggles@, t);
            }
            toggles.push(t);
            i += 1;
        } else if let Some(noun) = find_noun(&spec.valued, arg) {
            if i + 1 >= args.len() {
                return Err(missing_error(arg, noun));
            }
            assert(all[i as int + 1] == args@[i as int + 1]@);
            put_text(&mut values, copy_of(arg), copy_of(args[i + 1].as_str()));
            i += 2;
        } else if text_starts_with(arg, "-") {
            return Err(usage_error(arg));
        } else {
            let t = copy_of(arg);
            proof {
                lemma_views_push(positional@, t);
            }
            positional.push(t);
            i += 1;
        }
    }
    Ok(Some(ParsedArgs { toggles, values, positional }))
}

/// Asking for help stops the parsing, whatever stands behind, unless the arguments
/// before it are refused.
pub proof fn help_stops_parsing(before: Seq<Seq<char>>, after: Seq<Seq<char>>, spec: SpecModel)
    requires
        parsed(before, spec) is Parsed || parsed(before, spec) is Help,
    ensures
        parsed(before + seq!["--help"@] + after, spec) == Outcome::Help,
{
    lemma_help_stops(before, after, spec, 0, nothing_seen());
}

proof fn lemma_help_stops(
    before: Seq<Seq<char>>,
    after: Seq<Seq<char>>,
    spec: SpecModel,
    i: int,
    seen: ParsedModel,
)
    requires
        0 <= i <= before.len(),
        parsed_from(before, i, spec, seen) is Parsed || parsed_from(before, i, spec, seen) is Help,
    ensures
        parsed_from(before + seq!["--help"@] + after, i, spec, seen) == Outcome::Help,
    decreases before.len() - i,
{
    let all = before + seq!["--help"@] + after;
    if i < before.len() {
        let arg = before[i];
        assert(all[i] == arg);
        if arg != "-h"@ && arg != "--help"@ {
            if spec.toggles.contains(arg) {
                lemma_help_stops(
                    before,
                    after,
                    spec,
                    i + 1,
                    ParsedModel { toggles: seen.toggles.push(arg), ..seen },
                );
            } else if noun_from(spec.valued, 0, arg) is Some {
                assert(all[i + 1] == before[i + 1]);
                lemma_help_stops(
                    before,
                    after,
                    spec,
                    i + 2,
                    ParsedModel { values: seen.values.insert(arg, before[i + 1]), ..seen },
                );
            } else {
                lemma_help_stops(
                    before,
                    after,
                    spec,
                    i + 1,
                    ParsedModel { positional: seen.positional.push(arg), ..seen },
                );
            }
        }
    } else {
        assert(all[i] == "--help"@);
    }
}

// ---------------------------------------------------------------------------
// What each argument does
// ---------------------------------------------------------------------------

proof fn lemma_parsed_so_far(
    args: Seq<Seq<char>>,
    tail: Seq<Seq<char>>,
    i: int,
    spec: SpecModel,
    seen: ParsedModel,
)
    requires
        0 <= i <= args.len(),
    ensures
        parsed_from(args, i, spec, seen) is Parsed ==> parsed_from(args + tail, i, spec, seen)
            == parsed_from(
            args + tail,
            args.len() as int,
            spec,
            parsed_from(args, i, spec, seen)->Parsed_0,
        ),
        parsed_from(args, i, spec, seen) is Help ==> parsed_from(args + tail, i, spec, seen)
            is Help,
        parsed_from(args, i, spec, seen) is UnknownFlag ==> parsed_from(args + tail, i, spec, seen)
            == parsed_from(args, i, spec, seen),
    decreases args.len() - i,
{
    if i < args.len() {
        let arg = args[i];
        assert((args + tail)[i] == arg);
        if arg == "-h"@ || arg == "--help"@ {
        } else if spec.toggles.contains(arg) {
            lemma_parsed_so_far(
                args,
                tail,
                i + 1,
                spec,
                ParsedModel { toggles: seen.toggles.push(arg), ..seen },
            );
        } else if noun_from(spec.valued, 0, arg) is Some {
            if i + 1 < args.len() {
                assert((args + tail)[i + 1] == args[i + 1]);
                lemma_parsed_so_far(
                    args,
                    tail,
                    i + 2,
                    spec,
                    ParsedModel { values: seen.values.insert(arg, args[i + 1]), ..seen },
                );
            }
        } else if !starts_with(arg, "-"@) {
            lemma_parsed_so_far(
                args,
                tail,
                i + 1,
                spec,
                ParsedModel { positional: seen.positional.push(arg), ..seen },
            );
        }
    }
}

/// What one more argument does to what was parsed: the word for help asks for
/// help, a toggle is on, an unknown flag is refused, a flag that wants a value is
/// refused without one, and anything else is positional.
pub proof fn one_more_argument(args: Seq<Seq<char>>, arg: Seq<char>, spec: SpecModel, p: ParsedModel)
    requires
        parsed(args, spec) == Outcome::Parsed(p),
    ensures
        ({
            let next = parsed(args.push(arg), spec);
            let help = arg == "-h"@ || arg == "--help"@;
            let toggle = spec.toggles.contains(arg);
            let valued = exists|k: int|
                0 <= k < spec.valued.len() && (#[trigger] spec.valued[k]).flag == arg;
            let dashed = arg.len() > 0 && arg[0] == '-';
            &&& help ==> next == Outcome::Help
            &&& !help && toggle ==> next == Outcome::Parsed(
                ParsedModel { toggles: p.toggles.push(arg), ..p },
            )
            &&& !help && !toggle && valued ==> next is MissingValue && next->MissingValue_0.flag
                == arg
            &&& !help && !toggle && !valued && dashed ==> next == Outcome::UnknownFlag(arg)
            &&& !help && !toggle && !valued && !dashed ==> next == Outcome::Parsed(
                ParsedModel { positional: p.positional.push(arg), ..p },
            )
        }),
{
    let tail = seq![arg];
    assert(args.push(arg) =~= args + tail);
    lemma_parsed_so_far(args, tail, 0, spec, nothing_seen());
    let all = args + tail;
    assert(all[args.len() as int] == arg);
    lemma_noun(spec.valued, 0, arg);
    lemma_dashed(arg);
    reveal_with_fuel(parsed_from, 2);
}

proof fn lemma_dashed(arg: Seq<char>)
    ensures
        starts_with(arg, "-"@) <==> arg.len() > 0 && arg[0] == '-',
{
    reveal_strlit("-");
    if starts_with(arg, "-"@) {
        assert(arg.subrange(0, 1)[0] == '-');
    }
    if arg.len() > 0 && arg[0] == '-' {
        assert(arg.subrange(0, 1) =~= "-"@);
    }
}

proof fn lemma_noun(valued: Seq<FlagModel>, i: int, flag: Seq<char>)
    requires
        0 <= i <= valued.len(),
    ensures
        noun_from(valued, i, flag) is Some <==> exists|k: int|
            i <= k < valued.len() && (#[trigger] valued[k]).flag == flag,
    decreases valued.len() - i,
{
    if i < valued.len() {
        lemma_noun(valued, i + 1, flag);
        if valued[i].flag == flag {
            assert(noun_from(valued, i, flag) is Some);
        }
    }
}

/// A flag that wants a value takes the argument behind it, whatever that is.
pub proof fn a_flag_takes_its_value(
    args: Seq<Seq<char>>,
    flag: Seq<char>,
    value: Seq<char>,
    spec: SpecModel,
    p: ParsedModel,
)
    requires
        parsed(args, spec) == Outcome::Parsed(p),
        flag != "-h"@,
        flag != "--help"@,
        !spec.toggles.contains(flag),
        exists|k: int| 0 <= k < spec.valued.len() && (#[trigger] spec.valued[k]).flag == flag,
    ensures
        parsed(args.push(flag).push(value), spec) == Outcome::Parsed(
            ParsedModel { values: p.values.insert(flag, value), ..p },
        ),
{
    let tail = seq![flag, value];
    assert(args.push(flag).push(value) =~= args + tail);
    lemma_parsed_so_far(args, tail, 0, spec, nothing_seen());
    let all = args + tail;
    assert(all[args.len() as int] == flag);
    assert(all[args.len() as int + 1] == value);
    lemma_noun(spec.valued, 0, flag);
    reveal_with_fuel(parsed_from, 2);
}

/// Without arguments nothing is on and nothing is given.
pub proof fn no_arguments_say_nothing(spec: SpecModel)
    ensures
        parsed(Seq::empty(), spec) is Parsed,
        (parsed(Seq::empty(), spec)->Parsed_0).toggles.len() == 0,
        (parsed(Seq::empty(), spec)->Parsed_0).positional.len() == 0,
        (parsed(Seq::empty(), spec)->Parsed_0).values.dom() =~= Set::empty(),
{
}

/// An unknown flag is refused whatever follows it.
pub proof fn an_unknown_flag_stays_refused(
    args: Seq<Seq<char>>,
    tail: Seq<Seq<char>>,
    spec: SpecModel,
    flag: Seq<char>,
)
    requires
        parsed(args, spec) == Outcome::UnknownFlag(flag),
    ensures
        parsed(args + tail, spec) == Outcome::UnknownFlag(flag),
{
    lemma_parsed_so_far(args, tail, 0, spec, nothing_seen());
}

/// The messages for arguments that are refused.
pub proof fn refusals_name_the_flag(flag: Seq<char>, noun: Seq<char>)
    ensures
        unknown_flag(flag) == "unknown flag: "@ + flag,
        missing_value(FlagModel { flag, noun }) == flag + " requires a "@ + noun + " argument"@,
{
}

/// The knowledge base is the one at the place given, and the one in the working
/// directory where none is given.
pub proof fn the_knowledge_base_that_is_meant(p: ParsedModel, i: nat)
    ensures
        i < p.positional.len() ==> p.kb_path(i) == p.positional[i as int],
        i >= p.positional.len() ==> p.kb_path(i) == "./lepiter"@,
{
}

} // verus!
