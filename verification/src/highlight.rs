//! Code highlighting: one tokenizer that every renderer colours in its own
//! way.

use crate::text::{
    ascii_alphanumeric, ascii_digit, ascii_letter, chars_of, contains_char, find_from, find_text,
    is_ascii_alphanumeric, is_ascii_digit, is_ascii_letter, lemma_concat, lemma_find_from,
    lemma_next_pos, matches_at, next_pos, next_position, same_text, stands_at,
};
use vstd::prelude::*;

verus! {

/// A single token produced by the code-line tokenizer.
#[derive(Debug, Clone, Copy, PartialEq, Eq)]
pub enum CodeToken<'a> {
    /// Rest-of-line or delimited comment (with its markers).
    Comment(&'a str),
    /// String literal including its quotes.
    StringLit(&'a str),
    /// Numeric literal (digits and dots).
    Number(&'a str),
    /// A language keyword.
    Keyword(&'a str),
    /// A non-keyword identifier.
    Ident(&'a str),
    /// A single punctuation, operator or white-space character.
    Punct(char),
}

/// What a [`CodeToken`] holds.
pub enum TokenModel {
    Comment(Seq<char>),
    StringLit(Seq<char>),
    Number(Seq<char>),
    Keyword(Seq<char>),
    Ident(Seq<char>),
    Punct(char),
}

impl<'a> View for CodeToken<'a> {
    type V = TokenModel;

    open spec fn view(&self) -> TokenModel {
        match self {
            CodeToken::Comment(t) => TokenModel::Comment(t@),
            CodeToken::StringLit(t) => TokenModel::StringLit(t@),
            CodeToken::Number(t) => TokenModel::Number(t@),
            CodeToken::Keyword(t) => TokenModel::Keyword(t@),
            CodeToken::Ident(t) => TokenModel::Ident(t@),
            CodeToken::Punct(c) => TokenModel::Punct(*c),
        }
    }
}

impl TokenModel {
    /// The characters of the line that the token covers.
    pub open spec fn covers(self) -> Seq<char> {
        match self {
            TokenModel::Comment(t) => t,
            TokenModel::StringLit(t) => t,
            TokenModel::Number(t) => t,
            TokenModel::Keyword(t) => t,
            TokenModel::Ident(t) => t,
            TokenModel::Punct(c) => seq![c],
        }
    }
}

pub open spec fn token_models(v: Seq<CodeToken>) -> Seq<TokenModel> {
    Seq::new(v.len(), |i: int| v[i]@)
}

/// A pair of block-comment delimiters.
#[derive(Debug, Clone, Copy)]
pub struct BlockComment {
    pub open: &'static str,
    pub close: &'static str,
}

/// A pair of single-character comment delimiters.
#[derive(Debug, Clone, Copy, PartialEq, Eq, Structural)]
pub struct CommentDelims {
    pub open: char,
    pub close: char,
}

/// Per-language lexing rules that drive [`tokenize_code_line`]: the single
/// source of truth for comment, string and keyword syntax.
#[derive(Debug)]
pub struct LanguageSyntax {
    /// Rest-of-line comment markers, such as `#` or `//`.
    pub line_comments: Vec<&'static str>,
    /// Paired block-comment delimiters, such as `/*` and `*/`.
    pub block_comment: Option<BlockComment>,
    /// Characters that open and close a string literal.
    pub string_delims: Vec<char>,
    /// Paired single-character comment delimiters, such as Smalltalk's `"`.
    pub comment_delims: Vec<CommentDelims>,
    /// Language keywords rendered distinctly.
    pub keywords: Vec<&'static str>,
}

/// What a [`LanguageSyntax`] holds.
pub struct SyntaxModel {
    pub line_comments: Seq<Seq<char>>,
    pub block_comment: Option<(Seq<char>, Seq<char>)>,
    pub string_delims: Seq<char>,
    pub comment_delims: Seq<CommentDelims>,
    pub keywords: Seq<Seq<char>>,
}

pub open spec fn str_views(v: Seq<&'static str>) -> Seq<Seq<char>> {
    Seq::new(v.len(), |i: int| v[i]@)
}

impl View for LanguageSyntax {
    type V = SyntaxModel;

    open spec fn view(&self) -> SyntaxModel {
        SyntaxModel {
            line_comments: str_views(self.line_comments@),
            block_comment: match self.block_comment {
                Some(b) => Some((b.open@, b.close@)),
                None => None,
            },
            string_delims: self.string_delims@,
            comment_delims: self.comment_delims@,
            keywords: str_views(self.keywords@),
        }
    }
}

/// Languages with no known syntax: both quote styles are strings.
pub open spec fn default_syntax() -> SyntaxModel {
    SyntaxModel {
        line_comments: Seq::empty(),
        block_comment: None,
        string_delims: seq!['"', '\''],
        comment_delims: Seq::empty(),
        keywords: Seq::empty(),
    }
}

/// The syntax of a code-fence language.
pub open spec fn syntax_of(language: Option<Seq<char>>) -> SyntaxModel {
    match language {
        None => default_syntax(),
        Some(name) => {
            if name == "pharo"@ || name == "gemstone"@ {
                // in Smalltalk `"…"` is a comment and `'…'` a string
                SyntaxModel {
                    string_delims: seq!['\''],
                    comment_delims: seq![CommentDelims { open: '"', close: '"' }],
                    keywords: seq![
                        "self"@,
                        "super"@,
                        "true"@,
                        "false"@,
                        "nil"@,
                        "thisContext"@,
                    ],
                    ..default_syntax()
                }
            } else if name == "python"@ {
                SyntaxModel {
                    line_comments: seq!["#"@],
                    keywords: seq![
                        "def"@,
                        "class"@,
                        "return"@,
                        "if"@,
                        "elif"@,
                        "else"@,
                        "for"@,
                        "while"@,
                        "in"@,
                        "try"@,
                        "except"@,
                        "with"@,
                        "as"@,
                        "import"@,
                        "from"@,
                        "pass"@,
                        "break"@,
                        "continue"@,
                        "True"@,
                        "False"@,
                        "None"@,
                    ],
                    ..default_syntax()
                }
            } else if name == "javascript"@ {
                SyntaxModel {
                    line_comments: seq!["//"@],
                    block_comment: Some(("/*"@, "*/"@)),
                    keywords: seq![
                        "function"@,
                        "return"@,
                        "if"@,
                        "else"@,
                        "for"@,
                        "while"@,
                        "const"@,
                        "let"@,
                        "var"@,
                        "class"@,
                        "new"@,
                        "import"@,
                        "from"@,
                        "export"@,
                        "default"@,
                        "try"@,
                        "catch"@,
                        "true"@,
                        "false"@,
                        "null"@,
                        "undefined"@,
                    ],
                    ..default_syntax()
                }
            } else if name == "shell"@ || name == "bash"@ || name == "shellcommand"@ {
                SyntaxModel {
                    line_comments: seq!["#"@],
                    keywords: seq![
                        "if"@,
                        "then"@,
                        "fi"@,
                        "for"@,
                        "in"@,
                        "do"@,
                        "done"@,
                        "case"@,
                        "esac"@,
                        "while"@,
                        "function"@,
                        "echo"@,
                        "exit"@,
                    ],
                    ..default_syntax()
                }
            } else if name == "json"@ {
                SyntaxModel {
                    string_delims: seq!['"'],
                    keywords: seq!["true"@, "false"@, "null"@],
                    ..default_syntax()
                }
            } else if name == "yaml"@ {
                SyntaxModel {
                    line_comments: seq!["#"@],
                    keywords: seq!["true"@, "false"@, "null"@],
                    ..default_syntax()
                }
            } else {
                default_syntax()
            }
        },
    }
}

pub open spec fn str_opt_view(o: Option<&str>) -> Option<Seq<char>> {
    match o {
        Some(t) => Some(t@),
        None => None,
    }
}

/// Selects the [`LanguageSyntax`] for a code-fence language. Accepts both the
/// canonical snippet languages (such as `shellcommand`) and the common
/// markdown-fence aliases (`shell`, `bash`).
pub fn syntax_for_language(language: Option<&str>) -> (syntax: LanguageSyntax)
    ensures
        syntax@ == syntax_of(str_opt_view(language)),
{
    let mut syntax = LanguageSyntax {
        line_comments: Vec::new(),
        block_comment: None,
        string_delims: vec!['"', '\''],
        comment_delims: Vec::new(),
        keywords: Vec::new(),
    };
    if let Some(name) = language {
        if same_text(name, "pharo") || same_text(name, "gemstone") {
            syntax.string_delims = vec!['\''];
            syntax.comment_delims = vec![CommentDelims { open: '"', close: '"' }];
            syntax.keywords = vec!["self", "super", "true", "false", "nil", "thisContext"];
        } else if same_text(name, "python") {
            syntax.line_comments = vec!["#"];
            syntax.keywords = vec![
                "def", "class", "return", "if", "elif", "else", "for", "while", "in", "try",
                "except", "with", "as", "import", "from", "pass", "break", "continue", "True",
                "False", "None",
            ];
        } else if same_text(name, "javascript") {
            syntax.line_comments = vec!["//"];
            syntax.block_comment = Some(BlockComment { open: "/*", close: "*/" });
            syntax.keywords = vec![
                "function", "return", "if", "else", "for", "while", "const", "let", "var",
                "class", "new", "import", "from", "export", "default", "try", "catch", "true",
                "false", "null", "undefined",
            ];
        } else if same_text(name, "shell") || same_text(name, "bash") || same_text(
            name,
            "shellcommand",
        ) {
            syntax.line_comments = vec!["#"];
            syntax.keywords = vec![
                "if", "then", "fi", "for", "in", "do", "done", "case", "esac", "while", "function",
                "echo", "exit",
            ];
        } else if same_text(name, "json") {
            syntax.string_delims = vec!['"'];
            syntax.keywords = vec!["true", "false", "null"];
        } else if same_text(name, "yaml") {
            syntax.line_comments = vec!["#"];
            syntax.keywords = vec!["true", "false", "null"];
        }
    }
    assert(syntax@.line_comments =~= syntax_of(str_opt_view(language)).line_comments);
    assert(syntax@.string_delims =~= syntax_of(str_opt_view(language)).string_delims);
    assert(syntax@.comment_delims =~= syntax_of(str_opt_view(language)).comment_delims);
    assert(syntax@.keywords =~= syntax_of(str_opt_view(language)).keywords);
    syntax
}


// ---------------------------------------------------------------------------
// The lexical grammar
// ---------------------------------------------------------------------------

/// Whether a rest-of-line comment starts at `i`.
pub open spec fn opens_line_comment(s: Seq<char>, i: int, syntax: SyntaxModel) -> bool {
    exists|k: int|
        0 <= k < syntax.line_comments.len() && matches_at(s, i, #[trigger] syntax.line_comments[k])
}

/// Where a comment that runs to the first `close` at or after `i` ends.
pub open spec fn block_end(s: Seq<char>, i: int, close: Seq<char>) -> int {
    match find_from(s, i, close) {
        Some(k) => if k < s.len() {
            k + close.len()
        } else {
            s.len() as int
        },
        None => s.len() as int,
    }
}

/// Where a comment that runs to the first `close` at or after `i` ends.
pub open spec fn delimited_end(s: Seq<char>, i: int, close: char) -> int {
    let k = next_pos(s, i, close);
    if k < s.len() {
        k + 1
    } else {
        s.len() as int
    }
}

/// Where a string literal ends: after the first `quote` at or after `i` that no
/// backslash escapes.
pub open spec fn string_end(s: Seq<char>, i: int, quote: char, escaped: bool) -> int
    decreases s.len() - i,
{
    if i < 0 || i >= s.len() {
        s.len() as int
    } else if escaped {
        string_end(s, i + 1, quote, false)
    } else if s[i] == '\\' {
        string_end(s, i + 1, quote, true)
    } else if s[i] == quote {
        i + 1
    } else {
        string_end(s, i + 1, quote, false)
    }
}

/// Where a run of digits and dots that goes on at `i` ends.
pub open spec fn number_end(s: Seq<char>, i: int) -> int
    decreases s.len() - i,
{
    if 0 <= i < s.len() && (ascii_digit(s[i]) || s[i] == '.') {
        number_end(s, i + 1)
    } else {
        i
    }
}

/// Where a run of letters, digits and underscores that goes on at `i` ends.
pub open spec fn word_end(s: Seq<char>, i: int) -> int
    decreases s.len() - i,
{
    if 0 <= i < s.len() && (ascii_alphanumeric(s[i]) || s[i] == '_') {
        word_end(s, i + 1)
    } else {
        i
    }
}

/// The closing delimiter of a single-character comment opened by `c`.
pub open spec fn comment_close(delims: Seq<CommentDelims>, k: int, c: char) -> Option<char>
    decreases delims.len() - k,
{
    if k < 0 || k >= delims.len() {
        None
    } else if delims[k].open == c {
        Some(delims[k].close)
    } else {
        comment_close(delims, k + 1, c)
    }
}

/// Whether a block comment starts at `i`.
pub open spec fn opens_block(s: Seq<char>, i: int, syntax: SyntaxModel) -> bool {
    match syntax.block_comment {
        Some((open, close)) => matches_at(s, i, open),
        None => false,
    }
}

/// The token that starts at `i`, where no rest-of-line comment does, and where
/// it ends. The first of these applies: a block comment, a delimited comment, a
/// string, a number, a word, a single character.
pub open spec fn token_at(s: Seq<char>, i: int, syntax: SyntaxModel) -> (TokenModel, int) {
    if opens_block(s, i, syntax) {
        let delims = syntax.block_comment->0;
        let end = block_end(s, i + delims.0.len(), delims.1);
        (TokenModel::Comment(s.subrange(i, end)), end)
    } else if let Some(close) = comment_close(syntax.comment_delims, 0, s[i]) {
        let end = delimited_end(s, i + 1, close);
        (TokenModel::Comment(s.subrange(i, end)), end)
    } else if syntax.string_delims.contains(s[i]) {
        let end = string_end(s, i + 1, s[i], false);
        (TokenModel::StringLit(s.subrange(i, end)), end)
    } else if ascii_digit(s[i]) {
        let end = number_end(s, i + 1);
        (TokenModel::Number(s.subrange(i, end)), end)
    } else if ascii_letter(s[i]) || s[i] == '_' {
        let end = word_end(s, i + 1);
        let word = s.subrange(i, end);
        if syntax.keywords.contains(word) {
            (TokenModel::Keyword(word), end)
        } else {
            (TokenModel::Ident(word), end)
        }
    } else {
        (TokenModel::Punct(s[i]), i + 1)
    }
}

/// The tokens of `s` from `i` on.
pub open spec fn tokens_from(s: Seq<char>, i: int, syntax: SyntaxModel) -> Seq<TokenModel>
    decreases s.len() - i,
    via tokens_from_decreases
{
    if i < 0 || i >= s.len() {
        Seq::empty()
    } else if opens_line_comment(s, i, syntax) {
        seq![TokenModel::Comment(s.subrange(i, s.len() as int))]
    } else if syntax.block_comment matches Some(b) && b.0.len() == 0 {
        Seq::empty()
    } else {
        seq![token_at(s, i, syntax).0] + tokens_from(s, token_at(s, i, syntax).1, syntax)
    }
}

#[via_fn]
proof fn tokens_from_decreases(s: Seq<char>, i: int, syntax: SyntaxModel) {
    if 0 <= i < s.len() && !(syntax.block_comment matches Some(b) && b.0.len() == 0) {
        lemma_token_extent(s, i, syntax);
    }
}

/// The tokens of a line in `language`.
pub open spec fn line_tokens(s: Seq<char>, language: Option<Seq<char>>) -> Seq<TokenModel> {
    tokens_from(s, 0, syntax_of(language))
}

proof fn lemma_string_end(s: Seq<char>, i: int, quote: char, escaped: bool)
    requires
        0 <= i <= s.len(),
    ensures
        i <= string_end(s, i, quote, escaped) <= s.len(),
    decreases s.len() - i,
{
    if i < s.len() {
        lemma_string_end(s, i + 1, quote, false);
        lemma_string_end(s, i + 1, quote, true);
    }
}

proof fn lemma_number_end(s: Seq<char>, i: int)
    requires
        0 <= i <= s.len(),
    ensures
        i <= number_end(s, i) <= s.len(),
    decreases s.len() - i,
{
    if i < s.len() {
        lemma_number_end(s, i + 1);
    }
}

proof fn lemma_word_end(s: Seq<char>, i: int)
    requires
        0 <= i <= s.len(),
    ensures
        i <= word_end(s, i) <= s.len(),
    decreases s.len() - i,
{
    if i < s.len() {
        lemma_word_end(s, i + 1);
    }
}

/// A token is not empty, lies inside the line and covers just its own part.
proof fn lemma_token_extent(s: Seq<char>, i: int, syntax: SyntaxModel)
    requires
        0 <= i < s.len(),
        syntax.block_comment matches Some(b) ==> b.0.len() > 0,
    ensures
        i < token_at(s, i, syntax).1 <= s.len(),
        token_at(s, i, syntax).0.covers() == s.subrange(i, token_at(s, i, syntax).1),
{
    if opens_block(s, i, syntax) {
        let delims = syntax.block_comment->0;
        lemma_find_from(s, i + delims.0.len(), delims.1);
    } else if let Some(close) = comment_close(syntax.comment_delims, 0, s[i]) {
        lemma_next_pos(s, i + 1, close);
    } else {
        lemma_string_end(s, i + 1, s[i], false);
        lemma_number_end(s, i + 1);
        lemma_word_end(s, i + 1);
        assert(seq![s[i]] =~= s.subrange(i, i + 1));
    }
}

/// The characters that tokens cover, put together.
pub open spec fn covered_text(tokens: Seq<TokenModel>) -> Seq<char>
    decreases tokens.len(),
{
    if tokens.len() == 0 {
        Seq::empty()
    } else {
        tokens[0].covers() + covered_text(tokens.skip(1))
    }
}

proof fn lemma_tokens_cover_from(s: Seq<char>, i: int, syntax: SyntaxModel)
    requires
        0 <= i <= s.len(),
        syntax.block_comment matches Some(b) ==> b.0.len() > 0,
    ensures
        covered_text(tokens_from(s, i, syntax)) == s.skip(i),
    decreases s.len() - i,
{
    let tokens = tokens_from(s, i, syntax);
    if i >= s.len() {
        assert(s.skip(i) =~= Seq::<char>::empty());
    } else if opens_line_comment(s, i, syntax) {
        assert(tokens.skip(1) =~= Seq::<TokenModel>::empty());
        assert(covered_text(tokens.skip(1)) =~= Seq::<char>::empty());
        assert(s.subrange(i, s.len() as int) + Seq::<char>::empty() =~= s.skip(i));
    } else {
        let end = token_at(s, i, syntax).1;
        lemma_token_extent(s, i, syntax);
        lemma_tokens_cover_from(s, end, syntax);
        assert(tokens.skip(1) =~= tokens_from(s, end, syntax));
        assert(s.subrange(i, end) + s.skip(end) =~= s.skip(i));
    }
}

proof fn lemma_syntax_delims(language: Option<Seq<char>>)
    ensures
        syntax_of(language).block_comment matches Some(b) ==> b.0.len() > 0,
{
    reveal_strlit("/*");
}

/// The tokens of a line cover it completely and in order: put together they
/// give the line back.
pub proof fn tokens_cover_the_line(s: Seq<char>, language: Option<Seq<char>>)
    ensures
        covered_text(line_tokens(s, language)) == s,
{
    lemma_syntax_delims(language);
    lemma_tokens_cover_from(s, 0, syntax_of(language));
    assert(s.skip(0) =~= s);
}

// ---------------------------------------------------------------------------
// Tokenizing
// ---------------------------------------------------------------------------

fn starts_line_comment(v: &Vec<char>, i: usize, syntax: &LanguageSyntax) -> (b: bool)
    ensures
        b == opens_line_comment(v@, i as int, syntax@),
{
    let mut k: usize = 0;
    while k < syntax.line_comments.len()
        invariant
            k <= syntax.line_comments@.len(),
            forall|j: int|
                0 <= j < k ==> !matches_at(v@, i as int, #[trigger] syntax@.line_comments[j]),
        decreases syntax.line_comments.len() - k,
    {
        let marker = syntax.line_comments[k];
        assert(syntax@.line_comments[k as int] == marker@);
        if stands_at(v, i, marker) {
            return true;
        }
        k += 1;
    }
    false
}

fn find_comment_close(syntax: &LanguageSyntax, c: char) -> (close: Option<char>)
    ensures
        close == comment_close(syntax@.comment_delims, 0, c),
{
    let mut k: usize = 0;
    while k < syntax.comment_delims.len()
        invariant
            k <= syntax.comment_delims@.len(),
            comment_close(syntax@.comment_delims, 0, c) == comment_close(
                syntax@.comment_delims,
                k as int,
                c,
            ),
        decreases syntax.comment_delims.len() - k,
    {
        if syntax.comment_delims[k].open == c {
            return Some(syntax.comment_delims[k].close);
        }
        k += 1;
    }
    None
}

fn is_string_delim(syntax: &LanguageSyntax, c: char) -> (b: bool)
    ensures
        b == syntax@.string_delims.contains(c),
{
    let mut k: usize = 0;
    while k < syntax.string_delims.len()
        invariant
            k <= syntax.string_delims@.len(),
            forall|j: int| 0 <= j < k ==> syntax@.string_delims[j] != c,
        decreases syntax.string_delims.len() - k,
    {
        if syntax.string_delims[k] == c {
            return true;
        }
        k += 1;
    }
    false
}

fn is_keyword(syntax: &LanguageSyntax, word: &str) -> (b: bool)
    ensures
        b == syntax@.keywords.contains(word@),
{
    let mut k: usize = 0;
    while k < syntax.keywords.len()
        invariant
            k <= syntax.keywords@.len(),
            forall|j: int| 0 <= j < k ==> syntax@.keywords[j] != word@,
        decreases syntax.keywords.len() - k,
    {
        let keyword = syntax.keywords[k];
        assert(syntax@.keywords[k as int] == keyword@);
        if same_text(keyword, word) {
            return true;
        }
        k += 1;
    }
    false
}

fn find_string_end(v: &Vec<char>, from: usize, quote: char) -> (end: usize)
    requires
        from <= v@.len(),
    ensures
        end == string_end(v@, from as int, quote, false),
{
    let mut i: usize = from;
    let mut escaped = false;
    while i < v.len()
        invariant
            i <= v@.len(),
            string_end(v@, from as int, quote, false) == string_end(v@, i as int, quote, escaped),
        decreases v.len() - i,
    {
        if escaped {
            escaped = false;
        } else if v[i] == '\\' {
            escaped = true;
        } else if v[i] == quote {
            return i + 1;
        }
        i += 1;
    }
    i
}

fn find_number_end(v: &Vec<char>, from: usize) -> (end: usize)
    requires
        from <= v@.len(),
    ensures
        end == number_end(v@, from as int),
{
    let mut i: usize = from;
    while i < v.len() && (is_ascii_digit(v[i]) || v[i] == '.')
        invariant
            i <= v@.len(),
            number_end(v@, from as int) == number_end(v@, i as int),
        decreases v.len() - i,
    {
        i += 1;
    }
    i
}

fn find_word_end(v: &Vec<char>, from: usize) -> (end: usize)
    requires
        from <= v@.len(),
    ensures
        end == word_end(v@, from as int),
{
    let mut i: usize = from;
    while i < v.len() && (is_ascii_alphanumeric(v[i]) || v[i] == '_')
        invariant
            i <= v@.len(),
            word_end(v@, from as int) == word_end(v@, i as int),
        decreases v.len() - i,
    {
        i += 1;
    }
    i
}

/// The length of a string slice in characters.
fn char_count(s: &str) -> (n: usize)
    ensures
        n == s@.len(),
{
    chars_of(s).len()
}

fn next_token<'a>(line: &'a str, v: &Vec<char>, i: usize, syntax: &LanguageSyntax) -> (r: (
    CodeToken<'a>,
    usize,
))
    requires
        v@ == line@,
        i < v.len(),
        syntax@.block_comment matches Some(b) ==> b.0.len() > 0,
    ensures
        r.0@ == token_at(line@, i as int, syntax@).0,
        r.1 == token_at(line@, i as int, syntax@).1,
{
    proof {
        lemma_token_extent(line@, i as int, syntax@);
    }
    if let Some(block) = syntax.block_comment {
        if stands_at(v, i, block.open) {
            let body: usize = i + char_count(block.open);
            let end: usize = match find_text(v, body, block.close) {
                Some(k) => if k < v.len() {
                    k + char_count(block.close)
                } else {
                    v.len()
                },
                None => v.len(),
            };
            return (CodeToken::Comment(line.substring_char(i, end)), end);
        }
    }
    if let Some(close) = find_comment_close(syntax, v[i]) {
        let k: usize = next_position(v, i + 1, close);
        let end: usize = if k < v.len() {
            k + 1
        } else {
            v.len()
        };
        return (CodeToken::Comment(line.substring_char(i, end)), end);
    }
    if is_string_delim(syntax, v[i]) {
        let end: usize = find_string_end(v, i + 1, v[i]);
        return (CodeToken::StringLit(line.substring_char(i, end)), end);
    }
    if is_ascii_digit(v[i]) {
        let end: usize = find_number_end(v, i + 1);
        return (CodeToken::Number(line.substring_char(i, end)), end);
    }
    if is_ascii_letter(v[i]) || v[i] == '_' {
        let end: usize = find_word_end(v, i + 1);
        let word = line.substring_char(i, end);
        if is_keyword(syntax, word) {
            return (CodeToken::Keyword(word), end);
        }
        return (CodeToken::Ident(word), end);
    }
    (CodeToken::Punct(v[i]), i + 1)
}

/// Tokenise a single source line into [`CodeToken`]s.
///
/// `language` selects a [`LanguageSyntax`] table that controls comment, string
/// and keyword lexing. Tokens borrow directly from `line`.
pub fn tokenize_code_line<'a>(line: &'a str, language: Option<&str>) -> (tokens: Vec<CodeToken<'a>>)
    ensures
        token_models(tokens@) == line_tokens(line@, str_opt_view(language)),
{
    let syntax = syntax_for_language(language);
    let v = chars_of(line);
    let ghost s = line@;
    let ghost syn = syntax@;
    let ghost whole = line_tokens(s, str_opt_view(language));
    let mut tokens: Vec<CodeToken<'a>> = Vec::new();
    let mut i: usize = 0;
    proof {
        lemma_syntax_delims(str_opt_view(language));
        assert(token_models(tokens@) + whole =~= whole);
    }
    while i < v.len()
        invariant
            v@ == s,
            s == line@,
            syn == syntax@,
            whole == line_tokens(s, str_opt_view(language)),
            syn.block_comment matches Some(b) ==> b.0.len() > 0,
            i <= v@.len(),
            token_models(tokens@) + tokens_from(s, i as int, syn) == whole,
        decreases v.len() - i,
    {
        let ghost before = token_models(tokens@);
        if starts_line_comment(&v, i, &syntax) {
            let t = CodeToken::Comment(line.substring_char(i, v.len()));
            tokens.push(t);
            assert(token_models(tokens@) =~= before + tokens_from(s, i as int, syn));
            return tokens;
        }
        proof {
            lemma_token_extent(s, i as int, syn);
        }
        let (t, end) = next_token(line, &v, i, &syntax);
        tokens.push(t);
        proof {
            assert(token_models(tokens@) =~= before + seq![t@]);
            lemma_concat(before, seq![t@], tokens_from(s, end as int, syn));
        }
        i = end;
    }
    assert(token_models(tokens@) + tokens_from(s, i as int, syn) =~= token_models(tokens@));
    tokens
}

// ---------------------------------------------------------------------------
// What the tokens are
// ---------------------------------------------------------------------------

/// What starts a comment of a line makes the rest of the line a comment.
pub proof fn a_comment_reaches_to_the_end(s: Seq<char>, i: int, syntax: SyntaxModel, k: int)
    requires
        0 <= i < s.len(),
        0 <= k < syntax.line_comments.len(),
        matches_at(s, i, syntax.line_comments[k]),
    ensures
        tokens_from(s, i, syntax) == seq![TokenModel::Comment(s.subrange(i, s.len() as int))],
{
    assert(opens_line_comment(s, i, syntax));
}

proof fn lemma_whole_word(s: Seq<char>, i: int)
    requires
        0 <= i <= s.len(),
        forall|k: int| i <= k < s.len() ==> ascii_alphanumeric(#[trigger] s[k]) || s[k] == '_',
    ensures
        word_end(s, i) == s.len(),
    decreases s.len() - i,
{
    if i < s.len() {
        assert(ascii_alphanumeric(s[i]) || s[i] == '_');
        lemma_whole_word(s, i + 1);
    }
}

/// A word is a keyword where the language has it as one, and a name otherwise.
pub proof fn a_word_is_a_keyword_or_a_name(word: Seq<char>, syntax: SyntaxModel)
    requires
        word.len() > 0,
        ascii_letter(word[0]) || word[0] == '_',
        forall|k: int|
            0 <= k < word.len() ==> ascii_alphanumeric(#[trigger] word[k]) || word[k] == '_',
        syntax.block_comment is None,
        !opens_line_comment(word, 0, syntax),
        comment_close(syntax.comment_delims, 0, word[0]) is None,
        !syntax.string_delims.contains(word[0]),
    ensures
        syntax.keywords.contains(word) ==> tokens_from(word, 0, syntax) == seq![
            TokenModel::Keyword(word),
        ],
        !syntax.keywords.contains(word) ==> tokens_from(word, 0, syntax) == seq![
            TokenModel::Ident(word),
        ],
{
    lemma_whole_word(word, 1);
    assert(word.subrange(0, word.len() as int) =~= word);
    assert(!ascii_digit(word[0]));
    let token = token_at(word, 0, syntax);
    assert(token.1 == word.len());
    assert(tokens_from(word, word.len() as int, syntax) =~= Seq::<TokenModel>::empty());
    assert(seq![token.0] + Seq::<TokenModel>::empty() =~= seq![token.0]);
}

proof fn lemma_whole_string(s: Seq<char>, i: int, n: int, quote: char)
    requires
        0 <= i <= n < s.len(),
        s[n] == quote,
        quote != '\\',
        forall|k: int| i <= k < n ==> s[k] != quote && s[k] != '\\',
    ensures
        string_end(s, i, quote, false) == n + 1,
    decreases n - i,
{
    if i < n {
        lemma_whole_string(s, i + 1, n, quote);
    }
}

/// What stands between two of the same quotes is a text, with its quotes.
pub proof fn quotes_make_a_text(text: Seq<char>, quote: char, syntax: SyntaxModel)
    requires
        syntax.string_delims.contains(quote),
        quote != '\\',
        !contains_char(text, quote),
        !contains_char(text, '\\'),
        syntax.block_comment is None,
        !opens_line_comment(seq![quote] + text + seq![quote], 0, syntax),
        comment_close(syntax.comment_delims, 0, quote) is None,
    ensures
        tokens_from(seq![quote] + text + seq![quote], 0, syntax) == seq![
            TokenModel::StringLit(seq![quote] + text + seq![quote]),
        ],
{
    let s = seq![quote] + text + seq![quote];
    let n = text.len() as int + 1;
    assert forall|k: int| 1 <= k < n implies s[k] != quote && s[k] != '\\' by {
        assert(s[k] == text[k - 1]);
    }
    assert(s[0] == quote && s[n] == quote);
    lemma_whole_string(s, 1, n, quote);
    assert(s.subrange(0, s.len() as int) =~= s);
    let token = token_at(s, 0, syntax);
    assert(token.1 == s.len());
    assert(tokens_from(s, s.len() as int, syntax) =~= Seq::<TokenModel>::empty());
    assert(seq![token.0] + Seq::<TokenModel>::empty() =~= seq![token.0]);
}

/// In Smalltalk double quotes make comments and single quotes texts; in other
/// languages both make texts, but only double quotes in JSON.
pub proof fn the_quotes_of_each_language()
    ensures
        syntax_of(Some("pharo"@)).string_delims == seq!['\''],
        comment_close(syntax_of(Some("pharo"@)).comment_delims, 0, '"') == Some('"'),
        syntax_of(Some("python"@)).string_delims == seq!['"', '\''],
        syntax_of(Some("javascript"@)).string_delims == seq!['"', '\''],
        syntax_of(Some("json"@)).string_delims == seq!['"'],
        syntax_of(None).string_delims == seq!['"', '\''],
        syntax_of(Some("python"@)).line_comments == seq!["#"@],
        syntax_of(Some("yaml"@)).line_comments == seq!["#"@],
        syntax_of(Some("bash"@)).line_comments == seq!["#"@],
        syntax_of(Some("javascript"@)).line_comments == seq!["//"@],
        syntax_of(Some("javascript"@)).block_comment == Some(("/*"@, "*/"@)),
        syntax_of(None).line_comments.len() == 0,
        syntax_of(None).keywords.len() == 0,
{
    reveal_strlit("pharo");
    reveal_strlit("gemstone");
    reveal_strlit("python");
    reveal_strlit("javascript");
    reveal_strlit("shell");
    reveal_strlit("bash");
    reveal_strlit("shellcommand");
    reveal_strlit("json");
    reveal_strlit("yaml");
    assert("pharo"@.len() == 5 && "gemstone"@.len() == 8 && "python"@.len() == 6
        && "javascript"@.len() == 10 && "shellcommand"@.len() == 12);
    assert("shell"@.len() == 5 && "shell"@[0] == 's' && "pharo"@[0] == 'p');
    assert("bash"@.len() == 4 && "bash"@[0] == 'b' && "json"@.len() == 4 && "json"@[0] == 'j'
        && "yaml"@.len() == 4 && "yaml"@[0] == 'y');
}

proof fn lemma_whole_number(s: Seq<char>, i: int)
    requires
        0 <= i <= s.len(),
        forall|k: int| i <= k < s.len() ==> ascii_digit(#[trigger] s[k]) || s[k] == '.',
    ensures
        number_end(s, i) == s.len(),
    decreases s.len() - i,
{
    if i < s.len() {
        assert(ascii_digit(s[i]) || s[i] == '.');
        lemma_whole_number(s, i + 1);
    }
}

/// Digits, with points between them, are one number.
pub proof fn digits_make_a_number(s: Seq<char>, syntax: SyntaxModel)
    requires
        s.len() > 0,
        ascii_digit(s[0]),
        forall|k: int| 0 <= k < s.len() ==> ascii_digit(#[trigger] s[k]) || s[k] == '.',
        syntax.block_comment is None,
        !opens_line_comment(s, 0, syntax),
        comment_close(syntax.comment_delims, 0, s[0]) is None,
        !syntax.string_delims.contains(s[0]),
    ensures
        tokens_from(s, 0, syntax) == seq![TokenModel::Number(s)],
{
    lemma_whole_number(s, 1);
    assert(s.subrange(0, s.len() as int) =~= s);
    let token = token_at(s, 0, syntax);
    assert(token.1 == s.len());
    assert(tokens_from(s, s.len() as int, syntax) =~= Seq::<TokenModel>::empty());
    assert(seq![token.0] + Seq::<TokenModel>::empty() =~= seq![token.0]);
}

} // verus!
