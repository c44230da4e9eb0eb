//! The lexer: turns a sequence of characters into tokens on demand, with
//! single-token pushback (`peek`) and line/column tracking for diagnostics.
//!
//! The whole tokenization rule set is written down as spec functions over the
//! character sequence (`spec_next_token` and the scanners it uses), and every
//! exec method of [`Lexer`] is proved to follow that model exactly.

use vstd::prelude::*;

use crate::util::{Error, ErrorModel};

verus! {

/// Relies on std's String::push: appends the given character to the end of
/// the string. vstd gives this method no specification of its own.
pub assume_specification[ String::push ](s: &mut String, c: char)
    ensures
        final(s)@ == old(s)@.push(c),
;

// ===== Character classes =====

/// Whitespace that may be skipped between tokens: space, tab, and newline
/// (the newline still advances the line counter when crossed).
pub open spec fn spec_is_skippable(c: char) -> bool {
    c == ' ' || c == '\t' || c == '\n'
}

pub open spec fn spec_is_digit(c: char) -> bool {
    ('0' as u32) <= (c as u32) && (c as u32) <= ('9' as u32)
}

pub open spec fn spec_is_lowercase(c: char) -> bool {
    ('a' as u32) <= (c as u32) && (c as u32) <= ('z' as u32)
}

pub open spec fn spec_is_uppercase(c: char) -> bool {
    ('A' as u32) <= (c as u32) && (c as u32) <= ('Z' as u32)
}

/// An identifier begins with a lowercase letter or an underscore.
pub open spec fn spec_is_ident_start(c: char) -> bool {
    spec_is_lowercase(c) || c == '_'
}

/// After the first character, an identifier may contain ASCII letters of
/// either case, digits, `_`, and any of `? ! - < > =`.
pub open spec fn spec_is_ident_char(c: char) -> bool {
    spec_is_lowercase(c) || spec_is_uppercase(c) || spec_is_digit(c) || c == '_' || c == '?'
        || c == '!' || c == '-' || c == '<' || c == '>' || c == '='
}

/// The characters an operator token is built from; a maximal run of them
/// makes one token.
pub open spec fn spec_is_op_char(c: char) -> bool {
    c == '=' || c == '+' || c == '-' || c == '*' || c == '/' || c == '%' || c == '&' || c == '<'
        || c == '>' || c == '!'
}

/// Single-character delimiter tokens.
pub open spec fn spec_is_delimiter(c: char) -> bool {
    c == ',' || c == ';' || c == '(' || c == ')' || c == '[' || c == ']' || c == '{' || c == '}'
}

/// The character classes that the lexer scans maximal runs of.
#[derive(Clone, Copy, Debug)]
pub enum CharClass {
    Skippable,
    IdentChar,
    OpChar,
    NotNewline,
}

pub open spec fn class_matches(k: CharClass, c: char) -> bool {
    match k {
        CharClass::Skippable => spec_is_skippable(c),
        CharClass::IdentChar => spec_is_ident_char(c),
        CharClass::OpChar => spec_is_op_char(c),
        CharClass::NotNewline => c != '\n',
    }
}

fn class_check(k: CharClass, c: char) -> (r: bool)
    ensures
        r == class_matches(k, c),
{
    match k {
        CharClass::Skippable => c == ' ' || c == '\t' || c == '\n',
        CharClass::IdentChar => {
            let u = c as u32;
            (('a' as u32) <= u && u <= ('z' as u32)) || (('A' as u32) <= u && u <= ('Z' as u32))
                || (('0' as u32) <= u && u <= ('9' as u32)) || c == '_' || c == '?' || c == '!'
                || c == '-' || c == '<' || c == '>' || c == '='
        },
        CharClass::OpChar => c == '=' || c == '+' || c == '-' || c == '*' || c == '/' || c == '%'
            || c == '&' || c == '<' || c == '>' || c == '!',
        CharClass::NotNewline => c != '\n',
    }
}

fn is_digit_char(c: char) -> (r: bool)
    ensures
        r == spec_is_digit(c),
{
    let u = c as u32;
    ('0' as u32) <= u && u <= ('9' as u32)
}

fn is_ident_start_char(c: char) -> (r: bool)
    ensures
        r == spec_is_ident_start(c),
{
    let u = c as u32;
    (('a' as u32) <= u && u <= ('z' as u32)) || c == '_'
}

fn is_delimiter_char(c: char) -> (r: bool)
    ensures
        r == spec_is_delimiter(c),
{
    c == ',' || c == ';' || c == '(' || c == ')' || c == '[' || c == ']' || c == '{' || c == '}'
}

// ===== Keywords =====

/// The reserved words of the language.
pub open spec fn spec_is_keyword(t: Seq<char>) -> bool {
    t == "fn"@ || t == "true"@ || t == "false"@ || t == "if"@ || t == "then"@ || t == "else"@
}

/// Compares a string against a literal by content.
pub(crate) fn str_eq_lit(a: &str, b: &str) -> (r: bool)
    ensures
        r == (a@ == b@),
{
    let sa: String = a.to_owned();
    let sb: String = b.to_owned();
    sa == sb
}

fn is_keyword(s: &String) -> (r: bool)
    ensures
        r == spec_is_keyword(s@),
{
    let t = s.as_str();
    str_eq_lit(t, "fn") || str_eq_lit(t, "true") || str_eq_lit(t, "false") || str_eq_lit(t, "if")
        || str_eq_lit(t, "then") || str_eq_lit(t, "else")
}

// ===== Tokens =====

/// Mathematical model of a [`Token`]: text becomes a sequence of characters,
/// the integer payload becomes an unbounded integer.
pub enum TokenModel {
    Variable(Seq<char>),
    Operator(Seq<char>),
    Keyword(Seq<char>),
    StringLiteral(Seq<char>),
    Integral(int),
    FloatingPoint(Seq<char>),
    Delimiter(char),
    EOF,
}

/// An atomic lexical unit. Two tokens are equal exactly when their kind and
/// payload match. A floating-point literal keeps the text of its digits (the
/// digits and the one dot, exactly as they stood in the source); turning that
/// text into a machine float is the emission collaborator's concern.
#[derive(Debug, Clone)]
pub enum Token {
    Variable(String),
    Operator(String),
    Keyword(String),
    StringLiteral(String),
    Integral(i32),
    FloatingPoint(String),
    Delimiter(char),
    EOF,
}

impl View for Token {
    type V = TokenModel;

    open spec fn view(&self) -> TokenModel {
        match self {
            Token::Variable(s) => TokenModel::Variable(s@),
            Token::Operator(s) => TokenModel::Operator(s@),
            Token::Keyword(s) => TokenModel::Keyword(s@),
            Token::StringLiteral(s) => TokenModel::StringLiteral(s@),
            Token::Integral(v) => TokenModel::Integral(*v as int),
            Token::FloatingPoint(s) => TokenModel::FloatingPoint(s@),
            Token::Delimiter(c) => TokenModel::Delimiter(*c),
            Token::EOF => TokenModel::EOF,
        }
    }
}

impl PartialEq for Token {
    /// Value equality: same kind and same payload.
    fn eq(&self, other: &Self) -> bool {
        match (self, other) {
            (Token::Variable(a), Token::Variable(b)) => *a == *b,
            (Token::Operator(a), Token::Operator(b)) => *a == *b,
            (Token::Keyword(a), Token::Keyword(b)) => *a == *b,
            (Token::StringLiteral(a), Token::StringLiteral(b)) => *a == *b,
            (Token::Integral(a), Token::Integral(b)) => *a == *b,
            (Token::FloatingPoint(a), Token::FloatingPoint(b)) => *a == *b,
            (Token::Delimiter(a), Token::Delimiter(b)) => *a == *b,
            (Token::EOF, Token::EOF) => true,
            _ => false,
        }
    }
}

impl vstd::std_specs::cmp::PartialEqSpecImpl for Token {
    open spec fn obeys_eq_spec() -> bool {
        true
    }

    open spec fn eq_spec(&self, other: &Self) -> bool {
        self@ == other@
    }
}

impl Token {
    /// A copy whose model is the same as this token's.
    pub fn duplicate(&self) -> (t: Token)
        ensures
            t@ == self@,
    {
        match self {
            Token::Variable(s) => Token::Variable(s.clone()),
            Token::Operator(s) => Token::Operator(s.clone()),
            Token::Keyword(s) => Token::Keyword(s.clone()),
            Token::StringLiteral(s) => Token::StringLiteral(s.clone()),
            Token::Integral(v) => Token::Integral(*v),
            Token::FloatingPoint(s) => Token::FloatingPoint(s.clone()),
            Token::Delimiter(c) => Token::Delimiter(*c),
            Token::EOF => Token::EOF,
        }
    }
}

// ===== Position tracking =====

/// 1-based line number after advancing over the first `i` characters of `s`:
/// one more than the number of newlines crossed.
pub open spec fn line_of(s: Seq<char>, i: int) -> int
    decreases i,
{
    if i <= 0 {
        1
    } else {
        line_of(s, i - 1) + if s[i - 1] == '\n' {
            1int
        } else {
            0int
        }
    }
}

/// Column after advancing over the first `i` characters of `s`: characters
/// crossed since the last newline, reset to 0 on each newline.
pub open spec fn col_of(s: Seq<char>, i: int) -> int
    decreases i,
{
    if i <= 0 {
        0
    } else if s[i - 1] == '\n' {
        0
    } else {
        col_of(s, i - 1) + 1
    }
}

/// The error position reported when the lexer's cursor stands at `i`.
pub open spec fn err_at(s: Seq<char>, i: int) -> ErrorModel {
    ErrorModel { line: line_of(s, i), col: col_of(s, i) }
}

pub proof fn lemma_line_col_bounds(s: Seq<char>, i: int)
    requires
        0 <= i,
    ensures
        1 <= line_of(s, i) <= 1 + i,
        0 <= col_of(s, i) <= i,
    decreases i,
{
    if i > 0 {
        lemma_line_col_bounds(s, i - 1);
    }
}

// ===== Scanning =====

/// First position at or after `i` whose character does not belong to class
/// `k` (or the end of input).
pub open spec fn scan_class(s: Seq<char>, i: int, k: CharClass) -> int
    decreases s.len() - i,
{
    if i < s.len() && class_matches(k, s[i]) {
        scan_class(s, i + 1, k)
    } else {
        i
    }
}

pub proof fn lemma_scan_class_range(s: Seq<char>, i: int, k: CharClass)
    requires
        0 <= i <= s.len(),
    ensures
        i <= scan_class(s, i, k) <= s.len(),
        scan_class(s, i, k) < s.len() ==> !class_matches(k, s[scan_class(s, i, k)]),
    decreases s.len() - i,
{
    if i < s.len() && class_matches(k, s[i]) {
        lemma_scan_class_range(s, i + 1, k);
    }
}

/// Position after skipping whitespace and `#`-to-newline comments, starting
/// at `i`; `in_comment` says whether `i` stands inside a comment.
pub open spec fn skip_trivia_from(s: Seq<char>, i: int, in_comment: bool) -> int
    decreases s.len() - i,
{
    if i >= s.len() {
        i
    } else if in_comment {
        skip_trivia_from(s, i + 1, s[i] != '\n')
    } else if spec_is_skippable(s[i]) {
        skip_trivia_from(s, i + 1, false)
    } else if s[i] == '#' {
        skip_trivia_from(s, i + 1, true)
    } else {
        i
    }
}

pub open spec fn skip_trivia(s: Seq<char>, i: int) -> int {
    skip_trivia_from(s, i, false)
}

pub proof fn lemma_skip_trivia_range(s: Seq<char>, i: int, in_comment: bool)
    requires
        0 <= i <= s.len(),
    ensures
        i <= skip_trivia_from(s, i, in_comment) <= s.len(),
    decreases s.len() - i,
{
    if i < s.len() {
        lemma_skip_trivia_range(s, i + 1, s[i] != '\n');
        lemma_skip_trivia_range(s, i + 1, false);
        lemma_skip_trivia_range(s, i + 1, true);
    }
}

/// Scanning a run of skippable characters does not change where trivia ends.
pub proof fn lemma_skip_trivia_ws(s: Seq<char>, i: int)
    requires
        0 <= i <= s.len(),
    ensures
        skip_trivia_from(s, i, false) == skip_trivia_from(
            s,
            scan_class(s, i, CharClass::Skippable),
            false,
        ),
    decreases s.len() - i,
{
    if i < s.len() && class_matches(CharClass::Skippable, s[i]) {
        lemma_skip_trivia_ws(s, i + 1);
    }
}

/// Inside a comment, trivia continues after the run of non-newline characters
/// and the newline that ends it, if any.
pub proof fn lemma_skip_trivia_comment(s: Seq<char>, i: int)
    requires
        0 <= i <= s.len(),
    ensures
        skip_trivia_from(s, i, true) == ({
            let e = scan_class(s, i, CharClass::NotNewline);
            if e < s.len() {
                skip_trivia_from(s, e + 1, false)
            } else {
                e
            }
        }),
    decreases s.len() - i,
{
    if i < s.len() && s[i] != '\n' {
        lemma_skip_trivia_comment(s, i + 1);
    }
}

/// End of a numeric literal: digits with at most one dot are consumed; a
/// second dot (or any other character) ends the number.
pub open spec fn scan_num_end(s: Seq<char>, i: int, dotted: bool) -> int
    decreases s.len() - i,
{
    if i < s.len() && spec_is_digit(s[i]) {
        scan_num_end(s, i + 1, dotted)
    } else if i < s.len() && s[i] == '.' && !dotted {
        scan_num_end(s, i + 1, true)
    } else {
        i
    }
}

pub proof fn lemma_scan_num_range(s: Seq<char>, i: int, dotted: bool)
    requires
        0 <= i <= s.len(),
    ensures
        i <= scan_num_end(s, i, dotted) <= s.len(),
    decreases s.len() - i,
{
    if i < s.len() && (spec_is_digit(s[i]) || (s[i] == '.' && !dotted)) {
        lemma_scan_num_range(s, i + 1, dotted);
        lemma_scan_num_range(s, i + 1, true);
    }
}

/// Body of a string literal, starting just after the opening quote: the
/// decoded text and the position after the closing quote. A backslash is
/// dropped and the character after it is taken verbatim. If the input ends
/// before an unescaped closing quote, the literal runs to the end of input
/// (the lenient behavior, kept on purpose and tested).
pub open spec fn scan_string(s: Seq<char>, i: int) -> (Seq<char>, int)
    decreases s.len() - i,
{
    if i >= s.len() {
        (Seq::empty(), i)
    } else if s[i] == '\\' {
        if i + 1 < s.len() {
            let (t, e) = scan_string(s, i + 2);
            (seq![s[i + 1]] + t, e)
        } else {
            (Seq::empty(), i + 1)
        }
    } else if s[i] == '"' {
        (Seq::empty(), i + 1)
    } else {
        let (t, e) = scan_string(s, i + 1);
        (seq![s[i]] + t, e)
    }
}

pub proof fn lemma_scan_string_range(s: Seq<char>, i: int)
    requires
        0 <= i <= s.len(),
    ensures
        i <= scan_string(s, i).1 <= s.len(),
    decreases s.len() - i,
{
    if i < s.len() {
        if s[i] == '\\' {
            if i + 1 < s.len() {
                lemma_scan_string_range(s, i + 2);
            }
        } else if s[i] != '"' {
            lemma_scan_string_range(s, i + 1);
        }
    }
}

// ===== Decimal values =====

/// Value of one decimal digit character.
pub open spec fn digit_val(c: char) -> int {
    c as u32 - '0' as u32
}

/// Value of a run of decimal digits.
pub open spec fn dec_val(t: Seq<char>) -> int
    decreases t.len(),
{
    if t.len() == 0 {
        0
    } else {
        dec_val(t.drop_last()) * 10 + digit_val(t.last())
    }
}

pub proof fn lemma_dec_val_nonneg(t: Seq<char>)
    requires
        forall|j: int| 0 <= j < t.len() ==> spec_is_digit(#[trigger] t[j]),
    ensures
        dec_val(t) >= 0,
    decreases t.len(),
{
    if t.len() > 0 {
        assert(forall|j: int| 0 <= j < t.drop_last().len() ==> spec_is_digit(
            #[trigger] t.drop_last()[j],
        ));
        lemma_dec_val_nonneg(t.drop_last());
    }
}

/// The value of a digit run only grows as digits are appended.
pub proof fn lemma_dec_val_prefix(t: Seq<char>, n: int)
    requires
        forall|j: int| 0 <= j < t.len() ==> spec_is_digit(#[trigger] t[j]),
        0 <= n <= t.len(),
    ensures
        dec_val(t) >= dec_val(t.take(n)),
    decreases t.len() - n,
{
    if n < t.len() {
        lemma_dec_val_prefix(t, n + 1);
        assert(t.take(n + 1).drop_last() =~= t.take(n));
        assert(t.take(n + 1).last() == t[n]);
        assert(forall|j: int| 0 <= j < t.take(n).len() ==> spec_is_digit(
            #[trigger] t.take(n)[j],
        ));
        lemma_dec_val_nonneg(t.take(n));
        assert(dec_val(t.take(n + 1)) == dec_val(t.take(n)) * 10 + digit_val(t[n]));
    } else {
        assert(t.take(n) =~= t);
    }
}

// ===== One tokenization step =====

/// Result of one tokenization step: the token produced (`None` on a lexing
/// failure) and the cursor position after the step.
pub struct LexStep {
    pub tok: Option<TokenModel>,
    pub end: int,
}

/// The whole tokenization rule: what the next unbuffered read at position `p`
/// of `s` produces, and where it leaves the cursor. An unrecognized character
/// and an integer literal that exceeds `i32::MAX` are the two lexing
/// failures; the error position is the `end` field.
pub open spec fn spec_next_token(s: Seq<char>, p: int) -> LexStep {
    let w = skip_trivia(s, p);
    if w >= s.len() {
        LexStep { tok: Some(TokenModel::EOF), end: w }
    } else {
        let c = s[w];
        if c == '"' {
            let (text, e) = scan_string(s, w + 1);
            LexStep { tok: Some(TokenModel::StringLiteral(text)), end: e }
        } else if spec_is_digit(c) {
            let e = scan_num_end(s, w, false);
            let text = s.subrange(w, e);
            if text.contains('.') {
                LexStep { tok: Some(TokenModel::FloatingPoint(text)), end: e }
            } else if dec_val(text) <= i32::MAX as int {
                LexStep { tok: Some(TokenModel::Integral(dec_val(text))), end: e }
            } else {
                LexStep { tok: None, end: e }
            }
        } else if spec_is_ident_start(c) {
            let e = scan_class(s, w, CharClass::IdentChar);
            let text = s.subrange(w, e);
            LexStep {
                tok: Some(
                    if spec_is_keyword(text) {
                        TokenModel::Keyword(text)
                    } else {
                        TokenModel::Variable(text)
                    },
                ),
                end: e,
            }
        } else if spec_is_delimiter(c) {
            LexStep { tok: Some(TokenModel::Delimiter(c)), end: w + 1 }
        } else if spec_is_op_char(c) {
            let e = scan_class(s, w, CharClass::OpChar);
            LexStep { tok: Some(TokenModel::Operator(s.subrange(w, e))), end: e }
        } else {
            LexStep { tok: None, end: w }
        }
    }
}

pub proof fn lemma_next_token_range(s: Seq<char>, p: int)
    requires
        0 <= p <= s.len(),
    ensures
        p <= spec_next_token(s, p).end <= s.len(),
        (spec_next_token(s, p).tok matches Some(t) && !(t is EOF)) ==> p < spec_next_token(
            s,
            p,
        ).end,
{
    lemma_skip_trivia_range(s, p, false);
    let w = skip_trivia(s, p);
    if w < s.len() {
        let c = s[w];
        if c == '"' {
            lemma_scan_string_range(s, w + 1);
        } else if spec_is_digit(c) {
            lemma_scan_num_range(s, w, false);
            lemma_scan_num_range(s, w + 1, false);
            assert(scan_num_end(s, w, false) == scan_num_end(s, w + 1, false));
        } else if spec_is_ident_start(c) {
            lemma_scan_class_range(s, w, CharClass::IdentChar);
            assert(scan_class(s, w, CharClass::IdentChar) >= w + 1);
        } else if spec_is_delimiter(c) {
        } else if spec_is_op_char(c) {
            lemma_scan_class_range(s, w, CharClass::OpChar);
            assert(scan_class(s, w, CharClass::OpChar) >= w + 1);
        }
    }
}

// ===== The lexer's model =====

/// Mathematical model of a [`Lexer`]: the input, the cursor, and the buffered
/// token, if any. Line and column are functions of `input` and `pos`
/// (`line_of`, `col_of`), so they are not part of the model.
pub struct LexerModel {
    pub input: Seq<char>,
    pub pos: int,
    pub peeked: Option<TokenModel>,
}

/// Whether the cursor stands at or past the end of input. A buffered token
/// may still be pending when this holds.
pub open spec fn lex_eof(l: LexerModel) -> bool {
    l.pos >= l.input.len()
}

/// Termination measure for parsing: characters left before the cursor, plus
/// one for a buffered token that is not end-of-input. Consuming any token
/// other than end-of-input strictly decreases it; peeking never increases it.
pub open spec fn lex_measure(l: LexerModel) -> int {
    l.input.len() - l.pos + if l.peeked matches Some(t) && !(t is EOF) {
        1int
    } else {
        0int
    }
}

/// What `get_token` returns and how it changes the model: a buffered token is
/// handed out first; otherwise one tokenization step runs at the cursor.
pub open spec fn spec_get_token(l: LexerModel) -> (Result<TokenModel, ErrorModel>, LexerModel) {
    match l.peeked {
        Some(t) => (Ok(t), LexerModel { peeked: None, ..l }),
        None => {
            let st = spec_next_token(l.input, l.pos);
            let l2 = LexerModel { input: l.input, pos: st.end, peeked: None };
            match st.tok {
                Some(t) => (Ok(t), l2),
                None => (Err(err_at(l.input, st.end)), l2),
            }
        },
    }
}

/// What `peek` returns and how it changes the model: like `spec_get_token`,
/// but a token read is buffered instead of consumed.
pub open spec fn spec_peek(l: LexerModel) -> (Result<TokenModel, ErrorModel>, LexerModel) {
    let (r, l2) = spec_get_token(l);
    match r {
        Ok(t) => (Ok(t), LexerModel { peeked: Some(t), ..l2 }),
        Err(e) => (Err(e), l2),
    }
}

/// Peeking is idempotent: after one successful peek, peeking again returns
/// the same token and leaves the whole lexer state — cursor, position
/// counters, buffered token, hence also end-of-input status — unchanged, so
/// any number of further peeks do too.
pub proof fn lemma_peek_idempotent(l: LexerModel)
    ensures
        spec_peek(l).0 is Ok ==> spec_peek(spec_peek(l).1) == (
            spec_peek(l).0,
            spec_peek(l).1,
        ),
{
}


// ===== The lexer =====

/// Converts a character sequence into tokens on demand. Owns the input for
/// the session; tracks the cursor and the line and column counters; holds at
/// most one buffered (peeked) token.
pub struct Lexer {
    input: Vec<char>,
    ind: usize,
    line: u32,
    col: u32,
    peeked: Option<Token>,
}

impl View for Lexer {
    type V = LexerModel;

    closed spec fn view(&self) -> LexerModel {
        LexerModel {
            input: self.input@,
            pos: self.ind as int,
            peeked: match self.peeked {
                Some(t) => Some(t@),
                None => None,
            },
        }
    }
}

impl Lexer {
    /// Internal consistency: the cursor is inside the input, the input is
    /// short enough that the 32-bit position counters cannot overflow, and
    /// the line and column counters are exactly the functions of input and
    /// cursor that the model prescribes.
    pub open spec fn wf(self) -> bool {
        &&& 0 <= self@.pos <= self@.input.len()
        &&& self@.input.len() + 2 < u32::MAX as int
        &&& self.counters_ok()
    }

    /// The line and column counters agree with `line_of` and `col_of`.
    pub closed spec fn counters_ok(self) -> bool {
        &&& self.line as int == line_of(self@.input, self@.pos)
        &&& self.col as int == col_of(self@.input, self@.pos)
    }

    /// A lexer over `input`, at line 1, column 0, with nothing buffered.
    /// The length bound keeps the 32-bit line and column counters from
    /// overflowing; it is a machine limit, not a rule of the language.
    pub fn new(input: &str) -> (l: Lexer)
        requires
            input@.len() + 2 < u32::MAX as int,
        ensures
            l.wf(),
            l@ == (LexerModel { input: input@, pos: 0, peeked: None }),
    {
        let n = input.unicode_len();
        let mut buf: Vec<char> = Vec::new();
        let mut i: usize = 0;
        while i < n
            invariant
                n == input@.len(),
                i <= n,
                buf@ == input@.subrange(0, i as int),
            decreases n - i,
        {
            let c = input.get_char(i);
            buf.push(c);
            proof {
                assert(buf@ =~= input@.subrange(0, i + 1 as int));
            }
            i = i + 1;
        }
        proof {
            assert(buf@ =~= input@);
        }
        Lexer { input: buf, ind: 0, line: 1, col: 0, peeked: None }
    }

    /// Consumes one character, updating the position counters: a newline
    /// moves to the next line and resets the column.
    fn next_char(&mut self) -> (c: char)
        requires
            old(self).wf(),
            old(self)@.pos < old(self)@.input.len(),
        ensures
            final(self).wf(),
            final(self)@.input == old(self)@.input,
            final(self)@.peeked == old(self)@.peeked,
            final(self)@.pos == old(self)@.pos + 1,
            c == old(self)@.input[old(self)@.pos],
    {
        proof {
            lemma_line_col_bounds(self@.input, self@.pos);
        }
        let ch = self.input[self.ind];
        self.ind = self.ind + 1;
        if ch == '\n' {
            self.line = self.line + 1;
            self.col = 0;
        } else {
            self.col = self.col + 1;
        }
        ch
    }

    /// Whether the cursor is at or past the end of input. A peeked token may
    /// still be buffered when this returns true.
    pub fn eof(&self) -> (r: bool)
        ensures
            r == lex_eof(self@),
    {
        self.ind >= self.input.len()
    }

    /// An error carrying `msg` and the lexer's current line and column.
    pub fn get_error(&self, msg: String) -> (e: Error)
        requires
            self.wf(),
        ensures
            e@ == err_at(self@.input, self@.pos),
            e.msg@ == msg@,
    {
        proof {
            lemma_line_col_bounds(self@.input, self@.pos);
        }
        Error { msg, line: self.line, col: self.col }
    }

    /// Consumes the maximal run of characters of class `k` at the cursor and
    /// returns it. The buffered token is untouched.
    fn read_while(&mut self, k: CharClass) -> (out: String)
        requires
            old(self).wf(),
        ensures
            final(self).wf(),
            final(self)@.input == old(self)@.input,
            final(self)@.peeked == old(self)@.peeked,
            final(self)@.pos == scan_class(old(self)@.input, old(self)@.pos, k),
            out@ == old(self)@.input.subrange(old(self)@.pos, final(self)@.pos),
    {
        let ghost s = self@.input;
        let ghost p0 = self@.pos;
        let mut out = String::new();
        loop
            invariant
                self.wf(),
                self@.input == s,
                self@.peeked == old(self)@.peeked,
                0 <= p0 <= self@.pos <= s.len(),
                scan_class(s, p0, k) == scan_class(s, self@.pos, k),
                out@ == s.subrange(p0, self@.pos),
            ensures
                self.wf(),
                self@.input == s,
                self@.peeked == old(self)@.peeked,
                p0 <= self@.pos,
                self@.pos == scan_class(s, p0, k),
                out@ == s.subrange(p0, self@.pos),
            decreases s.len() - self@.pos,
        {
            if self.eof() {
                break;
            }
            let c = self.input[self.ind];
            if !class_check(k, c) {
                break;
            }
            let ghost q = self@.pos;
            let ghost prev = out@;
            let c2 = self.next_char();
            out.push(c2);
            proof {
                assert(out@ =~= s.subrange(p0, q + 1));
            }
        }
        out
    }

    /// Reads an identifier at the cursor and classifies it as a keyword or a
    /// variable name.
    fn read_identifier(&mut self) -> (r: Result<Token, Error>)
        requires
            old(self).wf(),
            old(self)@.peeked is None,
            old(self)@.pos < old(self)@.input.len(),
            spec_is_ident_start(old(self)@.input[old(self)@.pos]),
        ensures
            final(self).wf(),
            final(self)@.input == old(self)@.input,
            final(self)@.peeked is None,
            final(self)@.pos == scan_class(old(self)@.input, old(self)@.pos, CharClass::IdentChar),
            ({
                let text = old(self)@.input.subrange(old(self)@.pos, final(self)@.pos);
                r matches Ok(t) && t@ == (if spec_is_keyword(text) {
                    TokenModel::Keyword(text)
                } else {
                    TokenModel::Variable(text)
                })
            }),
    {
        let id = self.read_while(CharClass::IdentChar);
        if is_keyword(&id) {
            Ok(Token::Keyword(id))
        } else {
            Ok(Token::Variable(id))
        }
    }

    /// Reads a maximal run of operator characters as one operator token.
    fn read_operator(&mut self) -> (r: Result<Token, Error>)
        requires
            old(self).wf(),
            old(self)@.peeked is None,
            old(self)@.pos < old(self)@.input.len(),
            spec_is_op_char(old(self)@.input[old(self)@.pos]),
        ensures
            final(self).wf(),
            final(self)@.input == old(self)@.input,
            final(self)@.peeked is None,
            final(self)@.pos == scan_class(old(self)@.input, old(self)@.pos, CharClass::OpChar),
            r matches Ok(t) && t@ == TokenModel::Operator(
                old(self)@.input.subrange(old(self)@.pos, final(self)@.pos),
            ),
    {
        let op = self.read_while(CharClass::OpChar);
        Ok(Token::Operator(op))
    }

    /// Reads a string literal at the cursor (which must stand on the opening
    /// quote). A backslash escapes the character after it; if no unescaped
    /// closing quote follows, the literal runs to the end of input.
    fn read_string(&mut self) -> (r: Result<Token, Error>)
        requires
            old(self).wf(),
            old(self)@.peeked is None,
            old(self)@.pos < old(self)@.input.len(),
            old(self)@.input[old(self)@.pos] == '"',
        ensures
            final(self).wf(),
            final(self)@.input == old(self)@.input,
            final(self)@.peeked is None,
            final(self)@.pos == scan_string(old(self)@.input, old(self)@.pos + 1).1,
            r matches Ok(t) && t@ == TokenModel::StringLiteral(
                scan_string(old(self)@.input, old(self)@.pos + 1).0,
            ),
    {
        let ghost s = self@.input;
        let _open = self.next_char();
        let ghost b0 = self@.pos;
        let mut out = String::new();
        loop
            invariant_except_break
                scan_string(s, b0).0 == out@ + scan_string(s, self@.pos).0,
                scan_string(s, b0).1 == scan_string(s, self@.pos).1,
            invariant
                self.wf(),
                self@.input == s,
                self@.peeked == old(self)@.peeked,
                0 <= b0 <= self@.pos <= s.len(),
            ensures
                self.wf(),
                self@.input == s,
                self@.peeked == old(self)@.peeked,
                self@.pos == scan_string(s, b0).1,
                out@ == scan_string(s, b0).0,
            decreases s.len() - self@.pos,
        {
            if self.eof() {
                proof {
                    assert(out@ + scan_string(s, self@.pos).0 =~= out@);
                }
                break;
            }
            let c = self.input[self.ind];
            if c == '\\' {
                let ghost q = self@.pos;
                let _bs = self.next_char();
                if self.eof() {
                    proof {
                        assert(out@ + scan_string(s, q).0 =~= out@);
                    }
                    break;
                }
                let c2 = self.next_char();
                out.push(c2);
                proof {
                    let ghost tail = scan_string(s, q + 2).0;
                    assert(scan_string(s, q).0 == seq![s[q + 1]] + tail);
                    assert((out@ + tail) =~= (out@.drop_last() + (seq![c2] + tail)));
                }
            } else if c == '"' {
                let _quote = self.next_char();
                proof {
                    assert(out@ + scan_string(s, self@.pos - 1).0 =~= out@);
                }
                break;
            } else {
                let ghost q = self@.pos;
                let c2 = self.next_char();
                out.push(c2);
                proof {
                    let ghost tail = scan_string(s, q + 1).0;
                    assert(scan_string(s, q).0 == seq![s[q]] + tail);
                    assert((out@ + tail) =~= (out@.drop_last() + (seq![c2] + tail)));
                }
            }
        }
        Ok(Token::StringLiteral(out))
    }

    /// Reads a numeric literal at the cursor: digits with at most one dot. A
    /// dotted literal becomes a floating-point token holding its text; an
    /// undotted one is parsed as a 32-bit signed integer, and a value beyond
    /// that range is a lexing failure.
    fn read_number(&mut self) -> (r: Result<Token, Error>)
        requires
            old(self).wf(),
            old(self)@.peeked is None,
            old(self)@.pos < old(self)@.input.len(),
            spec_is_digit(old(self)@.input[old(self)@.pos]),
        ensures
            final(self).wf(),
            final(self)@.input == old(self)@.input,
            final(self)@.peeked is None,
            final(self)@.pos == scan_num_end(old(self)@.input, old(self)@.pos, false),
            ({
                let text = old(self)@.input.subrange(old(self)@.pos, final(self)@.pos);
                if text.contains('.') {
                    r matches Ok(t) && t@ == TokenModel::FloatingPoint(text)
                } else if dec_val(text) <= i32::MAX as int {
                    r matches Ok(t) && t@ == TokenModel::Integral(dec_val(text))
                } else {
                    r matches Err(e) && e@ == err_at(old(self)@.input, final(self)@.pos)
                }
            }),
    {
        let ghost s = self@.input;
        let ghost p0 = self@.pos;
        let mut digits = String::new();
        let mut dotted = false;
        loop
            invariant
                self.wf(),
                self@.input == s,
                self@.peeked == old(self)@.peeked,
                0 <= p0 <= self@.pos <= s.len(),
                digits@ == s.subrange(p0, self@.pos),
                dotted == digits@.contains('.'),
                forall|j: int| p0 <= j < self@.pos ==> spec_is_digit(#[trigger] s[j]) || s[j]
                    == '.',
                scan_num_end(s, p0, false) == scan_num_end(s, self@.pos, dotted),
            ensures
                self.wf(),
                self@.input == s,
                self@.peeked == old(self)@.peeked,
                0 <= p0 <= self@.pos,
                self@.pos == scan_num_end(s, p0, false),
                digits@ == s.subrange(p0, self@.pos),
                dotted == digits@.contains('.'),
                forall|j: int| p0 <= j < self@.pos ==> spec_is_digit(#[trigger] s[j]) || s[j]
                    == '.',
            decreases s.len() - self@.pos,
        {
            if self.eof() {
                break;
            }
            let c = self.input[self.ind];
            let take_digit = is_digit_char(c);
            let take_dot = c == '.' && !dotted;
            if !take_digit && !take_dot {
                break;
            }
            let ghost q = self@.pos;
            let ghost prev = digits@;
            let c2 = self.next_char();
            digits.push(c2);
            if take_dot {
                dotted = true;
            }
            proof {
                assert(digits@ =~= s.subrange(p0, q + 1));
                if take_dot {
                    assert(digits@[digits@.len() - 1] == '.');
                    assert(digits@.contains('.'));
                } else {
                    assert(c2 != '.');
                    assert(digits@.contains('.') == prev.contains('.')) by {
                        if digits@.contains('.') {
                            let w = choose|w: int| 0 <= w < digits@.len() && digits@[w] == '.';
                            assert(w < prev.len());
                            assert(prev[w] == '.');
                            assert(prev.contains('.'));
                        }
                        if prev.contains('.') {
                            let w = choose|w: int| 0 <= w < prev.len() && prev[w] == '.';
                            assert(digits@[w] == '.');
                            assert(digits@.contains('.'));
                        }
                    }
                }
            }
        }
        if dotted {
            Ok(Token::FloatingPoint(digits))
        } else {
            proof {
                assert forall|j: int| 0 <= j < digits@.len() implies spec_is_digit(
                    #[trigger] digits@[j],
                ) by {
                    assert(digits@[j] == s[p0 + j]);
                    assert(spec_is_digit(s[p0 + j]) || s[p0 + j] == '.');
                    if digits@[j] == '.' {
                        assert(digits@.contains('.'));
                    }
                }
            }
            match parse_decimal(&digits) {
                Some(v) => Ok(Token::Integral(v)),
                None => {
                    let m = String::from_str(
                        "Error parsing integer: the literal exceeds the 32-bit integer range",
                    );
                    Err(self.get_error(m))
                },
            }
        }
    }
}

/// Parses a run of decimal digits as an `i32`; `None` when the value exceeds
/// `i32::MAX`.
fn parse_decimal(digits: &String) -> (r: Option<i32>)
    requires
        forall|j: int| 0 <= j < digits@.len() ==> spec_is_digit(#[trigger] digits@[j]),
    ensures
        match r {
            Some(v) => v as int == dec_val(digits@) && dec_val(digits@) <= i32::MAX as int,
            None => dec_val(digits@) > i32::MAX as int,
        },
{
    let st = digits.as_str();
    let n = st.unicode_len();
    let mut acc: u64 = 0;
    let mut i: usize = 0;
    while i < n
        invariant
            st@ == digits@,
            n == digits@.len(),
            0 <= i <= n,
            forall|j: int| 0 <= j < digits@.len() ==> spec_is_digit(#[trigger] digits@[j]),
            acc as int == dec_val(digits@.take(i as int)),
            acc <= i32::MAX as u64,
        decreases n - i,
    {
        let c = st.get_char(i);
        assert(spec_is_digit(c));
        let d: u64 = ((c as u32) - ('0' as u32)) as u64;
        let next: u64 = acc * 10 + d;
        proof {
            assert(digits@.take(i + 1 as int).drop_last() =~= digits@.take(i as int));
            assert(digits@.take(i + 1 as int).last() == digits@[i as int]);
            assert(dec_val(digits@.take(i + 1 as int)) == dec_val(digits@.take(i as int)) * 10
                + digit_val(digits@[i as int]));
        }
        if next > 2147483647u64 {
            proof {
                lemma_dec_val_prefix(digits@, i + 1 as int);
            }
            return None;
        }
        acc = next;
        i = i + 1;
    }
    proof {
        assert(digits@.take(n as int) =~= digits@);
    }
    Some(acc as i32)
}

impl Lexer {
    /// Returns the next token and advances past it, handing out the buffered
    /// token first if one is pending. Follows `spec_get_token` exactly: the
    /// two lexing failures are an unrecognized character and an integer
    /// literal beyond the 32-bit range, each reported at the model's
    /// position. End of input yields `Token::EOF`, stably on repeated calls.
    pub fn get_token(&mut self) -> (r: Result<Token, Error>)
        requires
            old(self).wf(),
        ensures
            final(self).wf(),
            ({
                let (r2, l2) = spec_get_token(old(self)@);
                final(self)@ == l2 && match (r, r2) {
                    (Ok(t), Ok(t2)) => t@ == t2,
                    (Err(e), Err(e2)) => e@ == e2,
                    _ => false,
                }
            }),
            lex_measure(final(self)@) <= lex_measure(old(self)@),
            (r matches Ok(t) && !(t@ is EOF)) ==> lex_measure(final(self)@) < lex_measure(
                old(self)@,
            ),
    {
        if let Some(tok) = self.peeked.take() {
            return Ok(tok);
        }
        let ghost s = self@.input;
        let ghost p0 = self@.pos;
        proof {
            lemma_next_token_range(s, p0);
        }
        // Skip whitespace and `#`-to-newline comments.
        loop
            invariant
                self.wf(),
                self@.input == s,
                self@.peeked is None,
                0 <= p0 <= self@.pos <= s.len(),
                skip_trivia(s, p0) == skip_trivia_from(s, self@.pos, false),
            ensures
                self.wf(),
                self@.input == s,
                self@.peeked is None,
                0 <= p0 <= self@.pos <= s.len(),
                self@.pos == skip_trivia(s, p0),
                self@.pos < s.len() ==> !spec_is_skippable(s[self@.pos]) && s[self@.pos] != '#',
            decreases s.len() - self@.pos,
        {
            let ghost q0 = self@.pos;
            let _ws = self.read_while(CharClass::Skippable);
            proof {
                lemma_skip_trivia_ws(s, q0);
                lemma_scan_class_range(s, q0, CharClass::Skippable);
            }
            if self.eof() {
                break;
            }
            let c = self.input[self.ind];
            if c != '#' {
                break;
            }
            let ghost q1 = self@.pos;
            let _comment = self.read_while(CharClass::NotNewline);
            proof {
                lemma_skip_trivia_comment(s, q1 + 1);
                lemma_scan_class_range(s, q1 + 1, CharClass::NotNewline);
                assert(scan_class(s, q1, CharClass::NotNewline) == scan_class(
                    s,
                    q1 + 1,
                    CharClass::NotNewline,
                ));
            }
            if !self.eof() {
                let _newline = self.next_char();
            }
        }
        if self.eof() {
            return Ok(Token::EOF);
        }
        let c = self.input[self.ind];
        if c == '"' {
            self.read_string()
        } else if is_digit_char(c) {
            self.read_number()
        } else if is_ident_start_char(c) {
            self.read_identifier()
        } else if is_delimiter_char(c) {
            let d = self.next_char();
            Ok(Token::Delimiter(d))
        } else if class_check(CharClass::OpChar, c) {
            self.read_operator()
        } else {
            let mut m = String::from_str("Error reading character ");
            m.push(c);
            Err(self.get_error(m))
        }
    }

    /// Returns the next token without consuming it, buffering it if it is not
    /// already buffered. Idempotent: while the buffered token is in place,
    /// every further peek returns the same token and changes nothing (see
    /// `lemma_peek_idempotent`). Follows `spec_peek` exactly.
    pub fn peek(&mut self) -> (r: Result<Token, Error>)
        requires
            old(self).wf(),
        ensures
            final(self).wf(),
            ({
                let (r2, l2) = spec_peek(old(self)@);
                final(self)@ == l2 && match (r, r2) {
                    (Ok(t), Ok(t2)) => t@ == t2,
                    (Err(e), Err(e2)) => e@ == e2,
                    _ => false,
                }
            }),
            lex_measure(final(self)@) <= lex_measure(old(self)@),
    {
        if self.peeked.is_none() {
            let t = match self.get_token() {
                Ok(t) => t,
                Err(e) => {
                    return Err(e);
                },
            };
            self.peeked = Some(t);
        }
        match &self.peeked {
            Some(t) => Ok(t.duplicate()),
            None => {
                proof {
                    assert(false);
                }
                let m = String::new();
                Err(self.get_error(m))
            },
        }
    }
}

} // verus!

