//! Haskell syntax highlighting for the input line and for rendered values.
use vstd::prelude::*;
use nu_ansi_term::Style;

use crate::style::{
    dim_style, ghci_cmd_style, keyword_style, number_style, operator_style, painted, plain,
    string_lit_style, type_con_style,
};
use crate::text::{
    eq_str, is_alnum, is_alnum_exec, is_alpha, is_ascii_ws, is_ascii_ws_exec, is_digit, is_digit_exec,
    is_upper, slice, chars_of, push_char, push_chars, split_char, split_char_v, starts_with,
    starts_with_str, string_of, trim, trim_v, views, concat, join,
};

verus! {

/// Lexical class of a highlighted span.
#[derive(Debug, Clone, Copy, PartialEq, Eq)]
pub enum Token {
    Keyword,
    /// Capitalized identifier (type constructor / module).
    TypeCon,
    /// Lowercase identifier, or any character no other class takes.
    Ident,
    StringLit,
    CharLit,
    Number,
    Comment,
    Operator,
    /// One of `()[]{}`.
    Paren,
    Whitespace,
    /// `:type`, `:info`, ... at the start of the input.
    GhciCmd,
}

/// A token: the characters `start..end` of the input, of class `kind`.
#[derive(Debug, Clone, Copy)]
pub struct Span {
    pub start: usize,
    pub end: usize,
    pub kind: Token,
}

/// Character classes that the tokenizer scans runs of.
#[derive(Clone, Copy)]
pub enum Class {
    AsciiWs,
    NotNewline,
    NotAsciiWs,
    DigitOrUnderscore,
    Digit,
    HexDigit,
    IdentChar,
    OperatorChar,
}

pub open spec fn is_operator_char(c: char) -> bool {
    c == '!' || c == '#' || c == '$' || c == '%' || c == '&' || c == '*' || c == '+' || c == '.'
        || c == '/' || c == '<' || c == '=' || c == '>' || c == '?' || c == '@' || c == '\\' || c
        == '^' || c == '|' || c == '-' || c == '~' || c == ':' || c == ','
}

pub open spec fn is_hex(c: char) -> bool {
    is_digit(c) || ('a' <= c && c <= 'f') || ('A' <= c && c <= 'F')
}

pub open spec fn in_class(c: char, k: Class) -> bool {
    match k {
        Class::AsciiWs => is_ascii_ws(c),
        Class::NotNewline => c != '\n',
        Class::NotAsciiWs => !is_ascii_ws(c),
        Class::DigitOrUnderscore => is_digit(c) || c == '_',
        Class::Digit => is_digit(c),
        Class::HexDigit => is_hex(c),
        Class::IdentChar => is_alnum(c) || c == '_' || c == '\'',
        Class::OperatorChar => is_operator_char(c),
    }
}

/// End of the run of class `k` that starts at `i`.
pub open spec fn scan(s: Seq<char>, i: int, k: Class) -> int
    decreases s.len() - i,
{
    if 0 <= i < s.len() && in_class(s[i], k) {
        scan(s, i + 1, k)
    } else {
        i
    }
}

/// End of a `{- ... -}` comment whose scan is at `i` with `depth` open.
pub open spec fn block_comment_end(s: Seq<char>, i: int, depth: int) -> int
    decreases s.len() - i,
{
    if i < 0 || i >= s.len() || depth <= 0 {
        i
    } else if s[i] == '{' && i + 1 < s.len() && s[i + 1] == '-' {
        block_comment_end(s, i + 2, depth + 1)
    } else if s[i] == '-' && i + 1 < s.len() && s[i + 1] == '}' {
        block_comment_end(s, i + 2, depth - 1)
    } else {
        block_comment_end(s, i + 1, depth)
    }
}

/// Position of the closing quote of a string literal whose body scan is at
/// `i` (or the end of input): backslash escapes the next character.
pub open spec fn string_body_end(s: Seq<char>, i: int) -> int
    decreases s.len() - i,
{
    if i < 0 || i >= s.len() || s[i] == '"' {
        i
    } else if s[i] == '\\' && i + 1 < s.len() {
        string_body_end(s, i + 2)
    } else {
        string_body_end(s, i + 1)
    }
}

pub open spec fn is_ascii_char(c: char) -> bool {
    (c as u32) < 0x80
}

/// End of a character literal starting at `i` (which holds `'`), if the
/// characters there form one. The literal is matched byte-wise on the UTF-8
/// text, so the quoted character must be a one-byte (ASCII) character.
pub open spec fn char_lit_end(s: Seq<char>, i: int) -> Option<int> {
    if !(i + 1 < s.len() && s[i + 1] != ' ') {
        None
    } else if s[i + 1] == '\\' && i + 2 < s.len() {
        if is_ascii_char(s[i + 2]) && i + 3 < s.len() && s[i + 3] == '\'' {
            Some(i + 4)
        } else {
            None
        }
    } else if is_ascii_char(s[i + 1]) && i + 2 < s.len() && s[i + 2] == '\'' {
        Some(i + 3)
    } else {
        None
    }
}

/// End of a number literal starting at `i` (which holds a digit).
pub open spec fn number_end(s: Seq<char>, i: int) -> int {
    if s[i] == '0' && i + 1 < s.len() && (s[i + 1] == 'x' || s[i + 1] == 'X') {
        scan(s, i + 2, Class::HexDigit)
    } else {
        let a = scan(s, i, Class::DigitOrUnderscore);
        let b = if a < s.len() && s[a] == '.' && a + 1 < s.len() && is_digit(s[a + 1]) {
            scan(s, a + 1, Class::Digit)
        } else {
            a
        };
        if b < s.len() && (s[b] == 'e' || s[b] == 'E') {
            let c = if b + 1 < s.len() && (s[b + 1] == '+' || s[b + 1] == '-') {
                b + 2
            } else {
                b + 1
            };
            scan(s, c, Class::Digit)
        } else {
            b
        }
    }
}

pub open spec fn is_keyword(w: Seq<char>) -> bool {
    w == "case"@ || w == "class"@ || w == "data"@ || w == "default"@ || w == "deriving"@ || w
        == "do"@ || w == "else"@ || w == "forall"@ || w == "foreign"@ || w == "if"@ || w
        == "import"@ || w == "in"@ || w == "infix"@ || w == "infixl"@ || w == "infixr"@ || w
        == "instance"@ || w == "let"@ || w == "module"@ || w == "newtype"@ || w == "of"@ || w
        == "qualified"@ || w == "then"@ || w == "type"@ || w == "where"@
}

pub open spec fn is_paren(c: char) -> bool {
    c == '(' || c == ')' || c == '[' || c == ']' || c == '{' || c == '}'
}

/// The token that starts at `i`: its end and its class. `at_start` says
/// whether every token before it is whitespace.
pub open spec fn next_token(s: Seq<char>, i: int, at_start: bool) -> (int, Token) {
    let c = s[i];
    if is_ascii_ws(c) {
        (scan(s, i, Class::AsciiWs), Token::Whitespace)
    } else if c == '-' && i + 1 < s.len() && s[i + 1] == '-' {
        (scan(s, i, Class::NotNewline), Token::Comment)
    } else if c == '{' && i + 1 < s.len() && s[i + 1] == '-' {
        (block_comment_end(s, i + 2, 1), Token::Comment)
    } else if c == '"' {
        let e = string_body_end(s, i + 1);
        (if e < s.len() { e + 1 } else { e }, Token::StringLit)
    } else if c == '\'' && char_lit_end(s, i) is Some {
        (char_lit_end(s, i)->0, Token::CharLit)
    } else if c == ':' && at_start {
        (scan(s, i, Class::NotAsciiWs), Token::GhciCmd)
    } else if is_digit(c) {
        (number_end(s, i), Token::Number)
    } else if is_alpha(c) || c == '_' {
        let e = scan(s, i, Class::IdentChar);
        let w = s.subrange(i, e);
        (e, if is_keyword(w) {
            Token::Keyword
        } else if is_upper(c) {
            Token::TypeCon
        } else {
            Token::Ident
        })
    } else if is_paren(c) {
        (i + 1, Token::Paren)
    } else if is_operator_char(c) {
        (scan(s, i, Class::OperatorChar), Token::Operator)
    } else {
        (i + 1, Token::Ident)
    }
}

pub proof fn lemma_scan_bounds(s: Seq<char>, i: int, k: Class)
    requires
        0 <= i <= s.len(),
    ensures
        i <= scan(s, i, k) <= s.len(),
    decreases s.len() - i,
{
    if i < s.len() && in_class(s[i], k) {
        lemma_scan_bounds(s, i + 1, k);
    }
}

pub proof fn lemma_block_comment_bounds(s: Seq<char>, i: int, depth: int)
    requires
        0 <= i <= s.len(),
    ensures
        i <= block_comment_end(s, i, depth) <= s.len(),
    decreases s.len() - i,
{
    if i < s.len() && depth > 0 {
        if s[i] == '{' && i + 1 < s.len() && s[i + 1] == '-' {
            lemma_block_comment_bounds(s, i + 2, depth + 1);
        } else if s[i] == '-' && i + 1 < s.len() && s[i + 1] == '}' {
            lemma_block_comment_bounds(s, i + 2, depth - 1);
        } else {
            lemma_block_comment_bounds(s, i + 1, depth);
        }
    }
}

pub proof fn lemma_string_body_bounds(s: Seq<char>, i: int)
    requires
        0 <= i <= s.len(),
    ensures
        i <= string_body_end(s, i) <= s.len(),
    decreases s.len() - i,
{
    if i < s.len() && s[i] != '"' {
        if s[i] == '\\' && i + 1 < s.len() {
            lemma_string_body_bounds(s, i + 2);
        } else {
            lemma_string_body_bounds(s, i + 1);
        }
    }
}

/// Every token is non-empty and ends inside the input.
pub proof fn lemma_next_token_bounds(s: Seq<char>, i: int, at_start: bool)
    requires
        0 <= i < s.len(),
    ensures
        i < next_token(s, i, at_start).0 <= s.len(),
{
    let c = s[i];
    lemma_scan_bounds(s, i + 1, Class::AsciiWs);
    lemma_scan_bounds(s, i + 1, Class::NotNewline);
    lemma_scan_bounds(s, i + 1, Class::NotAsciiWs);
    lemma_scan_bounds(s, i + 1, Class::IdentChar);
    lemma_scan_bounds(s, i + 1, Class::OperatorChar);
    if c == '{' && i + 1 < s.len() && s[i + 1] == '-' {
        lemma_block_comment_bounds(s, i + 2, 1);
    }
    lemma_string_body_bounds(s, i + 1);
    if is_digit(c) {
        lemma_number_bounds(s, i);
    }
}

pub proof fn lemma_number_bounds(s: Seq<char>, i: int)
    requires
        0 <= i < s.len(),
        is_digit(s[i]),
    ensures
        i < number_end(s, i) <= s.len(),
{
    if s[i] == '0' && i + 1 < s.len() && (s[i + 1] == 'x' || s[i + 1] == 'X') {
        lemma_scan_bounds(s, i + 2, Class::HexDigit);
    } else {
        lemma_scan_bounds(s, i + 1, Class::DigitOrUnderscore);
        let a = scan(s, i, Class::DigitOrUnderscore);
        if a < s.len() && s[a] == '.' && a + 1 < s.len() && is_digit(s[a + 1]) {
            lemma_scan_bounds(s, a + 1, Class::Digit);
        }
        let b = if a < s.len() && s[a] == '.' && a + 1 < s.len() && is_digit(s[a + 1]) {
            scan(s, a + 1, Class::Digit)
        } else {
            a
        };
        if b < s.len() && (s[b] == 'e' || s[b] == 'E') {
            let c = if b + 1 < s.len() && (s[b + 1] == '+' || s[b + 1] == '-') {
                b + 2
            } else {
                b + 1
            };
            lemma_scan_bounds(s, c, Class::Digit);
        }
    }
}

/// The tokens of `s` from position `i` on.
pub open spec fn tokens_from(s: Seq<char>, i: int, at_start: bool) -> Seq<Span>
    decreases s.len() - i,
{
    if i < 0 || i >= s.len() {
        seq![]
    } else {
        proof {
            lemma_next_token_bounds(s, i, at_start);
        }
        let (e, k) = next_token(s, i, at_start);
        seq![Span { start: i as usize, end: e as usize, kind: k }] + tokens_from(
            s,
            e,
            at_start && k == Token::Whitespace,
        )
    }
}

/// The tokens of a line.
pub open spec fn tokens(s: Seq<char>) -> Seq<Span> {
    tokens_from(s, 0, true)
}

/// The text a token covers.
pub open spec fn span_text(s: Seq<char>, sp: Span) -> Seq<char> {
    s.subrange(sp.start as int, sp.end as int)
}

/// The style of a token class.
pub open spec fn token_style_spec(k: Token) -> Style {
    match k {
        Token::Keyword => keyword_style(),
        Token::TypeCon => type_con_style(),
        Token::StringLit | Token::CharLit => string_lit_style(),
        Token::Number => number_style(),
        Token::Comment => dim_style(),
        Token::Operator => operator_style(),
        Token::GhciCmd => ghci_cmd_style(),
        Token::Paren | Token::Ident | Token::Whitespace => plain(),
    }
}

pub fn is_operator_char_exec(c: char) -> (r: bool)
    ensures
        r == is_operator_char(c),
{
    c == '!' || c == '#' || c == '$' || c == '%' || c == '&' || c == '*' || c == '+' || c == '.'
        || c == '/' || c == '<' || c == '=' || c == '>' || c == '?' || c == '@' || c == '\\' || c
        == '^' || c == '|' || c == '-' || c == '~' || c == ':' || c == ','
}

fn in_class_exec(c: char, k: Class) -> (r: bool)
    ensures
        r == in_class(c, k),
{
    match k {
        Class::AsciiWs => is_ascii_ws_exec(c),
        Class::NotNewline => c != '\n',
        Class::NotAsciiWs => !is_ascii_ws_exec(c),
        Class::DigitOrUnderscore => is_digit_exec(c) || c == '_',
        Class::Digit => is_digit_exec(c),
        Class::HexDigit => is_digit_exec(c) || ('a' <= c && c <= 'f') || ('A' <= c && c <= 'F'),
        Class::IdentChar => is_alnum_exec(c) || c == '_' || c == '\'',
        Class::OperatorChar => is_operator_char_exec(c),
    }
}

fn scan_exec(s: &Vec<char>, i: usize, k: Class) -> (r: usize)
    requires
        i <= s@.len(),
    ensures
        r == scan(s@, i as int, k),
{
    let mut j = i;
    while j < s.len() && in_class_exec(s[j], k)
        invariant
            i <= j <= s@.len(),
            scan(s@, j as int, k) == scan(s@, i as int, k),
        decreases s.len() - j,
    {
        j = j + 1;
    }
    j
}

fn block_comment_end_exec(s: &Vec<char>, i: usize) -> (r: usize)
    requires
        i <= s@.len(),
    ensures
        r == block_comment_end(s@, i as int, 1),
{
    let mut j = i;
    let mut depth: usize = 1;
    while j < s.len() && depth > 0
        invariant
            i <= j <= s@.len(),
            depth <= j + 1,
            block_comment_end(s@, j as int, depth as int) == block_comment_end(s@, i as int, 1),
        decreases s.len() - j,
    {
        if s[j] == '{' && j + 1 < s.len() && s[j + 1] == '-' {
            depth = depth + 1;
            j = j + 2;
        } else if s[j] == '-' && j + 1 < s.len() && s[j + 1] == '}' {
            depth = depth - 1;
            j = j + 2;
        } else {
            j = j + 1;
        }
    }
    j
}

fn string_body_end_exec(s: &Vec<char>, i: usize) -> (r: usize)
    requires
        i <= s@.len(),
    ensures
        r == string_body_end(s@, i as int),
{
    let mut j = i;
    while j < s.len() && s[j] != '"'
        invariant
            i <= j <= s@.len(),
            string_body_end(s@, j as int) == string_body_end(s@, i as int),
        decreases s.len() - j,
    {
        if s[j] == '\\' && j + 1 < s.len() {
            j = j + 2;
        } else {
            j = j + 1;
        }
    }
    j
}

fn char_lit_end_exec(s: &Vec<char>, i: usize) -> (r: Option<usize>)
    requires
        i < s@.len(),
    ensures
        r matches Some(e) ==> char_lit_end(s@, i as int) == Some(e as int),
        r is None ==> char_lit_end(s@, i as int) is None,
{
    let n = s.len();
    if !(i + 1 < n && s[i + 1] != ' ') {
        None
    } else if s[i + 1] == '\\' && i + 2 < n {
        if (s[i + 2] as u32) < 0x80 && i + 3 < n && s[i + 3] == '\'' {
            Some(i + 4)
        } else {
            None
        }
    } else if (s[i + 1] as u32) < 0x80 && i + 2 < n && s[i + 2] == '\'' {
        Some(i + 3)
    } else {
        None
    }
}

fn number_end_exec(s: &Vec<char>, i: usize) -> (r: usize)
    requires
        i < s@.len(),
        is_digit(s@[i as int]),
    ensures
        r == number_end(s@, i as int),
{
    let n = s.len();
    proof {
        lemma_number_bounds(s@, i as int);
    }
    if s[i] == '0' && i + 1 < n && (s[i + 1] == 'x' || s[i + 1] == 'X') {
        scan_exec(s, i + 2, Class::HexDigit)
    } else {
        let a = scan_exec(s, i, Class::DigitOrUnderscore);
        proof {
            lemma_scan_bounds(s@, i as int, Class::DigitOrUnderscore);
        }
        let b = if a < n && s[a] == '.' && a + 1 < n && is_digit_exec(s[a + 1]) {
            scan_exec(s, a + 1, Class::Digit)
        } else {
            a
        };
        proof {
            if a < n && s@[a as int] == '.' && a + 1 < n && is_digit(s@[a + 1]) {
                lemma_scan_bounds(s@, a + 1, Class::Digit);
            }
        }
        if b < n && (s[b] == 'e' || s[b] == 'E') {
            let c = if b + 1 < n && (s[b + 1] == '+' || s[b + 1] == '-') {
                b + 2
            } else {
                b + 1
            };
            scan_exec(s, c, Class::Digit)
        } else {
            b
        }
    }
}

fn is_keyword_exec(w: &Vec<char>) -> (r: bool)
    ensures
        r == is_keyword(w@),
{
    eq_str(w, "case") || eq_str(w, "class") || eq_str(w, "data") || eq_str(w, "default")
        || eq_str(w, "deriving") || eq_str(w, "do") || eq_str(w, "else") || eq_str(w, "forall")
        || eq_str(w, "foreign") || eq_str(w, "if") || eq_str(w, "import") || eq_str(w, "in")
        || eq_str(w, "infix") || eq_str(w, "infixl") || eq_str(w, "infixr") || eq_str(
        w,
        "instance",
    ) || eq_str(w, "let") || eq_str(w, "module") || eq_str(w, "newtype") || eq_str(w, "of")
        || eq_str(w, "qualified") || eq_str(w, "then") || eq_str(w, "type") || eq_str(w, "where")
}

fn next_token_exec(s: &Vec<char>, i: usize, at_start: bool) -> (r: (usize, Token))
    requires
        i < s@.len(),
    ensures
        r.0 == next_token(s@, i as int, at_start).0,
        r.1 == next_token(s@, i as int, at_start).1,
{
    let n = s.len();
    let c = s[i];
    if is_ascii_ws_exec(c) {
        (scan_exec(s, i, Class::AsciiWs), Token::Whitespace)
    } else if c == '-' && i + 1 < n && s[i + 1] == '-' {
        (scan_exec(s, i, Class::NotNewline), Token::Comment)
    } else if c == '{' && i + 1 < n && s[i + 1] == '-' {
        (block_comment_end_exec(s, i + 2), Token::Comment)
    } else if c == '"' {
        let e = string_body_end_exec(s, i + 1);
        (if e < n { e + 1 } else { e }, Token::StringLit)
    } else if c == '\'' && char_lit_end_exec(s, i).is_some() {
        match char_lit_end_exec(s, i) {
            Some(e) => (e, Token::CharLit),
            None => (i + 1, Token::Ident),
        }
    } else if c == ':' && at_start {
        (scan_exec(s, i, Class::NotAsciiWs), Token::GhciCmd)
    } else if is_digit_exec(c) {
        (number_end_exec(s, i), Token::Number)
    } else if is_alnum_exec(c) && !is_digit_exec(c) || c == '_' {
        let e = scan_exec(s, i, Class::IdentChar);
        proof {
            lemma_scan_bounds(s@, i as int, Class::IdentChar);
        }
        let w = slice(s, i, e);
        let k = if is_keyword_exec(&w) {
            Token::Keyword
        } else if 'A' <= c && c <= 'Z' {
            Token::TypeCon
        } else {
            Token::Ident
        };
        (e, k)
    } else if c == '(' || c == ')' || c == '[' || c == ']' || c == '{' || c == '}' {
        (i + 1, Token::Paren)
    } else if is_operator_char_exec(c) {
        (scan_exec(s, i, Class::OperatorChar), Token::Operator)
    } else {
        (i + 1, Token::Ident)
    }
}

/// Splits a line into tokens that cover it from start to end.
pub fn tokenize(s: &Vec<char>) -> (spans: Vec<Span>)
    ensures
        spans@ == tokens(s@),
{
    let mut spans: Vec<Span> = Vec::new();
    let mut i: usize = 0;
    let mut at_start = true;
    while i < s.len()
        invariant
            i <= s@.len(),
            spans@ + tokens_from(s@, i as int, at_start) == tokens(s@),
        decreases s.len() - i,
    {
        proof {
            lemma_next_token_bounds(s@, i as int, at_start);
        }
        let (e, k) = next_token_exec(s, i, at_start);
        let ghost old_spans = spans@;
        spans.push(Span { start: i, end: e, kind: k });
        proof {
            assert(spans@ == old_spans.push(Span { start: i, end: e, kind: k }));
            let rest = tokens_from(s@, e as int, at_start && k == Token::Whitespace);
            assert(tokens_from(s@, i as int, at_start) == seq![Span { start: i, end: e, kind: k }]
                + rest);
            assert(old_spans + (seq![Span { start: i, end: e, kind: k }] + rest) == spans@ + rest);
        }
        at_start = at_start && match k {
            Token::Whitespace => true,
            _ => false,
        };
        i = e;
    }
    assert(spans@ + Seq::<Span>::empty() == spans@);
    spans
}

/// The style of a token class.
pub fn token_style(k: Token) -> (r: Style)
    ensures
        r == token_style_spec(k),
{
    match k {
        Token::Keyword => crate::style::keyword(),
        Token::TypeCon => crate::style::type_con(),
        Token::StringLit | Token::CharLit => crate::style::string_lit(),
        Token::Number => crate::style::number(),
        Token::Comment => crate::style::dim(),
        Token::Operator => crate::style::operator(),
        Token::GhciCmd => crate::style::ghci_cmd(),
        Token::Paren | Token::Ident | Token::Whitespace => Style::default(),
    }
}

/// A line's styled pieces: one per token.
pub open spec fn style_line_spec(s: Seq<char>) -> Seq<(Style, Seq<char>)> {
    tokens(s).map_values(|sp: Span| (token_style_spec(sp.kind), span_text(s, sp)))
}

/// A line inside a `:{ ... :}` block: the delimiters are dimmed, the rest
/// is highlighted as Haskell.
pub open spec fn block_line(line: Seq<char>) -> Seq<(Style, Seq<char>)> {
    if trim(line) == ":{"@ || trim(line) == ":}"@ {
        seq![(dim_style(), line)]
    } else {
        style_line_spec(line)
    }
}

/// The pieces of the lines of a block, with a plain newline between lines.
pub open spec fn block_pieces(ls: Seq<Seq<char>>) -> Seq<(Style, Seq<char>)>
    decreases ls.len(),
{
    if ls.len() == 0 {
        seq![]
    } else {
        block_pieces(ls.drop_last()) + (if ls.len() > 1 {
            seq![(plain(), seq!['\n'])]
        } else {
            seq![]
        }) + block_line(ls.last())
    }
}

/// The styled pieces of an input: a `:{` block line by line, anything else
/// as one line.
pub open spec fn highlight_styled_spec(s: Seq<char>) -> Seq<(Style, Seq<char>)> {
    if starts_with(trim(s), ":{"@) {
        block_pieces(split_char(s, '\n'))
    } else {
        style_line_spec(s)
    }
}

/// The texts of styled pieces.
pub open spec fn piece_texts(ps: Seq<(Style, Seq<char>)>) -> Seq<Seq<char>> {
    ps.map_values(|p: (Style, Seq<char>)| p.1)
}

/// The pieces painted and concatenated.
pub open spec fn paint_all(ps: Seq<(Style, Seq<char>)>) -> Seq<char> {
    concat(ps.map_values(|p: (Style, Seq<char>)| painted(p.0, p.1)))
}

/// What `highlight_input` returns.
pub open spec fn highlight_spec(s: Seq<char>) -> Seq<char> {
    paint_all(highlight_styled_spec(s))
}

pub open spec fn styled_view(v: Seq<(Style, String)>) -> Seq<(Style, Seq<char>)> {
    v.map_values(|p: (Style, String)| (p.0, p.1@))
}

fn style_line_into(s: &Vec<char>, r: &mut Vec<(Style, String)>)
    ensures
        styled_view(final(r)@) == styled_view(old(r)@) + style_line_spec(s@),
{
    let spans = tokenize(s);
    let ghost r_init = styled_view(r@);
    let n = s.len();
    let mut i: usize = 0;
    while i < spans.len()
        invariant
            i <= spans@.len(),
            n == s@.len(),
            spans@ == tokens(s@),
            styled_view(r@) == r_init + style_line_spec(s@).take(i as int),
        decreases spans.len() - i,
    {
        let sp = spans[i];
        proof {
            lemma_token_in_bounds(s@, i as int);
        }
        let mut text = String::new();
        push_chars(&mut text, s, sp.start, sp.end);
        let ghost r0 = r@;
        r.push((token_style(sp.kind), text));
        assert(styled_view(r@) =~= styled_view(r0).push(
            (token_style_spec(sp.kind), span_text(s@, sp)),
        ));
        assert(style_line_spec(s@).take(i + 1) =~= style_line_spec(s@).take(i as int).push(
            style_line_spec(s@)[i as int],
        ));
        i = i + 1;
    }
    assert(style_line_spec(s@).take(spans@.len() as int) =~= style_line_spec(s@));
}

/// Tokens lie inside the text, in order.
pub proof fn lemma_tokens_from_bounds(s: Seq<char>, i: int, at_start: bool)
    requires
        0 <= i <= s.len(),
        s.len() <= usize::MAX,
    ensures
        forall|j: int|
            0 <= j < tokens_from(s, i, at_start).len() ==> i <= (
            #[trigger] tokens_from(s, i, at_start)[j]).start < tokens_from(s, i, at_start)[j].end
                <= s.len(),
    decreases s.len() - i,
{
    if i < s.len() {
        lemma_next_token_bounds(s, i, at_start);
        let (e, k) = next_token(s, i, at_start);
        lemma_tokens_from_bounds(s, e, at_start && k == Token::Whitespace);
        let rest = tokens_from(s, e, at_start && k == Token::Whitespace);
        let first = Span { start: i as usize, end: e as usize, kind: k };
        assert(tokens_from(s, i, at_start) == seq![first] + rest);
        assert forall|j: int|
            0 <= j < tokens_from(s, i, at_start).len() implies i <= (
            #[trigger] tokens_from(s, i, at_start)[j]).start < tokens_from(s, i, at_start)[j].end
                <= s.len() by {
            if j > 0 {
                assert(tokens_from(s, i, at_start)[j] == rest[j - 1]);
            }
        }
    }
}

proof fn lemma_token_in_bounds(s: Seq<char>, j: int)
    requires
        0 <= j < tokens(s).len(),
        s.len() <= usize::MAX,
    ensures
        0 <= tokens(s)[j].start < tokens(s)[j].end <= s.len(),
{
    lemma_tokens_from_bounds(s, 0, true);
    assert(0 <= tokens_from(s, 0, true)[j].start);
}

fn block_line_into(line: &Vec<char>, r: &mut Vec<(Style, String)>)
    ensures
        styled_view(final(r)@) == styled_view(old(r)@) + block_line(line@),
{
    let t = trim_v(line);
    if eq_str(&t, ":{") || eq_str(&t, ":}") {
        let ghost r0 = r@;
        r.push((crate::style::dim(), string_of(line)));
        assert(styled_view(r@) =~= styled_view(r0) + seq![(dim_style(), line@)]);
    } else {
        style_line_into(line, r);
    }
}

/// Styled pieces of an input line, for the line editor. Inside a `:{ ... :}`
/// block the delimiters are dimmed and each line is highlighted on its own;
/// otherwise the whole input is one line.
pub fn highlight_styled(input: &str) -> (r: Vec<(Style, String)>)
    ensures
        styled_view(r@) == highlight_styled_spec(input@),
        input@.len() <= usize::MAX,
{
    let s = chars_of(input);
    let n: usize = s.len();
    assert(input@.len() == n);
    let t = trim_v(&s);
    if starts_with_str(&t, ":{") {
        let ls = split_char_v(&s, '\n');
        let mut r: Vec<(Style, String)> = Vec::new();
        let mut i: usize = 0;
        while i < ls.len()
            invariant
                i <= ls@.len(),
                views(ls@) == split_char(s@, '\n'),
                styled_view(r@) == block_pieces(views(ls@).take(i as int)),
            decreases ls.len() - i,
        {
            let ghost before = styled_view(r@);
            if i > 0 {
                let mut nl = String::new();
                push_char(&mut nl, '\n');
                r.push((Style::default(), nl));
            }
            let ghost mid = styled_view(r@);
            block_line_into(&ls[i], &mut r);
            proof {
                let ls_v = views(ls@);
                assert(ls_v.take(i + 1).drop_last() =~= ls_v.take(i as int));
                assert(ls_v.take(i + 1).last() == ls_v[i as int]);
                if i > 0 {
                    assert(mid =~= before + seq![(plain(), seq!['\n'])]);
                } else {
                    assert(mid =~= before + Seq::<(Style, Seq<char>)>::empty());
                }
            }
            i = i + 1;
        }
        assert(views(ls@).take(ls@.len() as int) =~= views(ls@));
        r
    } else {
        let mut r: Vec<(Style, String)> = Vec::new();
        style_line_into(&s, &mut r);
        assert(styled_view(r@) =~= style_line_spec(s@));
        r
    }
}

/// Haskell-highlighted text of `input`, with ANSI colors. Only escape codes
/// are added: for an input without escape characters, stripping them gives
/// the input back.
pub fn highlight_input(input: &str) -> (r: String)
    ensures
        r@ == highlight_spec(input@),
        !input@.contains('\x1b') ==> crate::render::stripped(r@) == input@,
        !input@.contains('\x1b') ==> forall|z: Seq<char>|
            #[trigger] crate::render::stripped(r@ + z) == input@ + crate::render::stripped(z),
{
    let pieces = highlight_styled(input);
    let mut out = String::new();
    let mut i: usize = 0;
    let ghost ps = styled_view(pieces@);
    let ghost painted_all = ps.map_values(|p: (Style, Seq<char>)| painted(p.0, p.1));
    while i < pieces.len()
        invariant
            i <= pieces@.len(),
            ps == styled_view(pieces@),
            painted_all == ps.map_values(|p: (Style, Seq<char>)| painted(p.0, p.1)),
            out@ == concat(painted_all.take(i as int)),
            forall|j: int| 0 <= j < i ==> crate::render::prefix_known((#[trigger] ps[j]).0),
        decreases pieces.len() - i,
    {
        let p = crate::style::paint(pieces[i].0, pieces[i].1.as_str());
        proof {
            let st = pieces@[i as int].0;
            assert(ps[i as int].0 == st);
            if st != plain() {
                let pre = crate::style::ansi_prefix(st);
                assert(p@.take(pre.len() as int) =~= pre);
            }
        }
        out.append(p.as_str());
        assert(painted_all.take(i + 1).drop_last() =~= painted_all.take(i as int));
        i = i + 1;
    }
    assert(painted_all.take(pieces@.len() as int) =~= painted_all);
    proof {
        if !input@.contains('\x1b') {
            law_highlight_keeps_text(input@);
            crate::text::lemma_concat_lacks(piece_texts(ps), '\x1b');
            assert forall|j: int| 0 <= j < ps.len() implies !(#[trigger] ps[j]).1.contains('\x1b') by {
                assert(piece_texts(ps)[j] == ps[j].1);
            }
            assert forall|z: Seq<char>| #[trigger] crate::render::stripped(out@ + z) == input@
                + crate::render::stripped(z) by {
                crate::render::lemma_strip_paint_all(ps, z);
            }
            crate::render::lemma_strip_paint_all(ps, Seq::<char>::empty());
            assert(out@ + Seq::<char>::empty() =~= out@);
            assert(crate::render::strip_from(Seq::<char>::empty(), 0) =~= Seq::<char>::empty());
            assert(input@ + Seq::<char>::empty() =~= input@);
        }
    }
    out
}

// ---------------------------------------------------------------------------
// Highlighting keeps the text
// ---------------------------------------------------------------------------

/// The texts that a list of tokens covers.
pub open spec fn span_texts(s: Seq<char>, sps: Seq<Span>) -> Seq<Seq<char>> {
    sps.map_values(|sp: Span| span_text(s, sp))
}

proof fn lemma_tokens_from_cover(s: Seq<char>, i: int, at_start: bool)
    requires
        0 <= i <= s.len(),
        s.len() <= usize::MAX,
    ensures
        concat(span_texts(s, tokens_from(s, i, at_start))) == s.skip(i),
    decreases s.len() - i,
{
    if i == s.len() {
        assert(span_texts(s, tokens_from(s, i, at_start)) =~= Seq::<Seq<char>>::empty());
        assert(s.skip(i) =~= Seq::<char>::empty());
    } else {
        lemma_next_token_bounds(s, i, at_start);
        let (e, k) = next_token(s, i, at_start);
        let at2 = at_start && k == Token::Whitespace;
        lemma_tokens_from_cover(s, e, at2);
        let first = Span { start: i as usize, end: e as usize, kind: k };
        let rest = tokens_from(s, e, at2);
        assert(tokens_from(s, i, at_start) == seq![first] + rest);
        assert(span_texts(s, seq![first] + rest) =~= seq![s.subrange(i, e)] + span_texts(s, rest));
        crate::text::lemma_concat_front(s.subrange(i, e), span_texts(s, rest));
        assert(s.subrange(i, e) + s.skip(e) =~= s.skip(i));
    }
}

/// The spans cut `from..to` into consecutive non-empty pieces.
pub open spec fn spans_partition(ts: Seq<Span>, from: int, to: int) -> bool {
    &&& (ts.len() == 0 <==> from == to)
    &&& ts.len() > 0 ==> ts[0].start == from && ts.last().end == to
    &&& forall|k: int| 0 <= k < ts.len() ==> (#[trigger] ts[k]).start < ts[k].end
    &&& forall|k: int, j: int|
        0 <= k && j == k + 1 && j < ts.len() ==> (#[trigger] ts[k]).end == (#[trigger] ts[j]).start
}

proof fn lemma_tokens_from_partition(s: Seq<char>, i: int, at_start: bool)
    requires
        0 <= i <= s.len(),
        s.len() <= usize::MAX,
    ensures
        spans_partition(tokens_from(s, i, at_start), i, s.len() as int),
    decreases s.len() - i,
{
    if i < s.len() {
        lemma_next_token_bounds(s, i, at_start);
        let (e, k) = next_token(s, i, at_start);
        let at2 = at_start && k == Token::Whitespace;
        lemma_tokens_from_partition(s, e, at2);
        let first = Span { start: i as usize, end: e as usize, kind: k };
        let rest = tokens_from(s, e, at2);
        let ts = tokens_from(s, i, at_start);
        assert(ts == seq![first] + rest);
        assert forall|j: int| 0 <= j < ts.len() implies (#[trigger] ts[j]).start < ts[j].end by {
            if j > 0 {
                assert(ts[j] == rest[j - 1]);
            }
        }
        assert forall|a: int, b: int| 0 <= a && b == a + 1 && b < ts.len() implies (
        #[trigger] ts[a]).end == (#[trigger] ts[b]).start by {
            assert(ts[b] == rest[a]);
            if a > 0 {
                assert(ts[a] == rest[a - 1]);
            }
        }
        if rest.len() > 0 {
            assert(ts.last() == rest.last());
        }
    }
}

/// The tokens of a line cut it into consecutive pieces: none for an empty
/// line; otherwise the first starts at 0, each ends where the next starts,
/// none is empty, and the last ends at the line's end.
pub proof fn law_tokens_partition(s: Seq<char>)
    requires
        s.len() <= usize::MAX,
    ensures
        spans_partition(tokens(s), 0, s.len() as int),
{
    lemma_tokens_from_partition(s, 0, true);
}

/// A string literal's body read unit by unit: `\` with the character it
/// escapes, or any character other than `"`.
pub open spec fn literal_body(b: Seq<char>) -> bool
    decreases b.len(),
{
    if b.len() == 0 {
        true
    } else if b[0] == '\\' {
        b.len() >= 2 && literal_body(b.skip(2))
    } else {
        b[0] != '"' && literal_body(b.skip(1))
    }
}

proof fn lemma_body_end(s: Seq<char>, j: int, b: Seq<char>)
    requires
        0 <= j,
        j + b.len() < s.len(),
        s.subrange(j, j + b.len()) == b,
        s[j + b.len()] == '"',
        literal_body(b),
    ensures
        string_body_end(s, j) == j + b.len(),
    decreases b.len(),
{
    if b.len() > 0 {
        assert(s[j] == b[0]);
        if b[0] == '\\' {
            let r = b.skip(2);
            assert(s.subrange(j + 2, j + 2 + r.len()) =~= r);
            lemma_body_end(s, j + 2, r);
        } else {
            let r = b.skip(1);
            assert(s.subrange(j + 1, j + 1 + r.len()) =~= r);
            lemma_body_end(s, j + 1, r);
        }
    }
}

proof fn lemma_body_to_end(s: Seq<char>, j: int)
    requires
        0 <= j <= s.len(),
        literal_body(s.skip(j)),
    ensures
        string_body_end(s, j) == s.len(),
    decreases s.len() - j,
{
    let b = s.skip(j);
    if j < s.len() {
        assert(s[j] == b[0]);
        if b[0] == '\\' {
            assert(b.skip(2) =~= s.skip(j + 2));
            lemma_body_to_end(s, j + 2);
        } else {
            assert(b.skip(1) =~= s.skip(j + 1));
            lemma_body_to_end(s, j + 1);
        }
    }
}

proof fn lemma_scan_to(s: Seq<char>, i: int, n: int, k: Class)
    requires
        0 <= i <= n <= s.len(),
        forall|j: int| i <= j < n ==> in_class(#[trigger] s[j], k),
        n == s.len() || !in_class(s[n], k),
    ensures
        scan(s, i, k) == n,
    decreases n - i,
{
    if i < n {
        assert(in_class(s[i], k));
        lemma_scan_to(s, i + 1, n, k);
    }
}

/// A line comment runs from `--` to the end of the line, whatever it holds:
/// brackets, quotes and operators in it are all comment.
pub proof fn law_line_comment_to_end_of_line(s: Seq<char>, i: int, n: int, at_start: bool)
    requires
        0 <= i,
        i + 2 <= n <= s.len(),
        s[i] == '-',
        s[i + 1] == '-',
        forall|j: int| i <= j < n ==> (#[trigger] s[j]) != '\n',
        n == s.len() || s[n] == '\n',
    ensures
        next_token(s, i, at_start) == (n, Token::Comment),
{
    assert(!is_ascii_ws(s[i]));
    lemma_scan_to(s, i, n, Class::NotNewline);
}

/// A word is classed by itself: a keyword is a keyword, a word starting
/// with an uppercase letter is a type or constructor, and any other word is
/// an identifier. The token is the whole word: letters, digits, `_` and `'`.
pub proof fn law_word_classes(s: Seq<char>, i: int, n: int, at_start: bool)
    requires
        0 <= i < n <= s.len(),
        is_alpha(s[i]) || s[i] == '_',
        forall|j: int| i <= j < n ==> in_class(#[trigger] s[j], Class::IdentChar),
        n == s.len() || !in_class(s[n], Class::IdentChar),
    ensures
        next_token(s, i, at_start).0 == n,
        is_keyword(s.subrange(i, n)) ==> next_token(s, i, at_start).1 == Token::Keyword,
        is_upper(s[i]) ==> next_token(s, i, at_start).1 == Token::TypeCon,
        !is_upper(s[i]) && !is_keyword(s.subrange(i, n)) ==> next_token(s, i, at_start).1
            == Token::Ident,
{
    lemma_scan_to(s, i, n, Class::IdentChar);
    assert(!is_ascii_ws(s[i]));
    assert(!is_digit(s[i]));
    if is_upper(s[i]) {
        let w = s.subrange(i, n);
        assert(w[0] == s[i]);
        reveal_strlit("case");
        reveal_strlit("class");
        reveal_strlit("data");
        reveal_strlit("default");
        reveal_strlit("deriving");
        reveal_strlit("do");
        reveal_strlit("else");
        reveal_strlit("forall");
        reveal_strlit("foreign");
        reveal_strlit("if");
        reveal_strlit("import");
        reveal_strlit("in");
        reveal_strlit("infix");
        reveal_strlit("infixl");
        reveal_strlit("infixr");
        reveal_strlit("instance");
        reveal_strlit("let");
        reveal_strlit("module");
        reveal_strlit("newtype");
        reveal_strlit("of");
        reveal_strlit("qualified");
        reveal_strlit("then");
        reveal_strlit("type");
        reveal_strlit("where");
        assert(!is_keyword(w));
    }
}

/// A string literal left open runs to the end of the input: when all that
/// follows the opening quote is a literal body, the string token takes it
/// all.
pub proof fn law_open_string_runs_to_end(s: Seq<char>, i: int, at_start: bool)
    requires
        0 <= i < s.len(),
        s[i] == '"',
        literal_body(s.skip(i + 1)),
    ensures
        next_token(s, i, at_start) == (s.len() as int, Token::StringLit),
{
    lemma_body_to_end(s, i + 1);
}

/// A string literal is one token from its opening quote to the first quote
/// that no backslash escapes: an escaped quote (`\"`) inside it does not end
/// it. For a quote at `i` followed by a literal body and a closing quote, the
/// token is a string that ends just after the closing quote.
pub proof fn law_string_token_spans_literal(s: Seq<char>, i: int, b: Seq<char>, at_start: bool)
    requires
        0 <= i,
        i + b.len() + 2 <= s.len(),
        s[i] == '"',
        s.subrange(i + 1, i + 1 + b.len()) == b,
        s[i + 1 + b.len()] == '"',
        literal_body(b),
    ensures
        next_token(s, i, at_start) == (i + b.len() + 2, Token::StringLit),
{
    lemma_body_end(s, i + 1, b);
}

/// The tokens of a line cover it exactly: their texts, in order, make up
/// the line.
pub proof fn law_tokens_cover(s: Seq<char>)
    requires
        s.len() <= usize::MAX,
    ensures
        concat(span_texts(s, tokens(s))) == s,
{
    lemma_tokens_from_cover(s, 0, true);
    assert(s.skip(0) =~= s);
}

proof fn lemma_line_pieces(s: Seq<char>)
    requires
        s.len() <= usize::MAX,
    ensures
        concat(piece_texts(style_line_spec(s))) == s,
{
    law_tokens_cover(s);
    assert(piece_texts(style_line_spec(s)) =~= span_texts(s, tokens(s)));
}

proof fn lemma_block_line_pieces(l: Seq<char>)
    requires
        l.len() <= usize::MAX,
    ensures
        concat(piece_texts(block_line(l))) == l,
{
    if trim(l) == ":{"@ || trim(l) == ":}"@ {
        assert(piece_texts(block_line(l)) =~= seq![l]);
        crate::text::lemma_concat_front(l, seq![]);
        assert(l + concat(seq![]) =~= l);
    } else {
        lemma_line_pieces(l);
    }
}

proof fn lemma_piece_texts_append(a: Seq<(Style, Seq<char>)>, b: Seq<(Style, Seq<char>)>)
    ensures
        piece_texts(a + b) == piece_texts(a) + piece_texts(b),
{
    assert(piece_texts(a + b) =~= piece_texts(a) + piece_texts(b));
}

proof fn lemma_block_pieces(ls: Seq<Seq<char>>)
    requires
        forall|i: int| 0 <= i < ls.len() ==> (#[trigger] ls[i]).len() <= usize::MAX,
    ensures
        concat(piece_texts(block_pieces(ls))) == join(ls, seq!['\n']),
    decreases ls.len(),
{
    if ls.len() > 0 {
        let init = ls.drop_last();
        assert forall|i: int| 0 <= i < init.len() implies (#[trigger] init[i]).len() <= usize::MAX by {
            assert(init[i] == ls[i]);
        }
        lemma_block_pieces(init);
        let sep: Seq<(Style, Seq<char>)> = if ls.len() > 1 {
            seq![(plain(), seq!['\n'])]
        } else {
            seq![]
        };
        assert(ls.last() == ls[ls.len() - 1]);
        lemma_block_line_pieces(ls.last());
        lemma_piece_texts_append(block_pieces(init) + sep, block_line(ls.last()));
        lemma_piece_texts_append(block_pieces(init), sep);
        crate::text::lemma_concat_append(
            piece_texts(block_pieces(init)) + piece_texts(sep),
            piece_texts(block_line(ls.last())),
        );
        crate::text::lemma_concat_append(piece_texts(block_pieces(init)), piece_texts(sep));
        if ls.len() > 1 {
            assert(piece_texts(sep) =~= seq![seq!['\n']]);
            crate::text::lemma_concat_front(seq!['\n'], seq![]);
            assert(concat(piece_texts(sep)) =~= seq!['\n']);
        } else {
            assert(piece_texts(sep) =~= Seq::<Seq<char>>::empty());
            assert(init =~= Seq::<Seq<char>>::empty());
            assert(block_pieces(init) =~= Seq::<(Style, Seq<char>)>::empty());
            assert(piece_texts(block_pieces(init)) =~= Seq::<Seq<char>>::empty());
            assert(ls[0] == ls.last());
        }
        assert(concat(piece_texts(block_pieces(ls))) =~= join(ls, seq!['\n']));
    } else {
        assert(piece_texts(block_pieces(ls)) =~= Seq::<Seq<char>>::empty());
    }
}

proof fn lemma_split_piece_len(s: Seq<char>, c: char)
    ensures
        forall|i: int|
            0 <= i < split_char(s, c).len() ==> (#[trigger] split_char(s, c)[i]).len() <= s.len(),
    decreases s.len(),
{
    crate::text::lemma_find_char_range(s, c);
    match crate::text::find_char(s, c) {
        None => {},
        Some(k) => {
            let rest = s.skip(k + 1);
            lemma_split_piece_len(rest, c);
            let ps = split_char(s, c);
            assert(ps == seq![s.take(k)] + split_char(rest, c));
            assert forall|i: int| 0 <= i < ps.len() implies (#[trigger] ps[i]).len() <= s.len() by {
                if i > 0 {
                    assert(ps[i] == split_char(rest, c)[i - 1]);
                }
            }
        },
    }
}

/// Highlighting keeps the text: the pieces it styles, in order, make up the
/// input exactly, for a single line and for a `:{ ... :}` block alike.
pub proof fn law_highlight_keeps_text(s: Seq<char>)
    requires
        s.len() <= usize::MAX,
    ensures
        concat(piece_texts(highlight_styled_spec(s))) == s,
{
    if starts_with(trim(s), ":{"@) {
        let ls = split_char(s, '\n');
        lemma_split_piece_len(s, '\n');
        lemma_block_pieces(ls);
        crate::text::lemma_join_split(s, '\n');
    } else {
        lemma_line_pieces(s);
    }
}

} // verus!
