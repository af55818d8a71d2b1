use vstd::prelude::*;
use vstd::string::*;

verus! {

/// A lexical unit of the source text.
#[derive(Debug, Clone, PartialEq)]
pub enum Token {
    Whitespace,
    Comment,
    OpenParenthesis,
    CloseParenthesis,
    OpenBracket,
    CloseBracket,
    OpenBrace,
    CloseBrace,
    Semicolon,
    Literal(Literal),
    Keyword(Keyword),
    Operator(Operator),
    Identifier(String),
}

/// Reserved words of the language.
#[derive(Debug, Clone, Copy, PartialEq, Eq, Structural)]
pub enum Keyword {
    Let,
    If,
    Else,
    Return,
}

/// Arithmetic and comparison operators.
#[derive(Debug, Clone, Copy, PartialEq, Eq, Structural)]
pub enum Operator {
    Plus,
    Minus,
    Multiply,
    Divide,
    Equal,
    NotEqual,
    LessThan,
    GreaterThan,
    LessThanOrEqual,
    GreaterThanOrEqual,
}

/// A literal value. `Float` and `Double` keep their source digits; since the
/// integer rule is tried first, the tokenizer itself never produces them.
#[derive(Debug, Clone, PartialEq)]
pub enum Literal {
    Integer(i64),
    Float(String),
    Double(String),
    Character(char),
    /// The literal text, quotes included.
    String(String),
    Boolean(bool),
}

/// The mathematical value of a literal.
pub enum LiteralValue {
    Integer(i64),
    Float(Seq<char>),
    Double(Seq<char>),
    Character(char),
    Str(Seq<char>),
    Boolean(bool),
}

impl Literal {
    pub open spec fn view(&self) -> LiteralValue {
        match self {
            Literal::Integer(v) => LiteralValue::Integer(*v),
            Literal::Float(t) => LiteralValue::Float(t@),
            Literal::Double(t) => LiteralValue::Double(t@),
            Literal::Character(c) => LiteralValue::Character(*c),
            Literal::String(t) => LiteralValue::Str(t@),
            Literal::Boolean(b) => LiteralValue::Boolean(*b),
        }
    }

    /// A copy of this literal with the same value.
    pub(crate) fn duplicate(&self) -> (r: Literal)
        ensures
            r.view() == self.view(),
    {
        match self {
            Literal::Integer(v) => Literal::Integer(*v),
            Literal::Float(t) => Literal::Float(t.clone()),
            Literal::Double(t) => Literal::Double(t.clone()),
            Literal::Character(c) => Literal::Character(*c),
            Literal::String(t) => Literal::String(t.clone()),
            Literal::Boolean(b) => Literal::Boolean(*b),
        }
    }
}

/// Why tokenization stopped; each variant holds the unmatched rest of the input.
#[derive(Debug, Clone, PartialEq)]
pub enum LexError {
    /// No token rule matches at the start of the rest.
    InvalidToken(String),
    /// The rest starts with a run of digits whose value exceeds `i64::MAX`.
    IntegerOutOfRange(String),
}

/// Character classes whose maximal runs make up tokens.
#[derive(Debug, Clone, Copy, PartialEq, Eq, Structural)]
pub enum CharClass {
    Space,
    Digit,
    Word,
    NotNewline,
    NotQuote,
}

/// Whether `c` has the Unicode `White_Space` property.
pub open spec fn is_space_char(c: char) -> bool {
    ('\t' <= c && c <= '\r') || c == ' ' || c == '\u{85}' || c == '\u{a0}' || c == '\u{1680}'
        || ('\u{2000}' <= c && c <= '\u{200a}') || c == '\u{2028}' || c == '\u{2029}'
        || c == '\u{202f}' || c == '\u{205f}' || c == '\u{3000}'
}

pub open spec fn is_digit_char(c: char) -> bool {
    '0' <= c && c <= '9'
}

pub open spec fn is_ident_start_char(c: char) -> bool {
    ('a' <= c && c <= 'z') || ('A' <= c && c <= 'Z') || c == '_'
}

pub open spec fn in_class(k: CharClass, c: char) -> bool {
    match k {
        CharClass::Space => is_space_char(c),
        CharClass::Digit => is_digit_char(c),
        CharClass::Word => is_ident_start_char(c) || is_digit_char(c),
        CharClass::NotNewline => c != '\n',
        CharClass::NotQuote => c != '"',
    }
}

/// End of the maximal run of characters of class `k` that starts at `i`.
pub open spec fn run_end(s: Seq<char>, i: int, k: CharClass) -> int
    decreases s.len() - i,
{
    if 0 <= i < s.len() && in_class(k, s[i]) {
        run_end(s, i + 1, k)
    } else {
        i
    }
}

pub open spec fn at2(s: Seq<char>, i: int, a: char, b: char) -> bool {
    0 <= i && i + 2 <= s.len() && s[i] == a && s[i + 1] == b
}

pub open spec fn at3(s: Seq<char>, i: int, a: char, b: char, c: char) -> bool {
    at2(s, i, a, b) && i + 3 <= s.len() && s[i + 2] == c
}

pub open spec fn at4(s: Seq<char>, i: int, a: char, b: char, c: char, d: char) -> bool {
    at3(s, i, a, b, c) && i + 4 <= s.len() && s[i + 3] == d
}

pub open spec fn at5(s: Seq<char>, i: int, a: char, b: char, c: char, d: char, e: char) -> bool {
    at4(s, i, a, b, c, d) && i + 5 <= s.len() && s[i + 4] == e
}

pub open spec fn at6(s: Seq<char>, i: int, a: char, b: char, c: char, d: char, e: char, f: char) -> bool {
    at5(s, i, a, b, c, d, e) && i + 6 <= s.len() && s[i + 5] == f
}

/// Value of the decimal digits `s[i..e]`.
pub open spec fn digits_value(s: Seq<char>, i: int, e: int) -> int
    decreases e - i,
{
    if e <= i {
        0
    } else {
        digits_value(s, i, e - 1) * 10 + (s[e - 1] as int - '0' as int)
    }
}

pub open spec fn is_char_literal(s: Seq<char>, i: int) -> bool {
    0 <= i && i + 3 <= s.len() && s[i] == '\'' && s[i + 1] != '\'' && s[i + 2] == '\''
}

pub open spec fn is_string_literal(s: Seq<char>, i: int) -> bool {
    0 <= i < s.len() && s[i] == '"' && run_end(s, i + 1, CharClass::NotQuote) < s.len()
}

/// Where the token that starts at `i` ends; `i` itself when no rule matches.
/// Rules are tried in a fixed order and the first that matches wins.
pub open spec fn token_end(s: Seq<char>, i: int) -> int {
    if !(0 <= i < s.len()) {
        i
    } else if is_space_char(s[i]) {
        run_end(s, i, CharClass::Space)
    } else if at2(s, i, '/', '/') {
        run_end(s, i + 2, CharClass::NotNewline)
    } else if s[i] == '(' || s[i] == ')' || s[i] == '[' || s[i] == ']' || s[i] == '{' || s[i] == '}'
        || s[i] == ';' {
        i + 1
    } else if is_digit_char(s[i]) {
        run_end(s, i, CharClass::Digit)
    } else if is_char_literal(s, i) {
        i + 3
    } else if is_string_literal(s, i) {
        run_end(s, i + 1, CharClass::NotQuote) + 1
    } else if at4(s, i, 't', 'r', 'u', 'e') {
        i + 4
    } else if at5(s, i, 'f', 'a', 'l', 's', 'e') {
        i + 5
    } else if at3(s, i, 'l', 'e', 't') {
        i + 3
    } else if at2(s, i, 'i', 'f') {
        i + 2
    } else if at4(s, i, 'e', 'l', 's', 'e') {
        i + 4
    } else if at6(s, i, 'r', 'e', 't', 'u', 'r', 'n') {
        i + 6
    } else if s[i] == '+' || s[i] == '-' || s[i] == '*' || s[i] == '/' {
        i + 1
    } else if at2(s, i, '=', '=') || at2(s, i, '!', '=') || at2(s, i, '<', '=') || at2(s, i, '>', '=') {
        i + 2
    } else if s[i] == '<' || s[i] == '>' {
        i + 1
    } else if is_ident_start_char(s[i]) {
        run_end(s, i, CharClass::Word)
    } else {
        i
    }
}

/// The integer rule applies at `i` but its value does not fit in an `i64`.
pub open spec fn integer_too_large(s: Seq<char>, i: int) -> bool {
    0 <= i < s.len() && !is_space_char(s[i]) && !at2(s, i, '/', '/') && is_digit_char(s[i])
        && digits_value(s, i, run_end(s, i, CharClass::Digit)) > i64::MAX
}

/// `t` is the token of the rule that wins at `i`, under the order of `token_end`.
pub open spec fn token_at(s: Seq<char>, i: int, t: Token) -> bool {
    let e = token_end(s, i);
    if !(0 <= i < s.len()) {
        false
    } else if is_space_char(s[i]) {
        t == Token::Whitespace
    } else if at2(s, i, '/', '/') {
        t == Token::Comment
    } else if s[i] == '(' {
        t == Token::OpenParenthesis
    } else if s[i] == ')' {
        t == Token::CloseParenthesis
    } else if s[i] == '[' {
        t == Token::OpenBracket
    } else if s[i] == ']' {
        t == Token::CloseBracket
    } else if s[i] == '{' {
        t == Token::OpenBrace
    } else if s[i] == '}' {
        t == Token::CloseBrace
    } else if s[i] == ';' {
        t == Token::Semicolon
    } else if is_digit_char(s[i]) {
        t == Token::Literal(Literal::Integer(digits_value(s, i, e) as i64))
    } else if is_char_literal(s, i) {
        t == Token::Literal(Literal::Character(s[i + 1]))
    } else if is_string_literal(s, i) {
        match t {
            Token::Literal(Literal::String(x)) => x@ == s.subrange(i, e),
            _ => false,
        }
    } else if at4(s, i, 't', 'r', 'u', 'e') {
        t == Token::Literal(Literal::Boolean(true))
    } else if at5(s, i, 'f', 'a', 'l', 's', 'e') {
        t == Token::Literal(Literal::Boolean(false))
    } else if at3(s, i, 'l', 'e', 't') {
        t == Token::Keyword(Keyword::Let)
    } else if at2(s, i, 'i', 'f') {
        t == Token::Keyword(Keyword::If)
    } else if at4(s, i, 'e', 'l', 's', 'e') {
        t == Token::Keyword(Keyword::Else)
    } else if at6(s, i, 'r', 'e', 't', 'u', 'r', 'n') {
        t == Token::Keyword(Keyword::Return)
    } else if s[i] == '+' {
        t == Token::Operator(Operator::Plus)
    } else if s[i] == '-' {
        t == Token::Operator(Operator::Minus)
    } else if s[i] == '*' {
        t == Token::Operator(Operator::Multiply)
    } else if s[i] == '/' {
        t == Token::Operator(Operator::Divide)
    } else if at2(s, i, '=', '=') {
        t == Token::Operator(Operator::Equal)
    } else if at2(s, i, '!', '=') {
        t == Token::Operator(Operator::NotEqual)
    } else if at2(s, i, '<', '=') {
        t == Token::Operator(Operator::LessThanOrEqual)
    } else if at2(s, i, '>', '=') {
        t == Token::Operator(Operator::GreaterThanOrEqual)
    } else if s[i] == '<' {
        t == Token::Operator(Operator::LessThan)
    } else if s[i] == '>' {
        t == Token::Operator(Operator::GreaterThan)
    } else if is_ident_start_char(s[i]) {
        match t {
            Token::Identifier(x) => x@ == s.subrange(i, e),
            _ => false,
        }
    } else {
        false
    }
}

/// A token can be taken at `i`: some rule matches and its value fits.
pub open spec fn step_ok(s: Seq<char>, i: int) -> bool {
    token_end(s, i) > i && !integer_too_large(s, i)
}

/// `toks` is the token sequence that the rules take from `s[i..e]`.
pub open spec fn lexes(s: Seq<char>, i: int, e: int, toks: Seq<Token>) -> bool
    decreases toks.len(),
{
    if toks.len() == 0 {
        i == e
    } else {
        step_ok(s, i) && token_at(s, i, toks[0]) && lexes(s, token_end(s, i), e, toks.drop_first())
    }
}

pub(crate) proof fn lemma_run_end_bounds(s: Seq<char>, i: int, k: CharClass)
    requires
        0 <= i <= s.len(),
    ensures
        i <= run_end(s, i, k) <= s.len(),
        run_end(s, i, k) < s.len() ==> !in_class(k, s[run_end(s, i, k)]),
        forall|j: int| i <= j < run_end(s, i, k) ==> in_class(k, #[trigger] s[j]),
    decreases s.len() - i,
{
    if i < s.len() && in_class(k, s[i]) {
        lemma_run_end_bounds(s, i + 1, k);
    }
}

proof fn lemma_digits_value_grows(s: Seq<char>, i: int, a: int, b: int)
    requires
        0 <= i <= a <= b <= s.len(),
        forall|j: int| i <= j < b ==> is_digit_char(#[trigger] s[j]),
    ensures
        0 <= digits_value(s, i, a) <= digits_value(s, i, b),
    decreases b - i,
{
    if b > i {
        if a < b {
            lemma_digits_value_grows(s, i, a, b - 1);
        } else {
            lemma_digits_value_grows(s, i, b - 1, b - 1);
        }
    }
}

proof fn lemma_lexes_push(s: Seq<char>, i: int, e: int, toks: Seq<Token>, t: Token)
    requires
        lexes(s, i, e, toks),
        step_ok(s, e),
        token_at(s, e, t),
    ensures
        lexes(s, i, token_end(s, e), toks.push(t)),
    decreases toks.len(),
{
    if toks.len() > 0 {
        lemma_lexes_push(s, token_end(s, i), e, toks.drop_first(), t);
        assert(toks.push(t).drop_first() =~= toks.drop_first().push(t));
    } else {
        assert(toks.push(t).drop_first() =~= Seq::<Token>::empty());
        assert(toks.push(t)[0] == t);
        assert(lexes(s, token_end(s, e), token_end(s, e), Seq::<Token>::empty()));
    }
}

/// Whether `c` is whitespace, as `char::is_whitespace` decides it.
fn is_space(c: char) -> (r: bool)
    ensures
        r == is_space_char(c),
{
    ('\t' <= c && c <= '\r') || c == ' ' || c == '\u{85}' || c == '\u{a0}' || c == '\u{1680}'
        || ('\u{2000}' <= c && c <= '\u{200a}') || c == '\u{2028}' || c == '\u{2029}'
        || c == '\u{202f}' || c == '\u{205f}' || c == '\u{3000}'
}

fn char_in_class(k: CharClass, c: char) -> (r: bool)
    ensures
        r == in_class(k, c),
{
    match k {
        CharClass::Space => is_space(c),
        CharClass::Digit => '0' <= c && c <= '9',
        CharClass::Word => ('a' <= c && c <= 'z') || ('A' <= c && c <= 'Z') || c == '_' || ('0'
            <= c && c <= '9'),
        CharClass::NotNewline => c != '\n',
        CharClass::NotQuote => c != '"',
    }
}

/// End of the maximal run of class `k` in `cs` from `i`.
fn scan_run(cs: &Vec<char>, i: usize, k: CharClass) -> (r: usize)
    requires
        i <= cs@.len(),
    ensures
        r as int == run_end(cs@, i as int, k),
        i <= r <= cs@.len(),
{
    let mut j: usize = i;
    while j < cs.len() && char_in_class(k, cs[j])
        invariant
            i <= j <= cs@.len(),
            run_end(cs@, i as int, k) == run_end(cs@, j as int, k),
        decreases cs@.len() - j,
    {
        j += 1;
    }
    j
}

/// Value of the digits `cs[i..e]`, or `None` where it exceeds `i64::MAX`.
fn digits_to_i64(cs: &Vec<char>, i: usize, e: usize) -> (r: Option<i64>)
    requires
        i <= e <= cs@.len(),
        forall|j: int| i <= j < e ==> is_digit_char(#[trigger] cs@[j]),
    ensures
        r matches Some(v) ==> v as int == digits_value(cs@, i as int, e as int),
        r is None <==> digits_value(cs@, i as int, e as int) > i64::MAX,
{
    let mut v: i64 = 0;
    let mut j: usize = i;
    while j < e
        invariant
            i <= j <= e <= cs@.len(),
            forall|k: int| i <= k < e ==> is_digit_char(#[trigger] cs@[k]),
            v as int == digits_value(cs@, i as int, j as int),
            0 <= v,
        decreases e - j,
    {
        let d = cs[j];
        assert(is_digit_char(cs@[j as int]));
        let w: i128 = (v as i128) * 10 + ((d as u32 - '0' as u32) as i128);
        assert(w == digits_value(cs@, i as int, j + 1));
        if w > i64::MAX as i128 {
            proof {
                lemma_digits_value_grows(cs@, i as int, j + 1, e as int);
            }
            return None;
        }
        v = w as i64;
        j += 1;
    }
    Some(v)
}

fn has2(cs: &Vec<char>, i: usize, a: char, b: char) -> (r: bool)
    requires
        i <= cs@.len(),
    ensures
        r == at2(cs@, i as int, a, b),
{
    cs.len() - i >= 2 && cs[i] == a && cs[i + 1] == b
}

fn has3(cs: &Vec<char>, i: usize, a: char, b: char, c: char) -> (r: bool)
    requires
        i <= cs@.len(),
    ensures
        r == at3(cs@, i as int, a, b, c),
{
    has2(cs, i, a, b) && cs.len() - i >= 3 && cs[i + 2] == c
}

fn has4(cs: &Vec<char>, i: usize, a: char, b: char, c: char, d: char) -> (r: bool)
    requires
        i <= cs@.len(),
    ensures
        r == at4(cs@, i as int, a, b, c, d),
{
    has3(cs, i, a, b, c) && cs.len() - i >= 4 && cs[i + 3] == d
}

fn has5(cs: &Vec<char>, i: usize, a: char, b: char, c: char, d: char, e: char) -> (r: bool)
    requires
        i <= cs@.len(),
    ensures
        r == at5(cs@, i as int, a, b, c, d, e),
{
    has4(cs, i, a, b, c, d) && cs.len() - i >= 5 && cs[i + 4] == e
}

fn has6(cs: &Vec<char>, i: usize, a: char, b: char, c: char, d: char, e: char, f: char) -> (r: bool)
    requires
        i <= cs@.len(),
    ensures
        r == at6(cs@, i as int, a, b, c, d, e, f),
{
    has5(cs, i, a, b, c, d, e) && cs.len() - i >= 6 && cs[i + 5] == f
}

/// Takes the token that starts at `i`, and returns it with its end.
fn find_next_token(code: &str, cs: &Vec<char>, i: usize) -> (r: Result<(Token, usize), LexError>)
    requires
        code@ == cs@,
        i < cs@.len(),
    ensures
        match r {
            Ok((t, e)) => step_ok(cs@, i as int) && token_at(cs@, i as int, t) && e as int
                == token_end(cs@, i as int) && i < e <= cs@.len(),
            Err(LexError::InvalidToken(rest)) => token_end(cs@, i as int) == i && rest@
                == cs@.skip(i as int),
            Err(LexError::IntegerOutOfRange(rest)) => integer_too_large(cs@, i as int) && rest@
                == cs@.skip(i as int),
        },
{
    let n = cs.len();
    let c = cs[i];
    proof {
        lemma_run_end_bounds(cs@, i as int, CharClass::Space);
        lemma_run_end_bounds(cs@, i as int, CharClass::Digit);
        lemma_run_end_bounds(cs@, i as int, CharClass::Word);
        lemma_run_end_bounds(cs@, i + 1, CharClass::NotQuote);
        if i + 2 <= cs@.len() {
            lemma_run_end_bounds(cs@, i + 2, CharClass::NotNewline);
        }
    }
    let t: Token;
    let e: usize;
    if is_space(c) {
        t = Token::Whitespace;
        e = scan_run(cs, i, CharClass::Space);
    } else if has2(cs, i, '/', '/') {
        t = Token::Comment;
        e = scan_run(cs, i + 2, CharClass::NotNewline);
    } else if c == '(' {
        t = Token::OpenParenthesis;
        e = i + 1;
    } else if c == ')' {
        t = Token::CloseParenthesis;
        e = i + 1;
    } else if c == '[' {
        t = Token::OpenBracket;
        e = i + 1;
    } else if c == ']' {
        t = Token::CloseBracket;
        e = i + 1;
    } else if c == '{' {
        t = Token::OpenBrace;
        e = i + 1;
    } else if c == '}' {
        t = Token::CloseBrace;
        e = i + 1;
    } else if c == ';' {
        t = Token::Semicolon;
        e = i + 1;
    } else if '0' <= c && c <= '9' {
        e = scan_run(cs, i, CharClass::Digit);
        match digits_to_i64(cs, i, e) {
            Some(v) => {
                t = Token::Literal(Literal::Integer(v));
            },
            None => {
                return Err(LexError::IntegerOutOfRange(code.substring_char(i, n).to_owned()));
            },
        }
    } else if n - i >= 3 && c == '\'' && cs[i + 1] != '\'' && cs[i + 2] == '\'' {
        t = Token::Literal(Literal::Character(cs[i + 1]));
        e = i + 3;
    } else if c == '"' && scan_run(cs, i + 1, CharClass::NotQuote) < n {
        e = scan_run(cs, i + 1, CharClass::NotQuote) + 1;
        t = Token::Literal(Literal::String(code.substring_char(i, e).to_owned()));
    } else if has4(cs, i, 't', 'r', 'u', 'e') {
        t = Token::Literal(Literal::Boolean(true));
        e = i + 4;
    } else if has5(cs, i, 'f', 'a', 'l', 's', 'e') {
        t = Token::Literal(Literal::Boolean(false));
        e = i + 5;
    } else if has3(cs, i, 'l', 'e', 't') {
        t = Token::Keyword(Keyword::Let);
        e = i + 3;
    } else if has2(cs, i, 'i', 'f') {
        t = Token::Keyword(Keyword::If);
        e = i + 2;
    } else if has4(cs, i, 'e', 'l', 's', 'e') {
        t = Token::Keyword(Keyword::Else);
        e = i + 4;
    } else if has6(cs, i, 'r', 'e', 't', 'u', 'r', 'n') {
        t = Token::Keyword(Keyword::Return);
        e = i + 6;
    } else if c == '+' {
        t = Token::Operator(Operator::Plus);
        e = i + 1;
    } else if c == '-' {
        t = Token::Operator(Operator::Minus);
        e = i + 1;
    } else if c == '*' {
        t = Token::Operator(Operator::Multiply);
        e = i + 1;
    } else if c == '/' {
        t = Token::Operator(Operator::Divide);
        e = i + 1;
    } else if has2(cs, i, '=', '=') {
        t = Token::Operator(Operator::Equal);
        e = i + 2;
    } else if has2(cs, i, '!', '=') {
        t = Token::Operator(Operator::NotEqual);
        e = i + 2;
    } else if has2(cs, i, '<', '=') {
        t = Token::Operator(Operator::LessThanOrEqual);
        e = i + 2;
    } else if has2(cs, i, '>', '=') {
        t = Token::Operator(Operator::GreaterThanOrEqual);
        e = i + 2;
    } else if c == '<' {
        t = Token::Operator(Operator::LessThan);
        e = i + 1;
    } else if c == '>' {
        t = Token::Operator(Operator::GreaterThan);
        e = i + 1;
    } else if ('a' <= c && c <= 'z') || ('A' <= c && c <= 'Z') || c == '_' {
        e = scan_run(cs, i, CharClass::Word);
        t = Token::Identifier(code.substring_char(i, e).to_owned());
    } else {
        return Err(LexError::InvalidToken(code.substring_char(i, n).to_owned()));
    }
    Ok((t, e))
}

impl Token {
    /// Splits `code` into tokens, whitespace and comments included. At each
    /// point the first rule that matches, in the order of `token_end`, is taken.
    pub fn extract_tokens(code: &str) -> (r: Result<Vec<Token>, LexError>)
        ensures
            match r {
                Ok(v) => lexes(code@, 0, code@.len() as int, v@),
                Err(LexError::InvalidToken(rest)) => exists|v: Seq<Token>, k: int|
                    #![trigger lexes(code@, 0, k, v)]
                    lexes(code@, 0, k, v) && 0 <= k < code@.len() && token_end(code@, k) == k
                        && rest@ == code@.skip(k),
                Err(LexError::IntegerOutOfRange(rest)) => exists|v: Seq<Token>, k: int|
                    #![trigger lexes(code@, 0, k, v)]
                    lexes(code@, 0, k, v) && integer_too_large(code@, k) && rest@ == code@.skip(k),
            },
    {
        let mut cs: Vec<char> = Vec::new();
        for c in it: code.chars()
            invariant
                cs@ == it.seq().take(it.index() as int),
        {
            cs.push(c);
        }
        assert(cs@ =~= code@);
        let n = cs.len();
        let mut tokens: Vec<Token> = Vec::new();
        let mut i: usize = 0;
        while i < n
            invariant
                n == cs@.len(),
                cs@ == code@,
                i <= n,
                lexes(cs@, 0, i as int, tokens@),
            decreases n - i,
        {
            let (t, e) = match find_next_token(code, &cs, i) {
                Ok(p) => p,
                Err(err) => {
                    assert(lexes(code@, 0, i as int, tokens@));
                    return Err(err);
                },
            };
            proof {
                lemma_lexes_push(cs@, 0, i as int, tokens@, t);
            }
            tokens.push(t);
            i = e;
        }
        Ok(tokens)
    }
}

proof fn lemma_run_end_covers(s: Seq<char>, i: int, k: CharClass)
    requires
        0 <= i <= s.len(),
        forall|j: int| i <= j < s.len() ==> in_class(k, #[trigger] s[j]),
    ensures
        run_end(s, i, k) == s.len(),
    decreases s.len() - i,
{
    if i < s.len() {
        lemma_run_end_covers(s, i + 1, k);
    }
}

/// The decimal text of a non-negative integer that fits in an `i64` always
/// tokenizes, and into that one integer literal alone: no whitespace, no
/// second token.
pub proof fn law_integer_literal(s: Seq<char>, k: int, v: Seq<Token>)
    requires
        s.len() > 0,
        forall|j: int| 0 <= j < s.len() ==> is_digit_char(#[trigger] s[j]),
        digits_value(s, 0, s.len() as int) <= i64::MAX,
        lexes(s, 0, k, v),
    ensures
        k < s.len() ==> step_ok(s, k),
        k == s.len() ==> v == seq![Token::Literal(Literal::Integer(digits_value(s, 0, s.len() as int) as i64))],
{
    lemma_run_end_covers(s, 0, CharClass::Digit);
    assert(token_end(s, 0) == s.len());
    if v.len() > 0 {
        let rest = v.drop_first();
        assert(lexes(s, s.len() as int, k, rest));
        if rest.len() > 0 {
            assert(token_end(s, s.len() as int) == s.len());
            assert(false);
        }
        assert(v =~= seq![v[0]]);
    }
}

} // verus!
