//! Lexer for the Sprig language
use vstd::prelude::*;

verus! {

// ---------------------------------------------------------------------------
// Character classes

/// Whether `c` has the Unicode White_Space property, the class that
/// `char::is_whitespace` tests: U+0009..U+000D, U+0020, U+0085, U+00A0, U+1680,
/// U+2000..U+200A, U+2028, U+2029, U+202F, U+205F and U+3000.
pub open spec fn white_space(c: char) -> bool {
    ||| ('\u{9}' <= c && c <= '\u{d}')
    ||| c == ' '
    ||| c == '\u{85}'
    ||| c == '\u{a0}'
    ||| c == '\u{1680}'
    ||| ('\u{2000}' <= c && c <= '\u{200a}')
    ||| c == '\u{2028}'
    ||| c == '\u{2029}'
    ||| c == '\u{202f}'
    ||| c == '\u{205f}'
    ||| c == '\u{3000}'
}

/// Whitespace in the sense of `char::is_whitespace`.
fn is_whitespace(c: char) -> (r: bool)
    ensures
        r == white_space(c),
{
    ('\u{9}' <= c && c <= '\u{d}') || c == ' ' || c == '\u{85}' || c == '\u{a0}' || c
        == '\u{1680}' || ('\u{2000}' <= c && c <= '\u{200a}') || c == '\u{2028}' || c
        == '\u{2029}' || c == '\u{202f}' || c == '\u{205f}' || c == '\u{3000}'
}

/// Whether `c` has the Unicode Alphabetic property (what `char::is_alphabetic` answers).
pub uninterp spec fn char_is_alphabetic(c: char) -> bool;

/// What `char::is_alphanumeric` answers for `c`.
pub uninterp spec fn char_is_alphanumeric(c: char) -> bool;

/// `char::is_alphabetic`. Its answer follows the Unicode Alphabetic table, which the
/// contract names (`char_is_alphabetic`) without stating.
#[verifier::external_body]
fn is_alphabetic(c: char) -> (r: bool)
    ensures
        r == char_is_alphabetic(c),
{
    c.is_alphabetic()
}

/// `char::is_alphanumeric`. Its answer follows the Unicode Alphabetic and Numeric
/// tables, which the contract names (`char_is_alphanumeric`) without stating.
#[verifier::external_body]
fn is_alphanumeric(c: char) -> (r: bool)
    ensures
        r == char_is_alphanumeric(c),
{
    c.is_alphanumeric()
}

/// `String::push`: the string gets `c` appended.
#[verifier::external_body]
fn string_push(s: &mut String, c: char)
    ensures
        final(s)@ == old(s)@.push(c),
{
    s.push(c)
}

/// An ASCII decimal digit.
pub open spec fn is_digit(c: char) -> bool {
    '0' <= c && c <= '9'
}

fn is_ascii_digit(c: char) -> (r: bool)
    ensures
        r == is_digit(c),
{
    c >= '0' && c <= '9'
}

/// Text to be lexed: its characters, and for each of them whether it is alphabetic
/// and whether it is alphanumeric.
#[verifier::ext_equal]
pub struct Text {
    pub chars: Seq<char>,
    pub alphabetic: Seq<bool>,
    pub alphanumeric: Seq<bool>,
}

impl Text {
    /// Each character has both of its classes.
    pub open spec fn wf(self) -> bool {
        &&& self.alphabetic.len() == self.chars.len()
        &&& self.alphanumeric.len() == self.chars.len()
    }

    /// The character at `p` may start an identifier.
    pub open spec fn ident_start(self, p: int) -> bool {
        self.alphabetic[p] || self.chars[p] == '_'
    }

    /// The character at `p` may continue an identifier.
    pub open spec fn ident_char(self, p: int) -> bool {
        self.alphanumeric[p] || self.chars[p] == '_'
    }
}

/// `s` with the classes that `char::is_alphabetic` and `char::is_alphanumeric` give.
pub open spec fn classify(s: Seq<char>) -> Text {
    Text {
        chars: s,
        alphabetic: s.map_values(|c: char| char_is_alphabetic(c)),
        alphanumeric: s.map_values(|c: char| char_is_alphanumeric(c)),
    }
}
// ---------------------------------------------------------------------------
// Tokens

/// Token types
#[derive(Debug, Clone, PartialEq)]
pub enum TokenKind {
    // Literals
    Integer(i64),
    Identifier(String),
    // Keywords
    Fn,
    Let,
    If,
    Else,
    While,
    Return,
    True,
    False,
    // Types
    Int,
    Bool,
    // Operators
    Plus,
    Minus,
    Star,
    Slash,
    Percent,
    Eq,
    Ne,
    Lt,
    Le,
    Gt,
    Ge,
    And,
    Or,
    Not,
    Assign,
    // Delimiters
    LParen,
    RParen,
    LBrace,
    RBrace,
    Comma,
    Colon,
    Arrow,
    Semicolon,
    // Special
    Eof,
}

/// A token with position information
#[derive(Debug, Clone)]
pub struct Token {
    pub kind: TokenKind,
    pub line: u32,
    pub col: u32,
}

impl Token {
    pub fn new(kind: TokenKind, line: u32, col: u32) -> (r: Self)
        ensures
            r.kind == kind,
            r.line == line,
            r.col == col,
    {
        Token { kind, line, col }
    }
}

// ---------------------------------------------------------------------------
// The lexical grammar

/// Line and column after reading `c` at line `lc.0`, column `lc.1`.
pub open spec fn advance(c: char, lc: (int, int)) -> (int, int) {
    if c == '\n' {
        (lc.0 + 1, 1)
    } else {
        (lc.0, lc.1 + 1)
    }
}

/// Line and column (both from 1) after reading the first `n` characters of `s`.
pub open spec fn position(s: Seq<char>, n: int) -> (int, int)
    decreases n,
{
    if n <= 0 {
        (1, 1)
    } else {
        advance(s[n - 1], position(s, n - 1))
    }
}

/// Line and column after reading the first `k` characters of `s` both fit in `u32`.
pub open spec fn position_fits(s: Seq<char>, k: int) -> bool {
    position(s, k).0 <= u32::MAX && position(s, k).1 <= u32::MAX
}

/// Line and column fit in `u32` at every point up to `n` characters into `s`.
pub open spec fn fits_upto(s: Seq<char>, n: int) -> bool {
    forall|k: int| 0 <= k <= n ==> #[trigger] position_fits(s, k)
}

/// End of a line comment whose text starts at `p`: the next newline, or the end.
pub open spec fn comment_end(s: Seq<char>, p: int) -> int
    decreases s.len() - p,
{
    if 0 <= p < s.len() && s[p] != '\n' {
        comment_end(s, p + 1)
    } else {
        p
    }
}

/// A line comment (`//`) starts at `p`.
pub open spec fn starts_comment(s: Seq<char>, p: int) -> bool {
    p + 1 < s.len() && s[p] == '/' && s[p + 1] == '/'
}

/// Position of the first character at or after `p` that is neither whitespace nor
/// inside a line comment.
pub open spec fn ws_end(s: Seq<char>, p: int) -> int
    decreases s.len() - p,
{
    if p < 0 || p >= s.len() {
        p
    } else if white_space(s[p]) {
        ws_end(s, p + 1)
    } else if starts_comment(s, p) {
        proof {
            lemma_comment_end_bounds(s, p + 1);
        }
        ws_end(s, comment_end(s, p))
    } else {
        p
    }
}

/// End of the run of ASCII digits from `p` on.
pub open spec fn digits_end(s: Seq<char>, p: int) -> int
    decreases s.len() - p,
{
    if 0 <= p < s.len() && is_digit(s[p]) {
        digits_end(s, p + 1)
    } else {
        p
    }
}

/// End of the run of identifier characters from `p` on.
pub open spec fn ident_end(t: Text, p: int) -> int
    decreases t.chars.len() - p,
{
    if 0 <= p < t.chars.len() && t.ident_char(p) {
        ident_end(t, p + 1)
    } else {
        p
    }
}

/// The kind of a one-character token.
pub open spec fn simple_kind(c: char) -> Option<TokenKind> {
    if c == '+' {
        Some(TokenKind::Plus)
    } else if c == '*' {
        Some(TokenKind::Star)
    } else if c == '/' {
        Some(TokenKind::Slash)
    } else if c == '%' {
        Some(TokenKind::Percent)
    } else if c == '(' {
        Some(TokenKind::LParen)
    } else if c == ')' {
        Some(TokenKind::RParen)
    } else if c == '{' {
        Some(TokenKind::LBrace)
    } else if c == '}' {
        Some(TokenKind::RBrace)
    } else if c == ',' {
        Some(TokenKind::Comma)
    } else if c == ':' {
        Some(TokenKind::Colon)
    } else if c == ';' {
        Some(TokenKind::Semicolon)
    } else {
        None
    }
}

/// `c` starts an operator that may take a second character.
pub open spec fn is_pair_start(c: char) -> bool {
    c == '-' || c == '=' || c == '!' || c == '<' || c == '>' || c == '&' || c == '|'
}

/// The second character of the two-character operator that starts with `c`.
pub open spec fn pair_second(c: char) -> char {
    if c == '-' {
        '>'
    } else if c == '&' {
        '&'
    } else if c == '|' {
        '|'
    } else {
        '='
    }
}

/// The kind of the operator that starts with `c`, with (`two`) or without its second
/// character; `None` where `&` or `|` stands alone.
pub open spec fn pair_kind(c: char, two: bool) -> Option<TokenKind> {
    if c == '-' {
        Some(if two { TokenKind::Arrow } else { TokenKind::Minus })
    } else if c == '=' {
        Some(if two { TokenKind::Eq } else { TokenKind::Assign })
    } else if c == '!' {
        Some(if two { TokenKind::Ne } else { TokenKind::Not })
    } else if c == '<' {
        Some(if two { TokenKind::Le } else { TokenKind::Lt })
    } else if c == '>' {
        Some(if two { TokenKind::Ge } else { TokenKind::Gt })
    } else if c == '&' {
        if two { Some(TokenKind::And) } else { None }
    } else {
        if two { Some(TokenKind::Or) } else { None }
    }
}

/// The character after `p` completes the two-character operator that starts at `p`.
pub open spec fn pair_follows(s: Seq<char>, p: int) -> bool {
    p + 1 < s.len() && s[p + 1] == pair_second(s[p])
}

/// The keyword that word `w` spells, if any.
pub open spec fn keyword(w: Seq<char>) -> Option<TokenKind> {
    if w == seq!['f', 'n'] {
        Some(TokenKind::Fn)
    } else if w == seq!['l', 'e', 't'] {
        Some(TokenKind::Let)
    } else if w == seq!['i', 'f'] {
        Some(TokenKind::If)
    } else if w == seq!['e', 'l', 's', 'e'] {
        Some(TokenKind::Else)
    } else if w == seq!['w', 'h', 'i', 'l', 'e'] {
        Some(TokenKind::While)
    } else if w == seq!['r', 'e', 't', 'u', 'r', 'n'] {
        Some(TokenKind::Return)
    } else if w == seq!['t', 'r', 'u', 'e'] {
        Some(TokenKind::True)
    } else if w == seq!['f', 'a', 'l', 's', 'e'] {
        Some(TokenKind::False)
    } else if w == seq!['i', 'n', 't'] {
        Some(TokenKind::Int)
    } else if w == seq!['b', 'o', 'o', 'l'] {
        Some(TokenKind::Bool)
    } else {
        None
    }
}

/// How keyword kind `k` is spelled; empty for a kind that is no keyword.
pub open spec fn spelling(k: TokenKind) -> Seq<char> {
    match k {
        TokenKind::Fn => seq!['f', 'n'],
        TokenKind::Let => seq!['l', 'e', 't'],
        TokenKind::If => seq!['i', 'f'],
        TokenKind::Else => seq!['e', 'l', 's', 'e'],
        TokenKind::While => seq!['w', 'h', 'i', 'l', 'e'],
        TokenKind::Return => seq!['r', 'e', 't', 'u', 'r', 'n'],
        TokenKind::True => seq!['t', 'r', 'u', 'e'],
        TokenKind::False => seq!['f', 'a', 'l', 's', 'e'],
        TokenKind::Int => seq!['i', 'n', 't'],
        TokenKind::Bool => seq!['b', 'o', 'o', 'l'],
        _ => Seq::empty(),
    }
}

/// A word is a keyword exactly when it is spelled as one: a word read as keyword `k`
/// is `k`'s spelling letter for letter, and each keyword's spelling is read as that
/// keyword. Every other word (such as `i`, `If` or `lets`) is no keyword.
pub proof fn lemma_keyword_spelling(w: Seq<char>, k: TokenKind)
    ensures
        keyword(w) == Some(k) ==> spelling(k) == w,
        spelling(k).len() > 0 ==> keyword(spelling(k)) == Some(k),
        keyword(w) is Some ==> 2 <= w.len() <= 6,
{
    if spelling(k).len() > 0 {
        let t = spelling(k);
        assert(t == seq!['f', 'n'] || t == seq!['l', 'e', 't'] || t == seq!['i', 'f'] || t
            == seq!['e', 'l', 's', 'e'] || t == seq!['w', 'h', 'i', 'l', 'e'] || t == seq![
            'r',
            'e',
            't',
            'u',
            'r',
            'n',
        ] || t == seq!['t', 'r', 'u', 'e'] || t == seq!['f', 'a', 'l', 's', 'e'] || t == seq![
            'i',
            'n',
            't',
        ] || t == seq!['b', 'o', 'o', 'l']);
    }
}

/// Where the token that starts at `p` ends. A number token swallows all the digits
/// that follow its first one.
pub open spec fn token_end(t: Text, p: int) -> int {
    let c = t.chars[p];
    if simple_kind(c) is Some {
        p + 1
    } else if is_pair_start(c) {
        if pair_follows(t.chars, p) {
            p + 2
        } else {
            p + 1
        }
    } else if is_digit(c) {
        digits_end(t.chars, p + 1)
    } else {
        ident_end(t, p + 1)
    }
}

/// The character at `p` starts a token (or the input ends there): it is an operator or
/// delimiter (`&` and `|` only when doubled), a digit, a letter or `_`.
pub open spec fn lexable_at(t: Text, p: int) -> bool {
    p < 0 || p >= t.chars.len() || {
        let c = t.chars[p];
        if simple_kind(c) is Some {
            true
        } else if is_pair_start(c) {
            pair_kind(c, pair_follows(t.chars, p)) is Some
        } else {
            is_digit(c) || t.ident_start(p)
        }
    }
}

/// `k` is the kind of the token that starts at `p`. A number token has the value of
/// its first digit; a word is a keyword or else an identifier with the word's text.
pub open spec fn kind_at(k: TokenKind, t: Text, p: int) -> bool {
    let c = t.chars[p];
    if simple_kind(c) is Some {
        simple_kind(c) == Some(k)
    } else if is_pair_start(c) {
        pair_kind(c, pair_follows(t.chars, p)) == Some(k)
    } else if is_digit(c) {
        k == TokenKind::Integer((c as int - '0' as int) as i64)
    } else {
        let w = t.chars.subrange(p, token_end(t, p));
        match keyword(w) {
            Some(kw) => k == kw,
            None => k matches TokenKind::Identifier(name) && name@ == w,
        }
    }
}

/// How far a read from `p` goes: past the whitespace and comments, and past the token
/// after them where one can be read there.
pub open spec fn read_end(t: Text, p: int) -> int {
    let q = ws_end(t.chars, p);
    if q >= t.chars.len() || !lexable_at(t, q) {
        q
    } else {
        token_end(t, q)
    }
}

/// Where each token of `t` from position `p` on starts, the last being where the
/// input ends (the end-of-file token).
pub open spec fn token_starts(t: Text, p: int) -> Seq<int>
    decreases t.chars.len() + 2 - p,
{
    if p < 0 || p > t.chars.len() {
        seq![p]
    } else {
        proof {
            lemma_ws_end_bounds(t.chars, p);
        }
        let q = ws_end(t.chars, p);
        if q >= t.chars.len() {
            seq![q]
        } else {
            proof {
                lemma_token_end_bounds(t, q);
            }
            seq![q] + token_starts(t, token_end(t, q))
        }
    }
}

/// Every token of `t` from position `p` on can be read.
pub open spec fn all_lexable(t: Text, p: int) -> bool
    decreases t.chars.len() + 2 - p,
{
    if p < 0 || p > t.chars.len() {
        true
    } else {
        proof {
            lemma_ws_end_bounds(t.chars, p);
        }
        let q = ws_end(t.chars, p);
        lexable_at(t, q) && (q < t.chars.len() ==> {
            proof {
                lemma_token_end_bounds(t, q);
            }
            all_lexable(t, token_end(t, q))
        })
    }
}

/// `tok` is the token read from position `p` on, after which the lexer stands at `p2`.
pub open spec fn token_read(t: Text, p: int, tok: Token, p2: int) -> bool {
    let q = ws_end(t.chars, p);
    &&& (tok.line as int, tok.col as int) == position(t.chars, q)
    &&& if q >= t.chars.len() {
        &&& tok.kind is Eof
        &&& p2 == q
    } else {
        &&& kind_at(tok.kind, t, q)
        &&& p2 == token_end(t, q)
    }
}

/// `tokens` are all the tokens of `t` from position `p` on, up to and including the
/// end-of-file token, after which the lexer stands at `p2`.
pub open spec fn tokens_read(t: Text, p: int, tokens: Seq<Token>, p2: int) -> bool {
    let st = token_starts(t, p);
    &&& tokens.len() == st.len()
    &&& forall|i: int|
        0 <= i < tokens.len() ==> (tokens[i].line as int, tokens[i].col as int) == position(
            t.chars,
            #[trigger] st[i],
        )
    &&& forall|i: int| 0 <= i < tokens.len() - 1 ==> kind_at(#[trigger] tokens[i].kind, t, st[i])
    &&& tokens[tokens.len() - 1].kind is Eof
    &&& forall|i: int| 0 <= i < tokens.len() - 1 ==> !(#[trigger] tokens[i].kind is Eof)
    &&& p2 == st.last()
}

/// `tokens` are what reads of one token at a time from `p` on give, up to and
/// including the first end-of-file token, each read starting where the last ended;
/// after them the lexer stands at `p2`.
pub open spec fn read_one_by_one(t: Text, p: int, tokens: Seq<Token>, p2: int) -> bool
    decreases tokens.len(),
{
    &&& tokens.len() > 0
    &&& token_read(t, p, tokens[0], read_end(t, p))
    &&& if tokens.len() == 1 {
        &&& tokens[0].kind is Eof
        &&& p2 == read_end(t, p)
    } else {
        &&& !(tokens[0].kind is Eof)
        &&& read_one_by_one(t, read_end(t, p), tokens.drop_first(), p2)
    }
}

// ---------------------------------------------------------------------------
// Facts about the grammar

pub proof fn lemma_comment_end_bounds(s: Seq<char>, p: int)
    requires
        0 <= p <= s.len(),
    ensures
        p <= comment_end(s, p) <= s.len(),
        comment_end(s, p) == s.len() || s[comment_end(s, p)] == '\n',
    decreases s.len() - p,
{
    if p < s.len() && s[p] != '\n' {
        lemma_comment_end_bounds(s, p + 1);
    }
}

/// The skipped text ends before a character that is neither whitespace nor the start
/// of a comment.
pub proof fn lemma_ws_end_bounds(s: Seq<char>, p: int)
    requires
        0 <= p <= s.len(),
    ensures
        p <= ws_end(s, p) <= s.len(),
        ws_end(s, p) < s.len() ==> !white_space(s[ws_end(s, p)]) && !starts_comment(
            s,
            ws_end(s, p),
        ),
    decreases s.len() - p,
{
    if p < s.len() {
        if white_space(s[p]) {
            lemma_ws_end_bounds(s, p + 1);
        } else if starts_comment(s, p) {
            lemma_comment_end_bounds(s, p + 1);
            lemma_ws_end_bounds(s, comment_end(s, p));
        }
    }
}

/// A run of digits is as long as it can be: all digits, and no digit after it.
pub proof fn lemma_digits_end_bounds(s: Seq<char>, p: int)
    requires
        0 <= p <= s.len(),
    ensures
        p <= digits_end(s, p) <= s.len(),
        forall|k: int| p <= k < digits_end(s, p) ==> is_digit(#[trigger] s[k]),
        digits_end(s, p) < s.len() ==> !is_digit(s[digits_end(s, p)]),
    decreases s.len() - p,
{
    if p < s.len() && is_digit(s[p]) {
        lemma_digits_end_bounds(s, p + 1);
    }
}

/// A run of identifier characters is as long as it can be: all of them identifier
/// characters, and none after it.
pub proof fn lemma_ident_end_bounds(t: Text, p: int)
    requires
        0 <= p <= t.chars.len(),
    ensures
        p <= ident_end(t, p) <= t.chars.len(),
        forall|k: int| p <= k < ident_end(t, p) ==> #[trigger] t.ident_char(k),
        ident_end(t, p) < t.chars.len() ==> !t.ident_char(ident_end(t, p)),
    decreases t.chars.len() - p,
{
    if p < t.chars.len() && t.ident_char(p) {
        lemma_ident_end_bounds(t, p + 1);
    }
}

pub proof fn lemma_token_end_bounds(t: Text, p: int)
    requires
        0 <= p < t.chars.len(),
    ensures
        p < token_end(t, p) <= t.chars.len() + 1,
        lexable_at(t, p) ==> token_end(t, p) <= t.chars.len(),
{
    lemma_digits_end_bounds(t.chars, p + 1);
    lemma_ident_end_bounds(t, p + 1);
}

/// A read goes no further back than where it starts, and no further on than the end.
pub proof fn lemma_read_end_bounds(t: Text, p: int)
    requires
        0 <= p <= t.chars.len(),
    ensures
        ws_end(t.chars, p) <= read_end(t, p) <= t.chars.len(),
{
    lemma_ws_end_bounds(t.chars, p);
    let q = ws_end(t.chars, p);
    if q < t.chars.len() {
        lemma_token_end_bounds(t, q);
    }
}

/// Line and column grow by at most one per character read.
pub proof fn lemma_position_bounds(s: Seq<char>, n: int)
    requires
        0 <= n,
    ensures
        1 <= position(s, n).0,
        1 <= position(s, n).1,
        position(s, n).0 + position(s, n).1 <= n + 2,
    decreases n,
{
    if n > 0 {
        lemma_position_bounds(s, n - 1);
    }
}

/// In a text shorter than `u32::MAX` characters, line and column always fit in `u32`.
pub proof fn lemma_short_text_fits(s: Seq<char>)
    requires
        s.len() < u32::MAX,
    ensures
        fits_upto(s, s.len() as int),
{
    assert forall|k: int| 0 <= k <= s.len() implies #[trigger] position_fits(s, k) by {
        lemma_position_bounds(s, k);
    }
}

/// A token's kind is never the end-of-file kind.
pub proof fn lemma_kind_not_eof(k: TokenKind, t: Text, p: int)
    requires
        kind_at(k, t, p),
    ensures
        !(k is Eof),
{
}

/// Once the end-of-file token has been read, every further read gives it again, from
/// the same position, and moves nowhere.
pub proof fn lemma_eof_repeats(t: Text, p: int, tok: Token, p2: int, tok2: Token, p3: int)
    requires
        0 <= p <= t.chars.len(),
        token_read(t, p, tok, p2),
        tok.kind is Eof,
        token_read(t, p2, tok2, p3),
    ensures
        tok2.kind is Eof,
        p3 == p2,
        (tok2.line, tok2.col) == (tok.line, tok.col),
{
    lemma_ws_end_bounds(t.chars, p);
    let q = ws_end(t.chars, p);
    if q < t.chars.len() {
        lemma_kind_not_eof(tok.kind, t, q);
    }
}

/// Reading all tokens at once gives what reading them one at a time gives, and the
/// other way round: on text whose tokens can all be read, `tokens_read` (what
/// `tokenize` returns) and `read_one_by_one` (what repeated `next_token` calls return,
/// up to and including the first end-of-file token) hold of the same tokens. After
/// them, a further read gives the end-of-file token again and moves nowhere.
pub proof fn lemma_tokenize_reads_one_by_one(t: Text, p: int, tokens: Seq<Token>, p2: int)
    requires
        0 <= p <= t.chars.len(),
        all_lexable(t, p),
    ensures
        tokens_read(t, p, tokens, p2) <==> read_one_by_one(t, p, tokens, p2),
        tokens_read(t, p, tokens, p2) ==> forall|tok: Token, p3: int|
            #[trigger] token_read(t, p2, tok, p3) ==> tok.kind is Eof && p3 == p2,
    decreases t.chars.len() + 2 - p,
{
    lemma_ws_end_bounds(t.chars, p);
    let q = ws_end(t.chars, p);
    let st = token_starts(t, p);
    if q >= t.chars.len() {
        assert(st == seq![q]);
        assert(read_end(t, p) == q);
        if tokens_read(t, p, tokens, p2) {
            assert(tokens.len() == 1);
            assert(st[0] == q);
            assert(read_one_by_one(t, p, tokens, p2));
        }
        if read_one_by_one(t, p, tokens, p2) {
            if tokens.len() > 1 {
                lemma_kind_not_eof(tokens[0].kind, t, q);
                assert(false);
            }
            assert(st[0] == q);
            assert(tokens_read(t, p, tokens, p2));
        }
        if tokens_read(t, p, tokens, p2) {
            assert forall|tok: Token, p3: int| #[trigger] token_read(t, p2, tok, p3) implies tok.kind
                is Eof && p3 == p2 by {
                lemma_ws_end_bounds(t.chars, p2);
            }
        }
    } else {
        lemma_token_end_bounds(t, q);
        let e = token_end(t, q);
        assert(read_end(t, p) == e);
        let rest = token_starts(t, e);
        assert(st == seq![q] + rest);
        lemma_token_starts_nonempty(t, e);
        lemma_tokenize_reads_one_by_one(t, e, tokens.drop_first(), p2);
        if tokens_read(t, p, tokens, p2) {
            let tl = tokens.drop_first();
            assert(st[0] == q);
            assert((tokens[0].line as int, tokens[0].col as int) == position(t.chars, st[0]));
            assert(kind_at(tokens[0].kind, t, st[0]));
            assert(!(tokens[0].kind is Eof));
            assert forall|i: int| 0 <= i < tl.len() implies (tl[i].line as int, tl[i].col as int)
                == position(t.chars, #[trigger] rest[i]) by {
                assert(tl[i] == tokens[i + 1]);
                assert(rest[i] == st[i + 1]);
            }
            assert forall|i: int| 0 <= i < tl.len() - 1 implies kind_at(
                #[trigger] tl[i].kind,
                t,
                rest[i],
            ) by {
                assert(tl[i] == tokens[i + 1]);
                assert(rest[i] == st[i + 1]);
            }
            assert forall|i: int| 0 <= i < tl.len() - 1 implies !(#[trigger] tl[i].kind is Eof) by {
                assert(tl[i] == tokens[i + 1]);
            }
            assert(tl[tl.len() - 1] == tokens[tokens.len() - 1]);
            assert(st.last() == rest.last());
            assert(tokens_read(t, e, tl, p2));
            assert(read_one_by_one(t, p, tokens, p2));
        }
        if read_one_by_one(t, p, tokens, p2) {
            let tl = tokens.drop_first();
            if tokens.len() == 1 {
                lemma_kind_not_eof(tokens[0].kind, t, q);
                assert(false);
            }
            assert(tokens_read(t, e, tl, p2));
            assert(tokens.len() == st.len());
            assert forall|i: int| 0 <= i < tokens.len() implies (
            tokens[i].line as int,
            tokens[i].col as int,
            ) == position(t.chars, #[trigger] st[i]) by {
                if i > 0 {
                    assert(tokens[i] == tl[i - 1]);
                    assert(st[i] == rest[i - 1]);
                }
            }
            assert forall|i: int| 0 <= i < tokens.len() - 1 implies kind_at(
                #[trigger] tokens[i].kind,
                t,
                st[i],
            ) by {
                if i > 0 {
                    assert(tokens[i] == tl[i - 1]);
                    assert(st[i] == rest[i - 1]);
                }
            }
            assert forall|i: int| 0 <= i < tokens.len() - 1 implies !(
            #[trigger] tokens[i].kind is Eof) by {
                if i > 0 {
                    assert(tokens[i] == tl[i - 1]);
                }
            }
            assert(tokens[tokens.len() - 1] == tl[tl.len() - 1]);
            assert(st.last() == rest.last());
            assert(tokens_read(t, p, tokens, p2));
        }
    }
}

/// There is always at least the end-of-file token.
pub proof fn lemma_token_starts_nonempty(t: Text, p: int)
    ensures
        token_starts(t, p).len() >= 1,
    decreases t.chars.len() + 2 - p,
{
    if 0 <= p <= t.chars.len() {
        lemma_ws_end_bounds(t.chars, p);
        let q = ws_end(t.chars, p);
        if q < t.chars.len() {
            lemma_token_end_bounds(t, q);
            lemma_token_starts_nonempty(t, token_end(t, q));
        }
    }
}

// ---------------------------------------------------------------------------
// The lexer

/// Lexer state
pub struct Lexer {
    chars: Vec<char>,
    alphabetic: Vec<bool>,
    alphanumeric: Vec<bool>,
    pos: usize,
    line: u32,
    col: u32,
}

impl Lexer {
    /// The text being lexed.
    pub closed spec fn text(&self) -> Text {
        Text { chars: self.chars@, alphabetic: self.alphabetic@, alphanumeric: self.alphanumeric@ }
    }

    /// How many characters have been read.
    pub closed spec fn pos(&self) -> nat {
        self.pos as nat
    }

    /// Line and column of the next character to read.
    pub closed spec fn location(&self) -> (int, int) {
        (self.line as int, self.col as int)
    }

    /// Invariant: the position lies in the text, each character has its classes, and
    /// line and column are those after reading up to the position.
    pub closed spec fn wf(&self) -> bool {
        &&& self.pos <= self.chars.len()
        &&& self.alphabetic.len() == self.chars.len()
        &&& self.alphanumeric.len() == self.chars.len()
        &&& position(self.chars@, self.pos as int) == (self.line as int, self.col as int)
    }

    /// What the invariant says in terms of the text and the position.
    pub proof fn lemma_wf(&self)
        requires
            self.wf(),
        ensures
            self.text().wf(),
            self.pos() <= self.text().chars.len(),
            self.location() == position(self.text().chars, self.pos() as int),
            position_fits(self.text().chars, self.pos() as int),
    {
    }

    /// A lexer at the start of `input`, whose characters have the classes that
    /// `char::is_alphabetic` and `char::is_alphanumeric` give them.
    pub fn new(input: &str) -> (lx: Self)
        ensures
            lx.wf(),
            lx.text() == classify(input@),
            lx.pos() == 0,
    {
        let mut alphabetic: Vec<bool> = Vec::new();
        let mut alphanumeric: Vec<bool> = Vec::new();
        for c in it: input.chars()
            invariant
                alphabetic@ == it.seq().take(it.index() as int).map_values(
                    |c: char| char_is_alphabetic(c),
                ),
                alphanumeric@ == it.seq().take(it.index() as int).map_values(
                    |c: char| char_is_alphanumeric(c),
                ),
        {
            let ghost done = it.seq().take(it.index() as int);
            assert(it.seq().take(it.index() + 1) == done.push(c));
            alphabetic.push(is_alphabetic(c));
            alphanumeric.push(is_alphanumeric(c));
            assert(alphabetic@ =~= done.push(c).map_values(|c: char| char_is_alphabetic(c)));
            assert(alphanumeric@ =~= done.push(c).map_values(|c: char| char_is_alphanumeric(c)));
        }
        Lexer::from_classified(input, alphabetic, alphanumeric)
    }

    /// A lexer at the start of `input`, whose characters have the classes given: the
    /// `i`-th character is alphabetic where `alphabetic[i]` is, and alphanumeric where
    /// `alphanumeric[i]` is.
    pub fn from_classified(input: &str, alphabetic: Vec<bool>, alphanumeric: Vec<bool>) -> (lx:
        Self)
        requires
            alphabetic@.len() == input@.len(),
            alphanumeric@.len() == input@.len(),
        ensures
            lx.wf(),
            lx.text() == (Text { chars: input@, alphabetic: alphabetic@, alphanumeric: alphanumeric@ }),
            lx.pos() == 0,
    {
        let mut chars: Vec<char> = Vec::new();
        for c in it: input.chars()
            invariant
                chars@ == it.seq().take(it.index() as int),
        {
            chars.push(c);
        }
        Lexer { chars, alphabetic, alphanumeric, pos: 0, line: 1, col: 1 }
    }

    fn peek_char(&self) -> (r: Option<char>)
        requires
            self.wf(),
        ensures
            r == if self.pos() < self.text().chars.len() {
                Some(self.text().chars[self.pos() as int])
            } else {
                None::<char>
            },
    {
        if self.pos < self.chars.len() {
            Some(self.chars[self.pos])
        } else {
            None
        }
    }

    /// The next character is `c`.
    fn next_is(&self, c: char) -> (r: bool)
        requires
            self.wf(),
        ensures
            r == (self.pos() < self.text().chars.len() && self.text().chars[self.pos() as int]
                == c),
    {
        self.pos < self.chars.len() && self.chars[self.pos] == c
    }

    fn next_char(&mut self) -> (r: Option<char>)
        requires
            old(self).wf(),
            old(self).pos() < old(self).text().chars.len() ==> position_fits(
                old(self).text().chars,
                (old(self).pos() + 1) as int,
            ),
        ensures
            final(self).wf(),
            final(self).text() == old(self).text(),
            if old(self).pos() < old(self).text().chars.len() {
                &&& r == Some(old(self).text().chars[old(self).pos() as int])
                &&& final(self).pos() == old(self).pos() + 1
            } else {
                &&& r is None
                &&& final(self).pos() == old(self).pos()
            },
    {
        if self.pos >= self.chars.len() {
            return None;
        }
        let c = self.chars[self.pos];
        if c == '\n' {
            self.line = self.line + 1;
            self.col = 1;
        } else {
            self.col = self.col + 1;
        }
        self.pos = self.pos + 1;
        Some(c)
    }

    /// Skip whitespace and line comments.
    fn skip_whitespace(&mut self)
        requires
            old(self).wf(),
            fits_upto(old(self).text().chars, ws_end(old(self).text().chars, old(self).pos() as int)),
        ensures
            final(self).wf(),
            final(self).text() == old(self).text(),
            final(self).pos() == ws_end(old(self).text().chars, old(self).pos() as int),
    {
        let ghost s = self.chars@;
        let ghost target = ws_end(s, self.pos as int);
        proof {
            lemma_ws_end_bounds(s, self.pos as int);
        }
        while self.pos < self.chars.len()
            invariant
                self.wf(),
                self.text() == old(self).text(),
                self.chars@ == s,
                target == ws_end(s, old(self).pos() as int),
                ws_end(s, self.pos as int) == target,
                self.pos <= target <= s.len(),
                fits_upto(s, target),
            decreases s.len() - self.pos,
        {
            let c = self.chars[self.pos];
            if is_whitespace(c) {
                proof {
                    lemma_ws_end_bounds(s, self.pos + 1);
                    assert(position_fits(s, self.pos + 1));
                }
                self.next_char();
            } else if c == '/' {
                // Check for comments
                if self.pos + 1 < self.chars.len() && self.chars[self.pos + 1] == '/' {
                    // Line comment
                    let ghost p0 = self.pos as int;
                    proof {
                        lemma_comment_end_bounds(s, p0 + 1);
                        lemma_ws_end_bounds(s, comment_end(s, p0));
                    }
                    while self.pos < self.chars.len() && self.chars[self.pos] != '\n'
                        invariant
                            self.wf(),
                            self.text() == old(self).text(),
                            self.chars@ == s,
                            p0 <= self.pos,
                            comment_end(s, self.pos as int) == comment_end(s, p0),
                            comment_end(s, p0) <= target,
                            target == ws_end(s, comment_end(s, p0)),
                            fits_upto(s, target),
                        decreases s.len() - self.pos,
                    {
                        proof {
                            lemma_comment_end_bounds(s, self.pos + 1);
                            assert(position_fits(s, self.pos + 1));
                        }
                        self.next_char();
                    }
                    proof {
                        assert(self.pos > p0);
                        lemma_comment_end_bounds(s, self.pos as int);
                    }
                } else {
                    return;
                }
            } else {
                return;
            }
        }
    }

    /// Read the next token. Whitespace and line comments before it are skipped; at
    /// the end of the input the token is `Eof`, and further calls keep returning it.
    pub fn next_token(&mut self) -> (tok: Token)
        requires
            old(self).wf(),
            lexable_at(old(self).text(), ws_end(old(self).text().chars, old(self).pos() as int)),
            fits_upto(old(self).text().chars, read_end(old(self).text(), old(self).pos() as int)),
        ensures
            final(self).wf(),
            final(self).text() == old(self).text(),
            token_read(old(self).text(), old(self).pos() as int, tok, final(self).pos() as int),
    {
        let ghost t = self.text();
        let ghost s = self.chars@;
        proof {
            lemma_ws_end_bounds(s, self.pos as int);
            lemma_read_end_bounds(t, self.pos as int);
        }
        self.skip_whitespace();
        let line = self.line;
        let col = self.col;
        let start = self.pos;
        let ghost q = self.pos as int;
        if start < self.chars.len() {
            proof {
                lemma_token_end_bounds(t, q);
                assert(position_fits(s, q + 1));
            }
        }
        let c = match self.next_char() {
            Some(c) => c,
            None => {
                return Token::new(TokenKind::Eof, line, col);
            },
        };
        let ghost e = token_end(t, q);
        let kind = match c {
            '+' => TokenKind::Plus,
            '*' => TokenKind::Star,
            '/' => TokenKind::Slash,
            '%' => TokenKind::Percent,
            '(' => TokenKind::LParen,
            ')' => TokenKind::RParen,
            '{' => TokenKind::LBrace,
            '}' => TokenKind::RBrace,
            ',' => TokenKind::Comma,
            ':' => TokenKind::Colon,
            ';' => TokenKind::Semicolon,
            '-' => {
                if self.next_is('>') {
                    proof {
                        assert(position_fits(s, q + 2));
                    }
                    self.next_char();
                    TokenKind::Arrow
                } else {
                    TokenKind::Minus
                }
            },
            '=' => {
                if self.next_is('=') {
                    proof {
                        assert(position_fits(s, q + 2));
                    }
                    self.next_char();
                    TokenKind::Eq
                } else {
                    TokenKind::Assign
                }
            },
            '!' => {
                if self.next_is('=') {
                    proof {
                        assert(position_fits(s, q + 2));
                    }
                    self.next_char();
                    TokenKind::Ne
                } else {
                    TokenKind::Not
                }
            },
            '<' => {
                if self.next_is('=') {
                    proof {
                        assert(position_fits(s, q + 2));
                    }
                    self.next_char();
                    TokenKind::Le
                } else {
                    TokenKind::Lt
                }
            },
            '>' => {
                if self.next_is('=') {
                    proof {
                        assert(position_fits(s, q + 2));
                    }
                    self.next_char();
                    TokenKind::Ge
                } else {
                    TokenKind::Gt
                }
            },
            '&' => {
                if self.next_is('&') {
                    proof {
                        assert(position_fits(s, q + 2));
                    }
                    self.next_char();
                    TokenKind::And
                } else {
                    // a lone '&' is ruled out by `lexable_at`
                    unreached()
                }
            },
            '|' => {
                if self.next_is('|') {
                    proof {
                        assert(position_fits(s, q + 2));
                    }
                    self.next_char();
                    TokenKind::Or
                } else {
                    // a lone '|' is ruled out by `lexable_at`
                    unreached()
                }
            },
            c if is_ascii_digit(c) => {
                while self.pos < self.chars.len() && is_ascii_digit(self.chars[self.pos])
                    invariant
                        self.wf(),
                        self.text() == t,
                        self.chars@ == s,
                        0 <= q,
                        q + 1 <= self.pos,
                        digits_end(s, self.pos as int) == digits_end(s, q + 1),
                        e == digits_end(s, q + 1),
                        e <= s.len(),
                        fits_upto(s, e),
                    decreases s.len() - self.pos,
                {
                    proof {
                        lemma_digits_end_bounds(s, self.pos + 1);
                        assert(position_fits(s, self.pos + 1));
                    }
                    self.next_char();
                }
                // The value is that of the first digit
                let value: i64 = (c as u32 - '0' as u32) as i64;
                TokenKind::Integer(value)
            },
            c if self.alphabetic[start] || c == '_' => {
                let mut word: Vec<char> = Vec::new();
                let mut ident = String::new();
                word.push(c);
                string_push(&mut ident, c);
                assert(word@ =~= s.subrange(q, q + 1));
                while self.pos < self.chars.len() && (self.alphanumeric[self.pos]
                    || self.chars[self.pos] == '_')
                    invariant
                        self.wf(),
                        self.text() == t,
                        self.chars@ == s,
                        0 <= q,
                        q + 1 <= self.pos,
                        ident_end(t, self.pos as int) == ident_end(t, q + 1),
                        e == ident_end(t, q + 1),
                        e <= s.len(),
                        fits_upto(s, e),
                        word@ == s.subrange(q, self.pos as int),
                        ident@ == word@,
                    decreases s.len() - self.pos,
                {
                    let ch = self.chars[self.pos];
                    let ghost w0 = word@;
                    proof {
                        lemma_ident_end_bounds(t, self.pos + 1);
                        assert(position_fits(s, self.pos + 1));
                    }
                    assert(ch == s[self.pos as int]);
                    word.push(ch);
                    assert(word@ == w0.push(ch));
                    string_push(&mut ident, ch);
                    assert(word@ =~= s.subrange(q, self.pos + 1));
                    self.next_char();
                }
                match keyword_of(&word) {
                    Some(kw) => kw,
                    None => TokenKind::Identifier(ident),
                }
            },
            // any other character is ruled out by `lexable_at`
            _ => unreached(),
        };
        Token::new(kind, line, col)
    }

    /// Read all tokens up to and including the end-of-file token.
    pub fn tokenize(&mut self) -> (tokens: Vec<Token>)
        requires
            old(self).wf(),
            all_lexable(old(self).text(), old(self).pos() as int),
            fits_upto(old(self).text().chars, old(self).text().chars.len() as int),
        ensures
            final(self).wf(),
            final(self).text() == old(self).text(),
            tokens_read(old(self).text(), old(self).pos() as int, tokens@, final(self).pos() as int),
    {
        let ghost t = self.text();
        let ghost s = self.chars@;
        let ghost st = token_starts(t, self.pos as int);
        let mut tokens: Vec<Token> = Vec::new();
        loop
            invariant
                self.wf(),
                self.text() == t,
                self.chars@ == s,
                t == old(self).text(),
                fits_upto(s, s.len() as int),
                st == token_starts(t, old(self).pos() as int),
                all_lexable(t, self.pos as int),
                tokens.len() < st.len(),
                st == st.take(tokens.len() as int) + token_starts(t, self.pos as int),
                forall|i: int|
                    0 <= i < tokens.len() ==> (tokens[i].line as int, tokens[i].col as int)
                        == position(s, #[trigger] st[i]),
                forall|i: int| 0 <= i < tokens.len() ==> kind_at(#[trigger] tokens[i].kind, t, st[i]),
            decreases s.len() + 2 - self.pos,
        {
            let ghost p = self.pos as int;
            proof {
                lemma_ws_end_bounds(s, p);
                lemma_read_end_bounds(t, p);
                let q = ws_end(s, p);
                if q < s.len() {
                    lemma_token_end_bounds(t, q);
                }
            }
            let token = self.next_token();
            let is_eof = matches!(token.kind, TokenKind::Eof);
            tokens.push(token);
            if is_eof {
                proof {
                    assert(st =~= st.take(tokens.len() - 1) + seq![ws_end(s, p)]);
                    assert(token_starts(t, p) == seq![ws_end(s, p)]);
                    assert(forall|i: int| 0 <= i < tokens.len() - 1 ==> kind_at(#[trigger] tokens[i].kind, t, st[i]));
                    assert forall|i: int| 0 <= i < tokens.len() - 1 implies !(#[trigger] tokens[i].kind is Eof) by {
                        lemma_kind_not_eof(tokens[i].kind, t, st[i]);
                    }
                }
                return tokens;
            }
            proof {
                let q = ws_end(s, p);
                let n = tokens.len() - 1;
                assert(token_starts(t, p) == seq![q] + token_starts(t, token_end(t, q)));
                assert(st[n] == q);
                assert(st =~= st.take(tokens.len() as int) + token_starts(t, self.pos as int));
            }
        }
    }

    /// The character at the position starts a token, or the input ends there.
    fn can_lex_here(&self) -> (r: bool)
        requires
            self.wf(),
        ensures
            r == lexable_at(self.text(), self.pos() as int),
    {
        if self.pos >= self.chars.len() {
            return true;
        }
        let c = self.chars[self.pos];
        match c {
            '+' | '*' | '/' | '%' | '(' | ')' | '{' | '}' | ',' | ':' | ';' => true,
            '-' | '=' | '!' | '<' | '>' => true,
            '&' => self.pos + 1 < self.chars.len() && self.chars[self.pos + 1] == '&',
            '|' => self.pos + 1 < self.chars.len() && self.chars[self.pos + 1] == '|',
            _ => is_ascii_digit(c) || self.alphabetic[self.pos] || c == '_',
        }
    }

    /// Read the next token where `next_token` can: `None` where the next character
    /// starts no token (a lone `&` or `|`, or a character of no token class); the
    /// whitespace before it is then skipped and nothing else is read.
    pub fn try_next_token(&mut self) -> (r: Option<Token>)
        requires
            old(self).wf(),
            fits_upto(old(self).text().chars, read_end(old(self).text(), old(self).pos() as int)),
        ensures
            final(self).wf(),
            final(self).text() == old(self).text(),
            match r {
                Some(tok) => {
                    &&& lexable_at(old(self).text(), ws_end(old(self).text().chars, old(self).pos() as int))
                    &&& token_read(old(self).text(), old(self).pos() as int, tok, final(self).pos() as int)
                },
                None => {
                    &&& !lexable_at(old(self).text(), ws_end(old(self).text().chars, old(self).pos() as int))
                    &&& final(self).pos() == ws_end(old(self).text().chars, old(self).pos() as int)
                },
            },
    {
        let ghost t = self.text();
        let ghost s = self.chars@;
        proof {
            lemma_ws_end_bounds(s, self.pos as int);
            lemma_read_end_bounds(t, self.pos as int);
        }
        self.skip_whitespace();
        if !self.can_lex_here() {
            return None;
        }
        let ghost q = self.pos as int;
        assert(ws_end(s, q) == q);
        Some(self.next_token())
    }

    /// Read all tokens up to and including the end-of-file token, or `None` where some
    /// token cannot be read (then the lexer stands before it).
    pub fn try_tokenize(&mut self) -> (r: Option<Vec<Token>>)
        requires
            old(self).wf(),
            fits_upto(old(self).text().chars, old(self).text().chars.len() as int),
        ensures
            final(self).wf(),
            final(self).text() == old(self).text(),
            match r {
                Some(tokens) => {
                    &&& all_lexable(old(self).text(), old(self).pos() as int)
                    &&& tokens_read(old(self).text(), old(self).pos() as int, tokens@, final(self).pos() as int)
                },
                None => !all_lexable(old(self).text(), old(self).pos() as int),
            },
    {
        let ghost t = self.text();
        let ghost s = self.chars@;
        let ghost st = token_starts(t, self.pos as int);
        let mut tokens: Vec<Token> = Vec::new();
        loop
            invariant
                self.wf(),
                self.text() == t,
                self.chars@ == s,
                t == old(self).text(),
                fits_upto(s, s.len() as int),
                st == token_starts(t, old(self).pos() as int),
                all_lexable(t, old(self).pos() as int) == all_lexable(t, self.pos as int),
                tokens.len() < st.len(),
                st == st.take(tokens.len() as int) + token_starts(t, self.pos as int),
                forall|i: int|
                    0 <= i < tokens.len() ==> (tokens[i].line as int, tokens[i].col as int)
                        == position(s, #[trigger] st[i]),
                forall|i: int| 0 <= i < tokens.len() ==> kind_at(#[trigger] tokens[i].kind, t, st[i]),
            decreases s.len() + 2 - self.pos,
        {
            let ghost p = self.pos as int;
            proof {
                lemma_ws_end_bounds(s, p);
                lemma_read_end_bounds(t, p);
                let q = ws_end(s, p);
                if q < s.len() {
                    lemma_token_end_bounds(t, q);
                }
            }
            let token = match self.try_next_token() {
                Some(tok) => tok,
                None => {
                    return None;
                },
            };
            let is_eof = matches!(token.kind, TokenKind::Eof);
            tokens.push(token);
            if is_eof {
                proof {
                    assert(st =~= st.take(tokens.len() - 1) + seq![ws_end(s, p)]);
                    assert forall|i: int| 0 <= i < tokens.len() - 1 implies !(
                    #[trigger] tokens[i].kind is Eof) by {
                        lemma_kind_not_eof(tokens[i].kind, t, st[i]);
                    }
                }
                return Some(tokens);
            }
            proof {
                let q = ws_end(s, p);
                let n = tokens.len() - 1;
                assert(token_starts(t, p) == seq![q] + token_starts(t, token_end(t, q)));
                assert(st[n] == q);
                assert(st =~= st.take(tokens.len() as int) + token_starts(t, self.pos as int));
            }
        }
    }
}


/// The keyword that `word` spells, if any.
fn keyword_of(word: &Vec<char>) -> (r: Option<TokenKind>)
    ensures
        r == keyword(word@),
        r matches Some(k) ==> spelling(k) == word@,
{
    proof {
        if keyword(word@) is Some {
            lemma_keyword_spelling(word@, keyword(word@)->0);
        }
    }
    let n = word.len();
    if n == 2 && word[0] == 'f' && word[1] == 'n' {
        assert(word@ =~= seq!['f', 'n']);
        Some(TokenKind::Fn)
    } else if n == 3 && word[0] == 'l' && word[1] == 'e' && word[2] == 't' {
        assert(word@ =~= seq!['l', 'e', 't']);
        Some(TokenKind::Let)
    } else if n == 2 && word[0] == 'i' && word[1] == 'f' {
        assert(word@ =~= seq!['i', 'f']);
        Some(TokenKind::If)
    } else if n == 4 && word[0] == 'e' && word[1] == 'l' && word[2] == 's' && word[3] == 'e' {
        assert(word@ =~= seq!['e', 'l', 's', 'e']);
        Some(TokenKind::Else)
    } else if n == 5 && word[0] == 'w' && word[1] == 'h' && word[2] == 'i' && word[3] == 'l'
        && word[4] == 'e' {
        assert(word@ =~= seq!['w', 'h', 'i', 'l', 'e']);
        Some(TokenKind::While)
    } else if n == 6 && word[0] == 'r' && word[1] == 'e' && word[2] == 't' && word[3] == 'u'
        && word[4] == 'r' && word[5] == 'n' {
        assert(word@ =~= seq!['r', 'e', 't', 'u', 'r', 'n']);
        Some(TokenKind::Return)
    } else if n == 4 && word[0] == 't' && word[1] == 'r' && word[2] == 'u' && word[3] == 'e' {
        assert(word@ =~= seq!['t', 'r', 'u', 'e']);
        Some(TokenKind::True)
    } else if n == 5 && word[0] == 'f' && word[1] == 'a' && word[2] == 'l' && word[3] == 's'
        && word[4] == 'e' {
        assert(word@ =~= seq!['f', 'a', 'l', 's', 'e']);
        Some(TokenKind::False)
    } else if n == 3 && word[0] == 'i' && word[1] == 'n' && word[2] == 't' {
        assert(word@ =~= seq!['i', 'n', 't']);
        Some(TokenKind::Int)
    } else if n == 4 && word[0] == 'b' && word[1] == 'o' && word[2] == 'o' && word[3] == 'l' {
        assert(word@ =~= seq!['b', 'o', 'o', 'l']);
        Some(TokenKind::Bool)
    } else {
        None
    }
}

} // verus!
