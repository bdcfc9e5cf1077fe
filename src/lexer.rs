use std::collections::VecDeque;
use vstd::prelude::*;
use vstd::string::*;
use vstd::utf8::encode_utf8;

verus! {

/// The closed set of lexical categories.
#[derive(PartialEq, Eq, Structural, Debug, Clone, Copy)]
pub enum TokenType {
    TokenError,
    TokenEOF,
    TokenAtom,
    TokenConst,
    TokenNumber,
    TokenLPar,
    TokenRPar,
    TokenDot,
    TokenChar,
    TokenString,
    TokenQuote,
    TokenNewLine,
}

/// A lexeme: its category, the value of a number, and the raw text of
/// anything else (empty for a number).
#[derive(PartialEq, Eq, Debug)]
pub struct Token {
    pub num: i32,
    pub typ_: TokenType,
    pub text: String,
}

/// What a token is, as plain values.
pub struct TokenView {
    pub typ_: TokenType,
    pub num: i32,
    pub text: Seq<char>,
}

impl View for Token {
    type V = TokenView;

    open spec fn view(&self) -> TokenView {
        TokenView { typ_: self.typ_, num: self.num, text: self.text@ }
    }
}

impl Clone for Token {
    fn clone(&self) -> (r: Self)
        ensures
            r == *self,
    {
        Token { num: self.num, typ_: self.typ_, text: self.text.clone() }
    }
}


impl TokenView {
    /// A token that carries text only.
    pub open spec fn text_token(typ_: TokenType, text: Seq<char>) -> TokenView {
        TokenView { typ_, num: 0, text }
    }

    /// A number token: the value, and no text.
    pub open spec fn number_token(num: i32) -> TokenView {
        TokenView { typ_: TokenType::TokenNumber, num, text: Seq::empty() }
    }
}

/// Tokens as plain values.
pub open spec fn token_views(ts: Seq<Token>) -> Seq<TokenView> {
    ts.map_values(|t: Token| t@)
}

/// Why the tokenizer could not produce a token.
#[derive(PartialEq, Eq, Structural, Debug, Clone, Copy)]
pub enum LexError {
    /// A byte that is not a one-byte UTF-8 character (128 or more).
    InvalidByte(u8),
    /// A numeric lexeme that is not a 32-bit signed integer.
    InvalidNumber,
    /// The input ended right after an opening `"`.
    UnexpectedEof,
}

// ---------------------------------------------------------------------
// Characters
// ---------------------------------------------------------------------

/// White space: space, newline, tab, carriage return.
pub open spec fn is_space_byte(b: u8) -> bool {
    b == 32 || b == 10 || b == 9 || b == 13
}

/// A decimal digit.
pub open spec fn is_digit_byte(b: u8) -> bool {
    48 <= b <= 57
}

/// An ASCII letter or digit.
pub open spec fn is_alnum_byte(b: u8) -> bool {
    is_digit_byte(b) || (65 <= b <= 90) || (97 <= b <= 122)
}

/// The characters of bytes that are all below 128.
pub open spec fn ascii_chars(s: Seq<u8>) -> Seq<char> {
    Seq::new(s.len(), |i: int| s[i] as char)
}

fn is_space(b: u8) -> (r: bool)
    ensures
        r == is_space_byte(b),
{
    b == 32 || b == 10 || b == 9 || b == 13
}

fn is_number(b: u8) -> (r: bool)
    ensures
        r == is_digit_byte(b),
{
    48 <= b && b <= 57
}

fn is_alphanumeric(b: u8) -> (r: bool)
    ensures
        r == is_alnum_byte(b),
{
    is_number(b) || (65 <= b && b <= 90) || (97 <= b && b <= 122)
}

/// Relies on String::from_utf8: bytes below 128 are valid UTF-8, one
/// character each, so the conversion succeeds and keeps them in order.
#[verifier::external_body]
fn ascii_string(bytes: Vec<u8>) -> (r: String)
    requires
        forall|i: int| 0 <= i < bytes@.len() ==> bytes@[i] < 128,
    ensures
        r@ == ascii_chars(bytes@),
{
    String::from_utf8(bytes).unwrap()
}

// ---------------------------------------------------------------------
// Integers
// ---------------------------------------------------------------------

/// Every byte is a decimal digit.
pub open spec fn all_digits(s: Seq<u8>) -> bool {
    forall|i: int| 0 <= i < s.len() ==> is_digit_byte(#[trigger] s[i])
}

/// The value of a run of decimal digits.
pub open spec fn digits_value(s: Seq<u8>) -> int
    decreases s.len(),
{
    if s.len() == 0 {
        0
    } else {
        10 * digits_value(s.drop_last()) + (s.last() - 48)
    }
}

/// A signed decimal integer: an optional `+` or `-`, then one or more
/// digits, with a value that fits in 32 bits.
pub open spec fn parse_i32(s: Seq<u8>) -> Option<i32> {
    let signed = s.len() > 0 && (s[0] == 45 || s[0] == 43);
    let body = if signed { s.drop_first() } else { s };
    let v = if signed && s[0] == 45 { -digits_value(body) } else { digits_value(body) };
    if body.len() > 0 && all_digits(body) && i32::MIN <= v <= i32::MAX {
        Some(v as i32)
    } else {
        None
    }
}

proof fn lemma_digits_prefix(s: Seq<u8>, j: int)
    requires
        all_digits(s),
        0 <= j <= s.len(),
    ensures
        0 <= digits_value(s.subrange(0, j)) <= digits_value(s),
    decreases s.len(),
{
    if j == s.len() {
        assert(s.subrange(0, j) =~= s);
        if s.len() > 0 {
            lemma_digits_prefix(s.drop_last(), j - 1);
            assert(s.drop_last().subrange(0, j - 1) =~= s.drop_last());
        }
    } else {
        lemma_digits_prefix(s.drop_last(), j);
        assert(s.drop_last().subrange(0, j) =~= s.subrange(0, j));
    }
}

/// Reads a signed decimal integer, as `str::parse::<i32>` does.
fn parse_int(s: &[u8]) -> (r: Option<i32>)
    ensures
        r == parse_i32(s@),
{
    let n = s.len();
    let signed = n > 0 && (s[0] == 45 || s[0] == 43);
    let neg = signed && s[0] == 45;
    let start: usize = if signed { 1 } else { 0 };
    let ghost body = if signed { s@.drop_first() } else { s@ };
    assert(signed == (s@.len() > 0 && (s@[0] == 45 || s@[0] == 43)));
    assert(body =~= s@.subrange(start as int, n as int));
    if start == n {
        return None;
    }
    let mut i: usize = start;
    let mut v: i64 = 0;
    while i < n
        invariant
            start <= i <= n,
            n == s@.len(),
            body == s@.subrange(start as int, n as int),
            signed == (s@.len() > 0 && (s@[0] == 45 || s@[0] == 43)),
            body == (if signed { s@.drop_first() } else { s@ }),
            neg == (signed && s@[0] == 45),
            start == (if signed { 1usize } else { 0usize }),
            all_digits(s@.subrange(start as int, i as int)),
            v == digits_value(s@.subrange(start as int, i as int)),
            0 <= v <= 2147483648,
        decreases n - i,
    {
        let b = s[i];
        if b < 48 || b > 57 {
            assert(body[i - start] == b);
            return None;
        }
        let ghost prev = s@.subrange(start as int, i as int);
        let ghost next = s@.subrange(start as int, i + 1);
        assert(next.drop_last() =~= prev);
        v = v * 10 + (b - 48) as i64;
        if v > 2147483648 {
            proof {
                if all_digits(body) {
                    lemma_digits_prefix(body, i + 1 - start);
                    assert(body.subrange(0, i + 1 - start) =~= next);
                }
            }
            return None;
        }
        i = i + 1;
    }
    assert(s@.subrange(start as int, i as int) =~= body);
    let r: i64 = if neg { -v } else { v };
    if r > 2147483647 {
        None
    } else {
        Some(r as i32)
    }
}


/// Builds a token of category `typ_` from its lexeme. A number's lexeme
/// is read as a signed 32-bit integer and the token keeps no text; any
/// other token keeps `text`.
pub fn make_token(typ_: TokenType, text: String) -> (r: Result<Token, LexError>)
    ensures
        typ_ != TokenType::TokenNumber ==> (r matches Ok(t) && t@ == TokenView::text_token(
            typ_,
            text@,
        )),
        typ_ == TokenType::TokenNumber ==> match parse_i32(encode_utf8(text@)) {
            Some(v) => (r matches Ok(t) && t@ == TokenView::number_token(v)),
            None => r == Err::<Token, LexError>(LexError::InvalidNumber),
        },
{
    if typ_ == TokenType::TokenNumber {
        let bytes = text.as_str().as_bytes();
        match parse_int(bytes) {
            Some(num) => Ok(Token { num, typ_: TokenType::TokenNumber, text: String::new() }),
            None => Err(LexError::InvalidNumber),
        }
    } else {
        Ok(Token { num: 0, typ_, text })
    }
}

// ---------------------------------------------------------------------
// Builtins table
// ---------------------------------------------------------------------

/// The reserved names and the tokens that stand for them. A name is the
/// text of its token; the first entry with that text wins.
pub struct Builtins {
    entries: Vec<Token>,
}

/// The first token of the table whose text is `name`.
pub open spec fn find_builtin(tbl: Seq<TokenView>, name: Seq<char>) -> Option<TokenView>
    decreases tbl.len(),
{
    if tbl.len() == 0 {
        None
    } else if tbl[0].text == name {
        Some(tbl[0])
    } else {
        find_builtin(tbl.drop_first(), name)
    }
}

/// The standard table: the constants `#t` and `#f`, and the procedure
/// name `cons`.
pub open spec fn standard_builtins() -> Seq<TokenView> {
    seq![
        TokenView::text_token(TokenType::TokenConst, seq!['#', 't']),
        TokenView::text_token(TokenType::TokenConst, seq!['#', 'f']),
        TokenView::text_token(TokenType::TokenAtom, seq!['c', 'o', 'n', 's']),
    ]
}

/// An optional token as plain values.
pub open spec fn opt_token_view(t: Option<Token>) -> Option<TokenView> {
    match t {
        Some(t) => Some(t@),
        None => None,
    }
}

impl View for Builtins {
    type V = Seq<TokenView>;

    closed spec fn view(&self) -> Seq<TokenView> {
        token_views(self.entries@)
    }
}

impl Builtins {
    /// The standard table.
    pub fn new() -> (r: Builtins)
        ensures
            r@ == standard_builtins(),
    {
        let t = String::from_str("#t");
        let f = String::from_str("#f");
        let c = String::from_str("cons");
        proof {
            reveal_strlit("#t");
            reveal_strlit("#f");
            reveal_strlit("cons");
        }
        let entries = vec![
            Token { num: 0, typ_: TokenType::TokenConst, text: t },
            Token { num: 0, typ_: TokenType::TokenConst, text: f },
            Token { num: 0, typ_: TokenType::TokenAtom, text: c },
        ];
        assert(t@ =~= seq!['#', 't']);
        assert(f@ =~= seq!['#', 'f']);
        assert(c@ =~= seq!['c', 'o', 'n', 's']);
        let r = Builtins { entries };
        assert(r@ =~= standard_builtins());
        r
    }

    /// The token registered under `name`, if any.
    pub fn get(&self, name: &String) -> (r: Option<Token>)
        ensures
            opt_token_view(r) == find_builtin(self@, name@),
    {
        let n = self.entries.len();
        let mut i: usize = 0;
        assert(self@.subrange(0, n as int) =~= self@);
        while i < n
            invariant
                i <= n,
                n == self.entries@.len(),
                find_builtin(self@, name@) == find_builtin(self@.subrange(i as int, n as int), name@),
            decreases n - i,
        {
            let ghost rest = self@.subrange(i as int, n as int);
            assert(rest[0] == self.entries@[i as int]@);
            if self.entries[i].text == *name {
                return Some(self.entries[i].clone());
            }
            assert(rest.drop_first() =~= self@.subrange(i + 1, n as int));
            i = i + 1;
        }
        None
    }
}

// ---------------------------------------------------------------------
// Runs of characters
// ---------------------------------------------------------------------

/// Which bytes a run of one lexeme takes in.
#[derive(PartialEq, Eq, Structural, Clone, Copy)]
pub enum Run {
    /// Decimal digits.
    Digits,
    /// ASCII letters and digits.
    Alnum,
    /// Anything but white space.
    Lexeme,
    /// Anything but a line end.
    Comment,
}

impl Run {
    /// Whether the run takes in the byte `b`.
    pub open spec fn admits(self, b: u8) -> bool {
        match self {
            Run::Digits => is_digit_byte(b),
            Run::Alnum => is_alnum_byte(b),
            Run::Lexeme => !is_space_byte(b),
            Run::Comment => b != 10 && b != 13,
        }
    }

    fn accepts(self, b: u8) -> (r: bool)
        ensures
            r == self.admits(b),
    {
        match self {
            Run::Digits => is_number(b),
            Run::Alnum => is_alphanumeric(b),
            Run::Lexeme => !is_space(b),
            Run::Comment => b != 10 && b != 13,
        }
    }
}

/// The length of the longest prefix of `s` whose bytes are below 128 and
/// admitted by `run`.
pub open spec fn span(s: Seq<u8>, run: Run) -> nat
    decreases s.len(),
{
    if s.len() == 0 || s[0] >= 128 || !run.admits(s[0]) {
        0
    } else {
        1 + span(s.drop_first(), run)
    }
}

/// The run stops on a byte of 128 or more, which no character can be.
pub open spec fn run_fails(s: Seq<u8>, run: Run) -> bool {
    span(s, run) < s.len() && s[span(s, run) as int] >= 128
}

proof fn lemma_span(s: Seq<u8>, run: Run)
    ensures
        span(s, run) <= s.len(),
        forall|i: int| 0 <= i < span(s, run) ==> s[i] < 128 && run.admits(#[trigger] s[i]),
        span(s, run) < s.len() ==> (s[span(s, run) as int] >= 128 || !run.admits(
            s[span(s, run) as int],
        )),
    decreases s.len(),
{
    if s.len() > 0 && s[0] < 128 && run.admits(s[0]) {
        lemma_span(s.drop_first(), run);
        assert forall|i: int| 0 <= i < span(s, run) implies s[i] < 128 && run.admits(
            #[trigger] s[i],
        ) by {
            if i > 0 {
                assert(s[i] == s.drop_first()[i - 1]);
            }
        }
    }
}


// ---------------------------------------------------------------------
// Tokenizer
// ---------------------------------------------------------------------

/// The category of a token of one character.
pub open spec fn single_char_type(c: u8) -> TokenType {
    if c == 40 {
        TokenType::TokenLPar
    } else if c == 41 {
        TokenType::TokenRPar
    } else if c == 46 {
        TokenType::TokenDot
    } else if c == 39 {
        TokenType::TokenQuote
    } else if c == 10 {
        TokenType::TokenNewLine
    } else {
        TokenType::TokenChar
    }
}

/// The token that starts with the byte `c`, which is below 128, neither
/// white space nor `;`, followed by the bytes `t`; and what remains.
pub open spec fn lex_token(tbl: Seq<TokenView>, c: u8, t: Seq<u8>) -> Result<
    (TokenView, Seq<u8>),
    LexError,
> {
    if is_digit_byte(c) {
        let k = span(t, Run::Digits);
        if run_fails(t, Run::Digits) {
            Err(LexError::InvalidByte(t[k as int]))
        } else {
            match parse_i32(seq![c] + t.subrange(0, k as int)) {
                Some(v) => Ok((TokenView::number_token(v), t.subrange(k as int, t.len() as int))),
                None => Err(LexError::InvalidNumber),
            }
        }
    } else if is_alnum_byte(c) || c == 35 {
        let k = span(t, Run::Lexeme);
        if run_fails(t, Run::Lexeme) {
            Err(LexError::InvalidByte(t[k as int]))
        } else {
            let text = ascii_chars(seq![c] + t.subrange(0, k as int));
            let tok = match find_builtin(tbl, text) {
                Some(b) => b,
                None => TokenView::text_token(TokenType::TokenAtom, text),
            };
            Ok((tok, t.subrange(k as int, t.len() as int)))
        }
    } else if c == 34 {
        if t.len() == 0 {
            Err(LexError::UnexpectedEof)
        } else if t[0] >= 128 {
            Err(LexError::InvalidByte(t[0]))
        } else {
            let u = t.drop_first();
            let k = span(u, Run::Alnum);
            if run_fails(u, Run::Alnum) {
                Err(LexError::InvalidByte(u[k as int]))
            } else {
                let body = ascii_chars(t.subrange(0, k + 1int));
                // the character that ends the body is dropped
                let rest = if k < u.len() {
                    u.subrange(k + 1int, u.len() as int)
                } else {
                    u.subrange(k as int, u.len() as int)
                };
                Ok((TokenView::text_token(TokenType::TokenString, body), rest))
            }
        }
    } else {
        Ok((TokenView::text_token(single_char_type(c), ascii_chars(seq![c])), t))
    }
}

/// The next token of the pending bytes `s`, read with the table `tbl`, and
/// the bytes that remain after it. White space and comments before it are
/// skipped.
pub open spec fn lex_spec(tbl: Seq<TokenView>, s: Seq<u8>) -> Result<(TokenView, Seq<u8>), LexError>
    decreases s.len(),
{
    if s.len() == 0 {
        Ok((TokenView::text_token(TokenType::TokenEOF, seq!['E', 'O', 'F']), s))
    } else {
        let c = s[0];
        let t = s.drop_first();
        let k = span(t, Run::Comment);
        if c >= 128 {
            Err(LexError::InvalidByte(c))
        } else if is_space_byte(c) {
            lex_spec(tbl, t)
        } else if c != 59 {
            lex_token(tbl, c, t)
        } else if run_fails(t, Run::Comment) {
            Err(LexError::InvalidByte(t[k as int]))
        } else if k <= t.len() {
            lex_spec(tbl, t.subrange(k as int, t.len() as int))
        } else {
            // a run never outgrows its input
            Err(LexError::UnexpectedEof)
        }
    }
}

/// A token other than the end of input takes at least one byte.
pub proof fn lemma_lex_consumes(tbl: Seq<TokenView>, s: Seq<u8>)
    ensures
        lex_spec(tbl, s) matches Ok((tok, rest)) ==> rest.len() <= s.len() && (tok.typ_
            != TokenType::TokenEOF ==> rest.len() < s.len()),
    decreases s.len(),
{
    if s.len() > 0 {
        let t = s.drop_first();
        lemma_span(t, Run::Comment);
        lemma_span(t, Run::Digits);
        lemma_span(t, Run::Lexeme);
        if t.len() > 0 {
            lemma_span(t.drop_first(), Run::Alnum);
        }
        if s[0] < 128 && is_space_byte(s[0]) {
            lemma_lex_consumes(tbl, t);
        } else if s[0] == 59 && span(t, Run::Comment) <= t.len() {
            lemma_lex_consumes(tbl, t.subrange(span(t, Run::Comment) as int, t.len() as int));
        }
    }
}

proof fn lemma_span_whole(s: Seq<u8>, run: Run)
    requires
        forall|i: int| 0 <= i < s.len() ==> s[i] < 128 && run.admits(#[trigger] s[i]),
    ensures
        span(s, run) == s.len(),
    decreases s.len(),
{
    if s.len() > 0 {
        assert forall|i: int| 0 <= i < s.drop_first().len() implies s.drop_first()[i] < 128
            && run.admits(#[trigger] s.drop_first()[i]) by {
            assert(s.drop_first()[i] == s[i + 1]);
        }
        lemma_span_whole(s.drop_first(), run);
    }
}

/// Input made of decimal digits alone reads as one number token with
/// their value, and nothing is left; a value beyond 32 bits is an error.
pub proof fn lemma_digits_read_as_number(tbl: Seq<TokenView>, s: Seq<u8>)
    requires
        s.len() > 0,
        all_digits(s),
    ensures
        digits_value(s) <= i32::MAX ==> lex_spec(tbl, s) == Ok::<(TokenView, Seq<u8>), LexError>(
            (TokenView::number_token(digits_value(s) as i32), Seq::empty()),
        ),
        digits_value(s) > i32::MAX ==> lex_spec(tbl, s) == Err::<(TokenView, Seq<u8>), LexError>(
            LexError::InvalidNumber,
        ),
        lex_spec(tbl, Seq::empty()) == Ok::<(TokenView, Seq<u8>), LexError>(
            (TokenView::text_token(TokenType::TokenEOF, seq!['E', 'O', 'F']), Seq::empty()),
        ),
{
    let t = s.drop_first();
    assert(is_digit_byte(s[0]));
    assert forall|i: int| 0 <= i < t.len() implies t[i] < 128 && Run::Digits.admits(
        #[trigger] t[i],
    ) by {
        assert(t[i] == s[i + 1]);
        assert(is_digit_byte(s[i + 1]));
    }
    lemma_span_whole(t, Run::Digits);
    assert(seq![s[0]] + t.subrange(0, t.len() as int) =~= s);
    assert(t.subrange(t.len() as int, t.len() as int) =~= Seq::<u8>::empty());
    lemma_digits_prefix(s, 0);
}

/// A reserved word of the table, alone, reads as the token that the table
/// holds for it, and nothing is left. A word that starts with a digit
/// reads as a number instead.
pub proof fn lemma_reserved_word(tbl: Seq<TokenView>, s: Seq<u8>)
    requires
        s.len() > 0,
        is_alnum_byte(s[0]) || s[0] == 35,
        !is_digit_byte(s[0]),
        forall|i: int| 0 <= i < s.len() ==> #[trigger] s[i] < 128 && !is_space_byte(s[i]),
        find_builtin(tbl, ascii_chars(s)) is Some,
    ensures
        lex_spec(tbl, s) == Ok::<(TokenView, Seq<u8>), LexError>(
            (find_builtin(tbl, ascii_chars(s))->0, Seq::empty()),
        ),
{
    let t = s.drop_first();
    assert(s[0] < 128 && !is_space_byte(s[0]));
    assert forall|i: int| 0 <= i < t.len() implies t[i] < 128 && Run::Lexeme.admits(
        #[trigger] t[i],
    ) by {
        assert(t[i] == s[i + 1]);
        assert(s[i + 1] < 128 && !is_space_byte(s[i + 1]));
    }
    lemma_span_whole(t, Run::Lexeme);
    assert(seq![s[0]] + t.subrange(0, t.len() as int) =~= s);
    assert(t.subrange(t.len() as int, t.len() as int) =~= Seq::<u8>::empty());
}

/// The table holds no token of category `)`.
pub open spec fn no_rpar_entry(tbl: Seq<TokenView>) -> bool {
    forall|i: int| 0 <= i < tbl.len() ==> (#[trigger] tbl[i]).typ_ != TokenType::TokenRPar
}

/// No byte of `s` is `b`.
pub open spec fn no_byte(s: Seq<u8>, b: u8) -> bool {
    forall|i: int| 0 <= i < s.len() ==> #[trigger] s[i] != b
}

proof fn lemma_find_builtin_in_table(tbl: Seq<TokenView>, name: Seq<char>)
    requires
        no_rpar_entry(tbl),
    ensures
        find_builtin(tbl, name) matches Some(t) ==> t.typ_ != TokenType::TokenRPar,
    decreases tbl.len(),
{
    if tbl.len() > 0 {
        assert(tbl[0].typ_ != TokenType::TokenRPar);
        assert forall|i: int| 0 <= i < tbl.drop_first().len() implies (
        #[trigger] tbl.drop_first()[i]).typ_ != TokenType::TokenRPar by {
            assert(tbl.drop_first()[i] == tbl[i + 1]);
        }
        lemma_find_builtin_in_table(tbl.drop_first(), name);
    }
}

proof fn lemma_no_byte_suffix(s: Seq<u8>, b: u8)
    requires
        no_byte(s, b),
    ensures
        forall|i: int| 0 <= i <= s.len() ==> no_byte(#[trigger] s.subrange(i, s.len() as int), b),
{
    assert forall|i: int| 0 <= i <= s.len() implies no_byte(
        #[trigger] s.subrange(i, s.len() as int),
        b,
    ) by {
        assert forall|j: int| 0 <= j < s.len() - i implies #[trigger] s.subrange(
            i,
            s.len() as int,
        )[j] != b by {
            assert(s.subrange(i, s.len() as int)[j] == s[i + j]);
        }
    }
}

/// Where the table holds no `)` token, a `)` token is read only from the
/// byte `)`, as that one character; so input without that byte gives no
/// `)` token and leaves none behind.
pub proof fn lemma_lex_rparen(tbl: Seq<TokenView>, s: Seq<u8>)
    requires
        no_rpar_entry(tbl),
    ensures
        lex_spec(tbl, s) matches Ok((tok, rest)) ==> {
            &&& tok.typ_ == TokenType::TokenRPar ==> tok == TokenView::text_token(
                TokenType::TokenRPar,
                seq![')'],
            )
            &&& no_byte(s, 41) ==> tok.typ_ != TokenType::TokenRPar && no_byte(rest, 41)
        },
    decreases s.len(),
{
    if s.len() > 0 {
        let t = s.drop_first();
        lemma_span(t, Run::Comment);
        lemma_span(t, Run::Lexeme);
        lemma_span(t, Run::Digits);
        if t.len() > 0 {
            lemma_span(t.drop_first(), Run::Alnum);
        }
        if no_byte(s, 41) {
            assert(no_byte(t, 41)) by {
                assert forall|i: int| 0 <= i < t.len() implies #[trigger] t[i] != 41 by {
                    assert(t[i] == s[i + 1]);
                }
            }
            lemma_no_byte_suffix(t, 41);
            if t.len() > 0 {
                assert(t.drop_first() =~= t.subrange(1, t.len() as int));
                lemma_no_byte_suffix(t.drop_first(), 41);
            }
        }
        if s[0] < 128 && is_space_byte(s[0]) {
            lemma_lex_rparen(tbl, t);
        } else if s[0] == 59 && span(t, Run::Comment) <= t.len() {
            lemma_lex_rparen(tbl, t.subrange(span(t, Run::Comment) as int, t.len() as int));
        } else {
            let text = ascii_chars(seq![s[0]] + t.subrange(0, span(t, Run::Lexeme) as int));
            lemma_find_builtin_in_table(tbl, text);
            assert(ascii_chars(seq![41u8]) =~= seq![')']);
        }
    }
}

/// What a call of the tokenizer gave, with the bytes left after it.
pub open spec fn lexed(r: Result<Token, LexError>, rest: Seq<u8>) -> Result<
    (TokenView, Seq<u8>),
    LexError,
> {
    match r {
        Ok(t) => Ok((t@, rest)),
        Err(e) => Err(e),
    }
}

/// Turns a queue of bytes into tokens, one per call of `next`.
pub struct Lexer {
    buf: VecDeque<u8>,
    peek: Option<u8>,
    builtins: Builtins,
}

impl View for Lexer {
    type V = Seq<u8>;

    /// The bytes not yet consumed, the pushed-back one first.
    closed spec fn view(&self) -> Seq<u8> {
        match self.peek {
            Some(b) => seq![b] + self.buf@,
            None => self.buf@,
        }
    }
}

fn char_category(c: u8) -> (r: TokenType)
    ensures
        r == single_char_type(c),
{
    if c == 40 {
        TokenType::TokenLPar
    } else if c == 41 {
        TokenType::TokenRPar
    } else if c == 46 {
        TokenType::TokenDot
    } else if c == 39 {
        TokenType::TokenQuote
    } else if c == 10 {
        TokenType::TokenNewLine
    } else {
        TokenType::TokenChar
    }
}

impl Lexer {
    /// The table that reserved words are looked up in.
    pub closed spec fn table(&self) -> Seq<TokenView> {
        self.builtins@
    }

    /// A tokenizer over `buf`, with the standard table.
    pub fn new(buf: VecDeque<u8>) -> (r: Lexer)
        ensures
            r@ == buf@,
            r.table() == standard_builtins(),
    {
        Lexer { buf, peek: None, builtins: Builtins::new() }
    }

    /// The next token and the bytes after it, as `lex_spec` says.
    pub fn next(&mut self) -> (r: Result<Token, LexError>)
        ensures
            final(self).table() == old(self).table(),
            lexed(r, final(self)@) == lex_spec(old(self).table(), old(self)@),
    {
        let ghost tbl = self.builtins@;
        loop
            invariant
                self.builtins == old(self).builtins,
                tbl == self.builtins@,
                lex_spec(tbl, self@) == lex_spec(tbl, old(self)@),
            decreases self@.len(),
        {
            let ghost s = self@;
            let c = match self.next_chr() {
                Err(e) => {
                    return Err(e);
                },
                Ok(None) => {
                    let text = String::from_str("EOF");
                    proof {
                        reveal_strlit("EOF");
                    }
                    assert(text@ =~= seq!['E', 'O', 'F']);
                    return Ok(Token { num: 0, typ_: TokenType::TokenEOF, text });
                },
                Ok(Some(c)) => c,
            };
            if is_space(c) {
                continue;
            }
            if c == 59 {
                proof {
                    lemma_span(self@, Run::Comment);
                }
                match self.skip_comment() {
                    Err(e) => {
                        return Err(e);
                    },
                    Ok(()) => {},
                }
                continue;
            }
            if is_number(c) {
                return self.make_number(c);
            }
            if is_alphanumeric(c) || c == 35 {
                return self.make_atom_or_const(c);
            }
            if c == 34 {
                return self.make_string();
            }
            let one = vec![c];
            assert(one@ =~= seq![c]);
            let text = ascii_string(one);
            return Ok(Token { num: 0, typ_: char_category(c), text });
        }
    }

    /// Takes the next byte, failing on one that is no character.
    fn next_chr(&mut self) -> (r: Result<Option<u8>, LexError>)
        ensures
            final(self).builtins == old(self).builtins,
            final(self).peek is None,
            old(self)@.len() == 0 ==> r == Ok::<Option<u8>, LexError>(None) && final(self)@ == old(
                self,
            )@,
            old(self)@.len() > 0 ==> final(self)@ == old(self)@.drop_first() && r == (if old(
                self,
            )@[0] < 128 {
                Ok::<Option<u8>, LexError>(Some(old(self)@[0]))
            } else {
                Err(LexError::InvalidByte(old(self)@[0]))
            }),
    {
        let b = match self.peek {
            Some(b) => {
                self.peek = None;
                assert((seq![b] + self.buf@).drop_first() =~= self.buf@);
                Some(b)
            },
            None => self.buf.pop_front(),
        };
        match b {
            None => Ok(None),
            Some(b) => if b < 128 {
                Ok(Some(b))
            } else {
                Err(LexError::InvalidByte(b))
            },
        }
    }

    /// Moves the longest run of bytes that `run` admits from the input to
    /// the end of `acc`.
    fn accumulate(&mut self, acc: &mut Vec<u8>, run: Run) -> (r: Result<(), LexError>)
        ensures
            final(self).builtins == old(self).builtins,
            run_fails(old(self)@, run) ==> r == Err::<(), LexError>(
                LexError::InvalidByte(old(self)@[span(old(self)@, run) as int]),
            ),
            !run_fails(old(self)@, run) ==> {
                &&& r is Ok
                &&& final(acc)@ == old(acc)@ + old(self)@.subrange(0, span(old(self)@, run) as int)
                &&& final(self)@ == old(self)@.subrange(
                    span(old(self)@, run) as int,
                    old(self)@.len() as int,
                )
            },
    {
        let ghost s = self@;
        let ghost k = span(s, run);
        proof {
            lemma_span(s, run);
        }
        assert(s.subrange(0, 0) =~= Seq::<u8>::empty());
        assert(s.subrange(0, s.len() as int) =~= s);
        loop
            invariant
                self.builtins == old(self).builtins,
                s == old(self)@,
                k == span(s, run),
                k <= s.len(),
                self@.len() <= s.len(),
                s.len() - self@.len() <= k,
                self@ == s.subrange(s.len() - self@.len(), s.len() as int),
                acc@ == old(acc)@ + s.subrange(0, s.len() - self@.len()),
            decreases self@.len(),
        {
            proof {
                lemma_span(s, run);
            }
            let ghost j = s.len() - self@.len();
            let ghost cur = self@;
            match self.next_chr() {
                Err(e) => {
                    assert(s[j] == cur[0]);
                    return Err(e);
                },
                Ok(None) => {
                    return Ok(());
                },
                Ok(Some(b)) => {
                    assert(s[j] == b);
                    if run.accepts(b) {
                        acc.push(b);
                        assert(s.subrange(0, j + 1) =~= s.subrange(0, j).push(b));
                        assert(self@ =~= s.subrange(j + 1, s.len() as int));
                    } else {
                        self.peek = Some(b);
                        assert(self@ =~= s.subrange(j, s.len() as int));
                        return Ok(());
                    }
                },
            }
        }
    }

    fn skip_comment(&mut self) -> (r: Result<(), LexError>)
        ensures
            final(self).builtins == old(self).builtins,
            run_fails(old(self)@, Run::Comment) ==> r == Err::<(), LexError>(
                LexError::InvalidByte(old(self)@[span(old(self)@, Run::Comment) as int]),
            ),
            !run_fails(old(self)@, Run::Comment) ==> r is Ok && final(self)@ == old(
                self,
            )@.subrange(span(old(self)@, Run::Comment) as int, old(self)@.len() as int),
    {
        let mut acc: Vec<u8> = Vec::new();
        self.accumulate(&mut acc, Run::Comment)
    }

    fn make_number(&mut self, c: u8) -> (r: Result<Token, LexError>)
        requires
            is_digit_byte(c),
        ensures
            final(self).builtins == old(self).builtins,
            lexed(r, final(self)@) == lex_token(old(self).builtins@, c, old(self)@),
    {
        let mut acc: Vec<u8> = Vec::new();
        acc.push(c);
        match self.accumulate(&mut acc, Run::Digits) {
            Err(e) => {
                return Err(e);
            },
            Ok(()) => {},
        }
        match parse_int(acc.as_slice()) {
            Some(v) => Ok(Token { num: v, typ_: TokenType::TokenNumber, text: String::new() }),
            None => Err(LexError::InvalidNumber),
        }
    }

    fn make_atom_or_const(&mut self, c: u8) -> (r: Result<Token, LexError>)
        requires
            is_alnum_byte(c) || c == 35,
            !is_digit_byte(c),
        ensures
            final(self).builtins == old(self).builtins,
            lexed(r, final(self)@) == lex_token(old(self).builtins@, c, old(self)@),
    {
        let ghost t = self@;
        proof {
            lemma_span(t, Run::Lexeme);
        }
        let mut acc: Vec<u8> = Vec::new();
        acc.push(c);
        match self.accumulate(&mut acc, Run::Lexeme) {
            Err(e) => {
                return Err(e);
            },
            Ok(()) => {},
        }
        let ghost bytes = acc@;
        assert(bytes =~= seq![c] + t.subrange(0, span(t, Run::Lexeme) as int));
        assert forall|i: int| 0 <= i < bytes.len() implies bytes[i] < 128 by {
            if i > 0 {
                assert(bytes[i] == t[i - 1]);
            }
        }
        let text = ascii_string(acc);
        match self.builtins.get(&text) {
            Some(tok) => Ok(tok),
            None => Ok(Token { num: 0, typ_: TokenType::TokenAtom, text }),
        }
    }

    fn make_string(&mut self) -> (r: Result<Token, LexError>)
        ensures
            final(self).builtins == old(self).builtins,
            lexed(r, final(self)@) == lex_token(old(self).builtins@, 34, old(self)@),
    {
        let ghost t = self@;
        let fst = match self.next_chr() {
            Err(e) => {
                return Err(e);
            },
            Ok(None) => {
                return Err(LexError::UnexpectedEof);
            },
            Ok(Some(b)) => b,
        };
        let ghost u = self@;
        proof {
            lemma_span(u, Run::Alnum);
        }
        let mut acc: Vec<u8> = Vec::new();
        acc.push(fst);
        match self.accumulate(&mut acc, Run::Alnum) {
            Err(e) => {
                return Err(e);
            },
            Ok(()) => {},
        }
        let _ = self.next_chr();
        let ghost bytes = acc@;
        assert(bytes =~= t.subrange(0, span(u, Run::Alnum) + 1int));
        assert forall|i: int| 0 <= i < bytes.len() implies bytes[i] < 128 by {
            if i > 0 {
                assert(bytes[i] == u[i - 1]);
            }
        }
        let text = ascii_string(acc);
        assert(self@ =~= (if span(u, Run::Alnum) < u.len() {
            u.subrange(span(u, Run::Alnum) + 1int, u.len() as int)
        } else {
            u.subrange(span(u, Run::Alnum) as int, u.len() as int)
        }));
        Ok(Token { num: 0, typ_: TokenType::TokenString, text })
    }
}

} // verus!
