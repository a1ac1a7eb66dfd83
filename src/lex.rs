use vstd::prelude::*;

verus! {

/// A token of the source language.
#[derive(PartialEq, Eq, Debug, Clone)]
pub enum Token {
    Keyword(Keyword),
    Constant(Constant),
    Identifier(Identifier),
    OpenParen,
    CloseParen,
    OpenBrace,
    Semicolon,
    CloseBrace,
    Tilde,
    Decrement,
    Minus,
    Plus,
    PlusEqual,
    MinusEqual,
    TimesEqual,
    DivEqual,
    PercentEqual,
    BitAndEqual,
    BitOrEqual,
    BitXorEqual,
    Asterisk,
    Slash,
    Percent,
    Ampersand,
    Bar,
    Caret,
    Increment,
    LeftShift,
    LeftShiftEqual,
    RightShift,
    RightShiftEqual,
    Not,
    LogicalAnd,
    LogicalOr,
    EqualTo,
    NotEqual,
    LessThan,
    GreaterThan,
    Leq,
    Geq,
    Equals,
    QuestionMark,
    Colon,
}

#[derive(Debug, PartialEq, Eq, Copy, Clone, Structural)]
pub enum Keyword {
    Int,
    Void,
    Return,
    If,
    Else,
    Goto,
    Do,
    While,
    For,
    Break,
    Continue,
    Switch,
    Default,
    Case,
}

#[derive(Debug, PartialEq, Eq, Clone, Copy, Structural)]
pub enum Constant {
    Integer(u64),
}

#[derive(Debug)]
pub enum Error {
    InvalidConstant,
    InvalidLiteral,
    InvalidIdentifier,
    NotAscii,
    Other(String),
}

// ---------------------------------------------------------------------------
// Byte classes
// ---------------------------------------------------------------------------

pub open spec fn is_whitespace(b: u8) -> bool {
    b == 32 || b == 9 || b == 10 || b == 12 || b == 13
}

pub open spec fn is_digit(b: u8) -> bool {
    48 <= b <= 57
}

pub open spec fn is_alpha(b: u8) -> bool {
    (65 <= b <= 90) || (97 <= b <= 122)
}

pub open spec fn is_word_start(b: u8) -> bool {
    is_alpha(b) || b == 95
}

pub open spec fn is_word_character(b: u8) -> bool {
    is_alpha(b) || is_digit(b) || b == 95
}

fn word_start(byte: u8) -> (r: bool)
    ensures
        r == is_word_start(byte),
{
    (97 <= byte && byte <= 122) || (65 <= byte && byte <= 90) || byte == 95
}

pub(crate) fn word_character(byte: u8) -> (r: bool)
    ensures
        r == is_word_character(byte),
{
    word_start(byte) || (48 <= byte && byte <= 57)
}

fn _word_boundary(byte: u8) -> (r: bool)
    ensures
        r == !is_word_character(byte),
{
    !word_character(byte)
}

// ---------------------------------------------------------------------------
// Operators
// ---------------------------------------------------------------------------

/// The operator token that starts with the bytes `a`, `b`, `c` (a 0 stands
/// for a byte past the end), and its length; a length of 0 when none does.
/// Longer operators are tried first. Bytes are written as ASCII codes:
/// 60 `<`, 62 `>`, 61 `=`, 45 `-`, 43 `+`, 38 `&`, 124 `|`, 33 `!`, 42 `*`,
/// 47 `/`, 37 `%`, 94 `^`, 40 `(`, 41 `)`, 123 `{`, 59 `;`, 125 `}`, 126 `~`,
/// 63 `?`, 58 `:`.
pub open spec fn operator_spec(a: u8, b: u8, c: u8) -> (Token, int) {
    if a == 60 && b == 60 && c == 61 {
        (Token::LeftShiftEqual, 3)
    } else if a == 62 && b == 62 && c == 61 {
        (Token::RightShiftEqual, 3)
    } else if a == 45 && b == 45 {
        (Token::Decrement, 2)
    } else if a == 60 && b == 60 {
        (Token::LeftShift, 2)
    } else if a == 38 && b == 38 {
        (Token::LogicalAnd, 2)
    } else if a == 124 && b == 124 {
        (Token::LogicalOr, 2)
    } else if a == 33 && b == 61 {
        (Token::NotEqual, 2)
    } else if a == 61 && b == 61 {
        (Token::EqualTo, 2)
    } else if a == 62 && b == 61 {
        (Token::Geq, 2)
    } else if a == 60 && b == 61 {
        (Token::Leq, 2)
    } else if a == 62 && b == 62 {
        (Token::RightShift, 2)
    } else if a == 43 && b == 61 {
        (Token::PlusEqual, 2)
    } else if a == 43 && b == 43 {
        (Token::Increment, 2)
    } else if a == 45 && b == 61 {
        (Token::MinusEqual, 2)
    } else if a == 42 && b == 61 {
        (Token::TimesEqual, 2)
    } else if a == 47 && b == 61 {
        (Token::DivEqual, 2)
    } else if a == 37 && b == 61 {
        (Token::PercentEqual, 2)
    } else if a == 38 && b == 61 {
        (Token::BitAndEqual, 2)
    } else if a == 124 && b == 61 {
        (Token::BitOrEqual, 2)
    } else if a == 94 && b == 61 {
        (Token::BitXorEqual, 2)
    } else if a == 40 {
        (Token::OpenParen, 1)
    } else if a == 41 {
        (Token::CloseParen, 1)
    } else if a == 123 {
        (Token::OpenBrace, 1)
    } else if a == 59 {
        (Token::Semicolon, 1)
    } else if a == 125 {
        (Token::CloseBrace, 1)
    } else if a == 126 {
        (Token::Tilde, 1)
    } else if a == 45 {
        (Token::Minus, 1)
    } else if a == 43 {
        (Token::Plus, 1)
    } else if a == 42 {
        (Token::Asterisk, 1)
    } else if a == 47 {
        (Token::Slash, 1)
    } else if a == 37 {
        (Token::Percent, 1)
    } else if a == 38 {
        (Token::Ampersand, 1)
    } else if a == 124 {
        (Token::Bar, 1)
    } else if a == 94 {
        (Token::Caret, 1)
    } else if a == 33 {
        (Token::Not, 1)
    } else if a == 60 {
        (Token::LessThan, 1)
    } else if a == 62 {
        (Token::GreaterThan, 1)
    } else if a == 61 {
        (Token::Equals, 1)
    } else if a == 63 {
        (Token::QuestionMark, 1)
    } else if a == 58 {
        (Token::Colon, 1)
    } else {
        (Token::Semicolon, 0)
    }
}

fn operator(a: u8, b: u8, c: u8) -> (r: Option<(Token, usize)>)
    ensures
        r is None ==> operator_spec(a, b, c).1 == 0,
        r matches Some((t, n)) ==> n > 0 && (t, n as int) == operator_spec(a, b, c),
{
    if a == 60 && b == 60 && c == 61 {
        Some((Token::LeftShiftEqual, 3))
    } else if a == 62 && b == 62 && c == 61 {
        Some((Token::RightShiftEqual, 3))
    } else if a == 45 && b == 45 {
        Some((Token::Decrement, 2))
    } else if a == 60 && b == 60 {
        Some((Token::LeftShift, 2))
    } else if a == 38 && b == 38 {
        Some((Token::LogicalAnd, 2))
    } else if a == 124 && b == 124 {
        Some((Token::LogicalOr, 2))
    } else if a == 33 && b == 61 {
        Some((Token::NotEqual, 2))
    } else if a == 61 && b == 61 {
        Some((Token::EqualTo, 2))
    } else if a == 62 && b == 61 {
        Some((Token::Geq, 2))
    } else if a == 60 && b == 61 {
        Some((Token::Leq, 2))
    } else if a == 62 && b == 62 {
        Some((Token::RightShift, 2))
    } else if a == 43 && b == 61 {
        Some((Token::PlusEqual, 2))
    } else if a == 43 && b == 43 {
        Some((Token::Increment, 2))
    } else if a == 45 && b == 61 {
        Some((Token::MinusEqual, 2))
    } else if a == 42 && b == 61 {
        Some((Token::TimesEqual, 2))
    } else if a == 47 && b == 61 {
        Some((Token::DivEqual, 2))
    } else if a == 37 && b == 61 {
        Some((Token::PercentEqual, 2))
    } else if a == 38 && b == 61 {
        Some((Token::BitAndEqual, 2))
    } else if a == 124 && b == 61 {
        Some((Token::BitOrEqual, 2))
    } else if a == 94 && b == 61 {
        Some((Token::BitXorEqual, 2))
    } else if a == 40 {
        Some((Token::OpenParen, 1))
    } else if a == 41 {
        Some((Token::CloseParen, 1))
    } else if a == 123 {
        Some((Token::OpenBrace, 1))
    } else if a == 59 {
        Some((Token::Semicolon, 1))
    } else if a == 125 {
        Some((Token::CloseBrace, 1))
    } else if a == 126 {
        Some((Token::Tilde, 1))
    } else if a == 45 {
        Some((Token::Minus, 1))
    } else if a == 43 {
        Some((Token::Plus, 1))
    } else if a == 42 {
        Some((Token::Asterisk, 1))
    } else if a == 47 {
        Some((Token::Slash, 1))
    } else if a == 37 {
        Some((Token::Percent, 1))
    } else if a == 38 {
        Some((Token::Ampersand, 1))
    } else if a == 124 {
        Some((Token::Bar, 1))
    } else if a == 94 {
        Some((Token::Caret, 1))
    } else if a == 33 {
        Some((Token::Not, 1))
    } else if a == 60 {
        Some((Token::LessThan, 1))
    } else if a == 62 {
        Some((Token::GreaterThan, 1))
    } else if a == 61 {
        Some((Token::Equals, 1))
    } else if a == 63 {
        Some((Token::QuestionMark, 1))
    } else if a == 58 {
        Some((Token::Colon, 1))
    } else {
        None
    }
}

} // verus!

verus! {

/// A name from the source text, compared by its bytes.
#[derive(PartialEq, Eq, Clone, Hash, Debug)]
pub struct Identifier(pub Vec<u8>);

impl View for Identifier {
    type V = Seq<u8>;

    open spec fn view(&self) -> Seq<u8> {
        self.0@
    }
}

impl Identifier {
    pub fn new(name: &[u8]) -> (r: Self)
        ensures
            r@ == name@,
    {
        let mut bytes: Vec<u8> = Vec::new();
        let mut i: usize = 0;
        while i < name.len()
            invariant
                i <= name@.len(),
                bytes@ == name@.subrange(0, i as int),
            decreases name@.len() - i,
        {
            bytes.push(name[i]);
            i = i + 1;
        }
        Identifier(bytes)
    }

    pub fn new_rc(name: &[u8]) -> (r: std::rc::Rc<Self>)
        ensures
            (*r)@ == name@,
    {
        std::rc::Rc::new(Self::new(name))
    }

    /// Whether two identifiers spell the same name.
    pub fn same(&self, other: &Identifier) -> (r: bool)
        ensures
            r == (self@ == other@),
    {
        if self.0.len() != other.0.len() {
            return false;
        }
        let mut i: usize = 0;
        while i < self.0.len()
            invariant
                self@.len() == other@.len(),
                i <= self@.len(),
                self@.subrange(0, i as int) == other@.subrange(0, i as int),
            decreases self@.len() - i,
        {
            if self.0[i] != other.0[i] {
                return false;
            }
            assert(self@.subrange(0, i + 1) == self@.subrange(0, i as int).push(self@[i as int]));
            assert(other@.subrange(0, i + 1) == other@.subrange(0, i as int).push(other@[i as int]));
            i = i + 1;
        }
        assert(self@ == self@.subrange(0, self@.len() as int));
        assert(other@ == other@.subrange(0, other@.len() as int));
        true
    }
}



// ---------------------------------------------------------------------------
// Keywords
// ---------------------------------------------------------------------------

/// How a keyword is spelled, in ASCII codes.
pub open spec fn spelling(k: Keyword) -> Seq<u8> {
    match k {
        Keyword::Int => seq![105, 110, 116],
        Keyword::Void => seq![118, 111, 105, 100],
        Keyword::Return => seq![114, 101, 116, 117, 114, 110],
        Keyword::If => seq![105, 102],
        Keyword::Else => seq![101, 108, 115, 101],
        Keyword::Goto => seq![103, 111, 116, 111],
        Keyword::Do => seq![100, 111],
        Keyword::While => seq![119, 104, 105, 108, 101],
        Keyword::For => seq![102, 111, 114],
        Keyword::Break => seq![98, 114, 101, 97, 107],
        Keyword::Continue => seq![99, 111, 110, 116, 105, 110, 117, 101],
        Keyword::Switch => seq![115, 119, 105, 116, 99, 104],
        Keyword::Default => seq![100, 101, 102, 97, 117, 108, 116],
        Keyword::Case => seq![99, 97, 115, 101],
    }
}

/// The keyword spelled `w`, if any.
pub open spec fn keyword_of(w: Seq<u8>) -> Option<Keyword> {
    if w == spelling(Keyword::Int) {
        Some(Keyword::Int)
    } else if w == spelling(Keyword::Void) {
        Some(Keyword::Void)
    } else if w == spelling(Keyword::Return) {
        Some(Keyword::Return)
    } else if w == spelling(Keyword::If) {
        Some(Keyword::If)
    } else if w == spelling(Keyword::Else) {
        Some(Keyword::Else)
    } else if w == spelling(Keyword::Goto) {
        Some(Keyword::Goto)
    } else if w == spelling(Keyword::Do) {
        Some(Keyword::Do)
    } else if w == spelling(Keyword::While) {
        Some(Keyword::While)
    } else if w == spelling(Keyword::For) {
        Some(Keyword::For)
    } else if w == spelling(Keyword::Break) {
        Some(Keyword::Break)
    } else if w == spelling(Keyword::Continue) {
        Some(Keyword::Continue)
    } else if w == spelling(Keyword::Switch) {
        Some(Keyword::Switch)
    } else if w == spelling(Keyword::Default) {
        Some(Keyword::Default)
    } else if w == spelling(Keyword::Case) {
        Some(Keyword::Case)
    } else {
        None
    }
}

impl Keyword {
    pub fn as_bytes(&self) -> (r: Vec<u8>)
        ensures
            r@ == spelling(*self),
    {
        let r = match self {
            Keyword::Int => vec![105, 110, 116],
            Keyword::Void => vec![118, 111, 105, 100],
            Keyword::Return => vec![114, 101, 116, 117, 114, 110],
            Keyword::If => vec![105, 102],
            Keyword::Else => vec![101, 108, 115, 101],
            Keyword::Goto => vec![103, 111, 116, 111],
            Keyword::Do => vec![100, 111],
            Keyword::While => vec![119, 104, 105, 108, 101],
            Keyword::For => vec![102, 111, 114],
            Keyword::Break => vec![98, 114, 101, 97, 107],
            Keyword::Continue => vec![99, 111, 110, 116, 105, 110, 117, 101],
            Keyword::Switch => vec![115, 119, 105, 116, 99, 104],
            Keyword::Default => vec![100, 101, 102, 97, 117, 108, 116],
            Keyword::Case => vec![99, 97, 115, 101],
        };
        assert(r@ =~= spelling(*self));
        r
    }
}

pub(crate) fn same_bytes(a: &Vec<u8>, b: &Vec<u8>) -> (r: bool)
    ensures
        r == (a@ == b@),
{
    if a.len() != b.len() {
        return false;
    }
    let mut i: usize = 0;
    while i < a.len()
        invariant
            a@.len() == b@.len(),
            i <= a@.len(),
            a@.subrange(0, i as int) == b@.subrange(0, i as int),
        decreases a@.len() - i,
    {
        if a[i] != b[i] {
            return false;
        }
        assert(a@.subrange(0, i + 1) == a@.subrange(0, i as int).push(a@[i as int]));
        assert(b@.subrange(0, i + 1) == b@.subrange(0, i as int).push(b@[i as int]));
        i = i + 1;
    }
    assert(a@ == a@.subrange(0, a@.len() as int));
    assert(b@ == b@.subrange(0, b@.len() as int));
    true
}

fn keyword_for(w: &Vec<u8>) -> (r: Option<Keyword>)
    ensures
        r == keyword_of(w@),
{
    if same_bytes(w, &Keyword::Int.as_bytes()) {
        Some(Keyword::Int)
    } else if same_bytes(w, &Keyword::Void.as_bytes()) {
        Some(Keyword::Void)
    } else if same_bytes(w, &Keyword::Return.as_bytes()) {
        Some(Keyword::Return)
    } else if same_bytes(w, &Keyword::If.as_bytes()) {
        Some(Keyword::If)
    } else if same_bytes(w, &Keyword::Else.as_bytes()) {
        Some(Keyword::Else)
    } else if same_bytes(w, &Keyword::Goto.as_bytes()) {
        Some(Keyword::Goto)
    } else if same_bytes(w, &Keyword::Do.as_bytes()) {
        Some(Keyword::Do)
    } else if same_bytes(w, &Keyword::While.as_bytes()) {
        Some(Keyword::While)
    } else if same_bytes(w, &Keyword::For.as_bytes()) {
        Some(Keyword::For)
    } else if same_bytes(w, &Keyword::Break.as_bytes()) {
        Some(Keyword::Break)
    } else if same_bytes(w, &Keyword::Continue.as_bytes()) {
        Some(Keyword::Continue)
    } else if same_bytes(w, &Keyword::Switch.as_bytes()) {
        Some(Keyword::Switch)
    } else if same_bytes(w, &Keyword::Default.as_bytes()) {
        Some(Keyword::Default)
    } else if same_bytes(w, &Keyword::Case.as_bytes()) {
        Some(Keyword::Case)
    } else {
        None
    }
}


// ---------------------------------------------------------------------------
// Lexemes
// ---------------------------------------------------------------------------

/// The byte at `i`, or 0 past either end.
pub open spec fn at(s: Seq<u8>, i: int) -> u8 {
    if 0 <= i < s.len() {
        s[i]
    } else {
        0
    }
}

pub open spec fn digit_run(s: Seq<u8>) -> nat
    decreases s.len(),
{
    if s.len() > 0 && is_digit(s[0]) {
        1 + digit_run(s.drop_first())
    } else {
        0
    }
}

pub open spec fn word_run(s: Seq<u8>) -> nat
    decreases s.len(),
{
    if s.len() > 0 && is_word_character(s[0]) {
        1 + word_run(s.drop_first())
    } else {
        0
    }
}

pub open spec fn digit_value(b: u8) -> nat {
    if is_digit(b) {
        (b - 48) as nat
    } else {
        0
    }
}

/// The number that decimal digits spell.
pub open spec fn digits_value(d: Seq<u8>) -> nat
    decreases d.len(),
{
    if d.len() == 0 {
        0
    } else {
        digits_value(d.drop_last()) * 10 + digit_value(d.last())
    }
}

/// The operator that `s` starts with, and its length (0 if none).
pub open spec fn operator_at(s: Seq<u8>) -> (Token, int) {
    operator_spec(at(s, 0), at(s, 1), at(s, 2))
}

/// The length of the lexeme that `s` starts with, where `s` starts with no
/// whitespace: an operator, a run of digits, or a byte and the word
/// characters that follow it.
pub open spec fn lexeme_len(s: Seq<u8>) -> int {
    if operator_at(s).1 > 0 {
        operator_at(s).1
    } else if is_digit(s[0]) {
        digit_run(s) as int
    } else {
        (1 + word_run(s.drop_first())) as int
    }
}

/// Whether the lexeme of length `n` at the start of `s` ends before a byte
/// that is no word character (a lexeme at the very end of input does not).
pub open spec fn ends_at_boundary(s: Seq<u8>, n: int) -> bool {
    n < s.len() && !is_word_character(s[n])
}

/// Whether lexing the start of `s` runs into an error.
pub open spec fn lexeme_fails(s: Seq<u8>) -> bool {
    if operator_at(s).1 > 0 {
        false
    } else if s[0] >= 128 {
        true
    } else if is_digit(s[0]) {
        !ends_at_boundary(s, lexeme_len(s)) || digits_value(s.take(lexeme_len(s))) > u64::MAX
    } else if !ends_at_boundary(s, lexeme_len(s)) {
        true
    } else {
        keyword_of(s.take(lexeme_len(s))) is None && !is_word_start(s[0])
    }
}

/// Whether `e` is the error that lexing the start of `s` runs into.
pub open spec fn lexeme_error(s: Seq<u8>, e: Error) -> bool {
    &&& lexeme_fails(s)
    &&& if s[0] >= 128 {
        e is Other
    } else if is_digit(s[0]) {
        e is InvalidConstant
    } else if !ends_at_boundary(s, lexeme_len(s)) {
        e is InvalidLiteral
    } else {
        e is InvalidIdentifier
    }
}

/// Whether `t` is the token of the lexeme at the start of `s`.
pub open spec fn lexeme_token(s: Seq<u8>, t: Token) -> bool {
    if operator_at(s).1 > 0 {
        t == operator_at(s).0
    } else if is_digit(s[0]) {
        t == Token::Constant(Constant::Integer(digits_value(s.take(lexeme_len(s))) as u64))
    } else {
        match keyword_of(s.take(lexeme_len(s))) {
            Some(k) => t == Token::Keyword(k),
            None => t is Identifier && t->Identifier_0@ == s.take(lexeme_len(s)),
        }
    }
}

/// Whether `r` is what lexing `s` gives: its tokens in order, or the error
/// of the first lexeme that fails. Whitespace separates lexemes.
pub open spec fn tokenized(s: Seq<u8>, r: Result<Seq<Token>, Error>) -> bool
    decreases s.len(),
{
    if s.len() == 0 {
        r == Ok::<Seq<Token>, Error>(Seq::empty())
    } else if is_whitespace(s[0]) {
        tokenized(s.drop_first(), r)
    } else if lexeme_fails(s) {
        r is Err && lexeme_error(s, r->Err_0)
    } else if 1 <= lexeme_len(s) <= s.len() {
        match r {
            Ok(ts) => ts.len() > 0 && lexeme_token(s, ts[0]) && tokenized(
                s.skip(lexeme_len(s)),
                Ok(ts.drop_first()),
            ),
            Err(e) => tokenized(s.skip(lexeme_len(s)), Err(e)),
        }
    } else {
        false
    }
}

proof fn lemma_digits_value_prefix(d: Seq<u8>, k: int)
    requires
        0 <= k <= d.len(),
    ensures
        digits_value(d.take(k)) <= digits_value(d),
    decreases d.len(),
{
    if k < d.len() {
        lemma_digits_value_prefix(d.drop_last(), k);
        assert(d.drop_last().take(k) =~= d.take(k));
    } else {
        assert(d.take(k) =~= d);
    }
}

pub(crate) proof fn lemma_run_skip(s: Seq<u8>, i: int)
    requires
        0 <= i < s.len(),
    ensures
        s.skip(i).drop_first() =~= s.skip(i + 1),
        s.skip(i)[0] == s[i],
{
}

fn next_if_number(bytes: &[u8], i: usize) -> (r: Option<u8>)
    requires
        i <= bytes@.len(),
    ensures
        r is Some <==> (i < bytes@.len() && is_digit(bytes@[i as int])),
        r matches Some(d) ==> d == bytes@[i as int],
{
    if i < bytes.len() && 48 <= bytes[i] && bytes[i] <= 57 {
        Some(bytes[i])
    } else {
        None
    }
}

pub(crate) fn next_if_word(bytes: &[u8], i: usize) -> (r: Option<u8>)
    requires
        i <= bytes@.len(),
    ensures
        r is Some <==> (i < bytes@.len() && is_word_character(bytes@[i as int])),
        r matches Some(d) ==> d == bytes@[i as int],
{
    if i < bytes.len() && word_character(bytes[i]) {
        Some(bytes[i])
    } else {
        None
    }
}

/// The number at `start`: its value and where it ends.
pub(crate) fn constant_number(bytes: &[u8], start: usize) -> (r: Result<(Constant, usize), Error>)
    requires
        start < bytes@.len(),
        is_digit(bytes@[start as int]),
    ensures
        ({
            let s = bytes@.skip(start as int);
            match r {
                Ok((c, e)) => e == start + lexeme_len(s) && !lexeme_fails(s) && lexeme_token(
                    s,
                    Token::Constant(c),
                ),
                Err(e) => lexeme_error(s, e),
            }
        }),
{
    let ghost s = bytes@.skip(start as int);
    let mut cur: u64 = 0;
    let mut overflow = false;
    let mut i: usize = start;
    while next_if_number(bytes, i).is_some()
        invariant
            start <= i <= bytes@.len(),
            s == bytes@.skip(start as int),
            digit_run(s) == (i - start) + digit_run(bytes@.skip(i as int)),
            !overflow ==> cur == digits_value(bytes@.subrange(start as int, i as int)),
            overflow ==> digits_value(bytes@.subrange(start as int, i as int)) > u64::MAX,
            forall|k: int| start <= k < i ==> is_digit(#[trigger] bytes@[k]),
        decreases bytes@.len() - i,
    {
        proof {
            lemma_run_skip(bytes@, i as int);
            let sub = bytes@.subrange(start as int, i + 1);
            assert(sub.drop_last() =~= bytes@.subrange(start as int, i as int));
            lemma_digits_value_prefix(sub, i - start);
            assert(sub.take(i - start) =~= bytes@.subrange(start as int, i as int));
        }
        let v = (bytes[i] - 48) as u64;
        if !overflow {
            if cur > (u64::MAX - v) / 10 {
                overflow = true;
            } else {
                cur = cur * 10 + v;
            }
        }
        i = i + 1;
    }
    proof {
        assert(s.take(i - start) =~= bytes@.subrange(start as int, i as int));
        if i < bytes@.len() {
            assert(s[i - start] == bytes@[i as int]);
        }
        assert(operator_at(s).1 == 0);
    }
    if overflow || i >= bytes.len() || word_character(bytes[i]) {
        Err(Error::InvalidConstant)
    } else {
        Ok((Constant::Integer(cur), i))
    }
}

fn identifier(bytes: Vec<u8>) -> (r: Result<Identifier, Error>)
    requires
        bytes@.len() > 0,
    ensures
        ({
            let ok = is_word_start(bytes@[0]) && forall|k: int|
                1 <= k < bytes@.len() ==> is_word_character(#[trigger] bytes@[k]);
            match r {
                Ok(id) => ok && id@ == bytes@,
                Err(e) => !ok && e is InvalidIdentifier,
            }
        }),
{
    if !word_start(bytes[0]) {
        return Err(Error::InvalidIdentifier);
    }
    let mut i: usize = 1;
    while i < bytes.len()
        invariant
            1 <= i <= bytes@.len(),
            forall|k: int| 1 <= k < i ==> is_word_character(#[trigger] bytes@[k]),
        decreases bytes@.len() - i,
    {
        if !word_character(bytes[i]) {
            return Err(Error::InvalidIdentifier);
        }
        i = i + 1;
    }
    Ok(Identifier(bytes))
}

/// The keyword or identifier at `start`, and where it ends.
fn literal(bytes: &[u8], start: usize) -> (r: Result<(Token, usize), Error>)
    requires
        start < bytes@.len(),
        operator_at(bytes@.skip(start as int)).1 == 0,
        !is_digit(bytes@[start as int]),
        bytes@[start as int] < 128,
    ensures
        ({
            let s = bytes@.skip(start as int);
            match r {
                Ok((t, e)) => e == start + lexeme_len(s) && !lexeme_fails(s) && lexeme_token(s, t),
                Err(e) => lexeme_error(s, e),
            }
        }),
{
    let ghost s = bytes@.skip(start as int);
    let mut word: Vec<u8> = Vec::new();
    word.push(bytes[start]);
    let mut i: usize = start + 1;
    proof {
        assert(s.drop_first() =~= bytes@.skip(start + 1));
    }
    while next_if_word(bytes, i).is_some()
        invariant
            start < i <= bytes@.len(),
            s == bytes@.skip(start as int),
            word_run(s.drop_first()) == (i - start - 1) + word_run(bytes@.skip(i as int)),
            word@ == bytes@.subrange(start as int, i as int),
            forall|k: int| start < k < i ==> is_word_character(#[trigger] bytes@[k]),
        decreases bytes@.len() - i,
    {
        proof {
            lemma_run_skip(bytes@, i as int);
        }
        word.push(bytes[i]);
        i = i + 1;
        proof {
            assert(word@ =~= bytes@.subrange(start as int, i as int));
        }
    }
    proof {
        assert(s.take(i - start) =~= word@);
        if i < bytes@.len() {
            assert(s[i - start] == bytes@[i as int]);
        }
        assert(s[0] == bytes@[start as int]);
    }
    if i >= bytes.len() || word_character(bytes[i]) {
        return Err(Error::InvalidLiteral);
    }
    match keyword_for(&word) {
        Some(k) => Ok((Token::Keyword(k), i)),
        None => {
            proof {
                assert forall|k: int| 1 <= k < word@.len() implies is_word_character(#[trigger] word@[k]) by {
                    assert(word@[k] == bytes@[start + k]);
                }
            }
            match identifier(word) {
                Ok(id) => Ok((Token::Identifier(id), i)),
                Err(e) => Err(e),
            }
        },
    }
}

fn error<T>(message: &str) -> (r: Result<T, Error>)
    ensures
        r matches Err(Error::Other(m)) && m@ == message@,
{
    Err(Error::Other(message.to_owned()))
}

/// The lexeme at `pos`, which holds no whitespace: its token and where it
/// ends, or the error it runs into.
fn lex_slice(bytes: &[u8], pos: usize) -> (r: Result<(Token, usize), Error>)
    requires
        pos < bytes@.len(),
        !is_whitespace(bytes@[pos as int]),
    ensures
        ({
            let s = bytes@.skip(pos as int);
            match r {
                Ok((t, e)) => e == pos + lexeme_len(s) && pos < e <= bytes@.len() && !lexeme_fails(s)
                    && lexeme_token(s, t),
                Err(e) => lexeme_error(s, e),
            }
        }),
{
    let ghost s = bytes@.skip(pos as int);
    let a = bytes[pos];
    let b = if pos + 1 < bytes.len() {
        bytes[pos + 1]
    } else {
        0
    };
    let c = if bytes.len() - pos > 2 {
        bytes[pos + 2]
    } else {
        0
    };
    assert(a == at(s, 0) && b == at(s, 1) && c == at(s, 2));
    if let Some((t, n)) = operator(a, b, c) {
        proof {
            if n >= 2 {
                assert(at(s, n - 1) != 0);
            }
        }
        return Ok((t, pos + n));
    }
    if a >= 128 {
        return error("Invalid Character (I Only Accept Ascii :[)");
    }
    if 48 <= a && a <= 57 {
        match constant_number(bytes, pos) {
            Ok((c, e)) => Ok((Token::Constant(c), e)),
            Err(e) => Err(e),
        }
    } else {
        literal(bytes, pos)
    }
}

/// The view of a lexing result.
pub open spec fn result_view(r: Result<Vec<Token>, Error>) -> Result<Seq<Token>, Error> {
    match r {
        Ok(v) => Ok(v@),
        Err(e) => Err(e),
    }
}

/// `r` after the tokens `ts`.
pub open spec fn after(ts: Seq<Token>, r: Result<Seq<Token>, Error>) -> Result<Seq<Token>, Error> {
    match r {
        Ok(rest) => Ok(ts + rest),
        Err(e) => Err(e),
    }
}

/// Splits `bytes` into tokens.
pub fn tokenize(bytes: &[u8]) -> (r: Result<Vec<Token>, Error>)
    ensures
        tokenized(bytes@, result_view(r)),
{
    let ghost all = bytes@;
    let mut tokens: Vec<Token> = Vec::new();
    let mut pos: usize = 0;
    assert(all.skip(0) =~= all);
    while pos < bytes.len()
        invariant
            pos <= bytes@.len(),
            all == bytes@,
            forall|r: Result<Seq<Token>, Error>|
                #[trigger] tokenized(all.skip(pos as int), r) ==> tokenized(all, after(tokens@, r)),
        decreases bytes@.len() - pos,
    {
        let ghost s = all.skip(pos as int);
        if 9 <= bytes[pos] && bytes[pos] <= 13 && bytes[pos] != 11 || bytes[pos] == 32 {
            proof {
                assert(s.drop_first() =~= all.skip(pos + 1));
                assert forall|r: Result<Seq<Token>, Error>|
                    #[trigger] tokenized(all.skip(pos + 1), r) implies tokenized(all, after(tokens@, r)) by {
                    assert(tokenized(s, r));
                }
            }
            pos = pos + 1;
        } else {
            match lex_slice(bytes, pos) {
                Ok((t, e)) => {
                    let ghost before = tokens@;
                    proof {
                        assert(s.skip(lexeme_len(s)) =~= all.skip(e as int));
                        assert forall|r: Result<Seq<Token>, Error>|
                            #[trigger] tokenized(all.skip(e as int), r) implies tokenized(
                                all,
                                after(before.push(t), r),
                            ) by {
                            let r2 = after(seq![t], r);
                            match r {
                                Ok(rest) => {
                                    assert((seq![t] + rest).drop_first() =~= rest);
                                    assert(before + (seq![t] + rest) =~= before.push(t) + rest);
                                },
                                Err(_) => {},
                            }
                            assert(tokenized(s, r2));
                        }
                    }
                    tokens.push(t);
                    pos = e;
                },
                Err(e) => {
                    proof {
                        assert(tokenized(s, Err(e)));
                    }
                    return Err(e);
                },
            }
        }
    }
    proof {
        assert(all.skip(pos as int) =~= Seq::<u8>::empty());
        assert(tokenized(all.skip(pos as int), Ok(Seq::empty())));
        assert(tokens@ + Seq::<Token>::empty() =~= tokens@);
    }
    Ok(tokens)
}

impl Token {
    pub fn identifier(&self) -> (r: bool)
        ensures
            r == self is Identifier,
    {
        matches!(self, Token::Identifier(_))
    }

    pub fn constant(&self) -> (r: bool)
        ensures
            r == self is Constant,
    {
        matches!(self, Token::Constant(_))
    }

    pub fn keyword(&self) -> (r: bool)
        ensures
            r == self is Keyword,
    {
        matches!(self, Token::Keyword(_))
    }
}


impl PartialEq<Token> for Keyword {
    fn eq(&self, other: &Token) -> (r: bool) {
        match other {
            Token::Keyword(k) => *k == *self,
            _ => false,
        }
    }
}

impl vstd::std_specs::cmp::PartialEqSpecImpl<Token> for Keyword {
    open spec fn obeys_eq_spec() -> bool {
        true
    }

    open spec fn eq_spec(&self, other: &Token) -> bool {
        *other == Token::Keyword(*self)
    }
}


impl PartialEq<Token> for Constant {
    fn eq(&self, other: &Token) -> (r: bool) {
        match other {
            Token::Constant(c) => *c == *self,
            _ => false,
        }
    }
}

impl vstd::std_specs::cmp::PartialEqSpecImpl<Token> for Constant {
    open spec fn obeys_eq_spec() -> bool {
        true
    }

    open spec fn eq_spec(&self, other: &Token) -> bool {
        *other == Token::Constant(*self)
    }
}

impl PartialEq<Token> for Identifier {
    fn eq(&self, other: &Token) -> (r: bool) {
        match other {
            Token::Identifier(c) => c.same(self),
            _ => false,
        }
    }
}

impl vstd::std_specs::cmp::PartialEqSpecImpl<Token> for Identifier {
    open spec fn obeys_eq_spec() -> bool {
        true
    }

    open spec fn eq_spec(&self, other: &Token) -> bool {
        other is Identifier && other->Identifier_0@ == self@
    }
}

} // verus!
