use vstd::prelude::*;

use crate::lex::{
    digits_value, ends_at_boundary, is_digit, is_whitespace, is_word_character, lemma_run_skip,
    same_bytes, word_run,
};

verus! {

/// A token of the smallest subset of the language.
#[derive(PartialEq, Eq, Debug)]
pub enum Token {
    Keyword(Keyword),
    Constant(Constant),
    Identifier(Identifier),
    OpenParen,
    CloseParen,
    OpenBrace,
    Semicolon,
    CloseBrace,
    Tilde,
    Decrement,
    Minus,
}

/// A name from the source text, compared by its bytes.
#[derive(Debug, PartialEq, Eq, Clone, Hash)]
pub struct Identifier(pub Vec<u8>);

impl View for Identifier {
    type V = Seq<u8>;

    open spec fn view(&self) -> Seq<u8> {
        self.0@
    }
}

#[derive(Debug, PartialEq, Eq, Clone, Copy, Structural)]
pub enum Keyword {
    Int,
    Void,
    Return,
}

#[derive(Debug, PartialEq, Eq, Clone, Copy, Structural)]
pub enum Constant {
    Integer(u64),
}

#[derive(Debug)]
pub enum Error {
    InvalidConstant,
    InvalidLiteral,
    InvalidIdentifier,
    NotAscii,
}

/// How a keyword is spelled, in ASCII codes.
pub open spec fn spelling(k: Keyword) -> Seq<u8> {
    match k {
        Keyword::Int => seq![105, 110, 116],
        Keyword::Void => seq![118, 111, 105, 100],
        Keyword::Return => seq![114, 101, 116, 117, 114, 110],
    }
}

/// The keyword spelled `w`, if any.
pub open spec fn keyword_of(w: Seq<u8>) -> Option<Keyword> {
    if w == spelling(Keyword::Int) {
        Some(Keyword::Int)
    } else if w == spelling(Keyword::Return) {
        Some(Keyword::Return)
    } else if w == spelling(Keyword::Void) {
        Some(Keyword::Void)
    } else {
        None
    }
}

impl Keyword {
    pub fn as_bytes(&self) -> (r: Vec<u8>)
        ensures
            r@ == spelling(*self),
    {
        let r = match self {
            Keyword::Int => vec![105, 110, 116],
            Keyword::Void => vec![118, 111, 105, 100],
            Keyword::Return => vec![114, 101, 116, 117, 114, 110],
        };
        assert(r@ =~= spelling(*self));
        r
    }
}

pub open spec fn is_alphanumeric(b: u8) -> bool {
    is_word_character(b) && b != 95
}

/// The single-byte punctuation token for `b`, if any.
pub open spec fn punctuation(b: u8) -> Option<Token> {
    if b == 40 {
        Some(Token::OpenParen)
    } else if b == 41 {
        Some(Token::CloseParen)
    } else if b == 123 {
        Some(Token::OpenBrace)
    } else if b == 59 {
        Some(Token::Semicolon)
    } else if b == 125 {
        Some(Token::CloseBrace)
    } else if b == 126 {
        Some(Token::Tilde)
    } else {
        None
    }
}

/// Whether `s` starts with `--`.
pub open spec fn starts_decrement(s: Seq<u8>) -> bool {
    s.len() >= 2 && s[0] == 45 && s[1] == 45
}

/// The length of the lexeme at the start of `s`, which starts with no
/// whitespace.
pub open spec fn lexeme_len(s: Seq<u8>) -> int {
    if punctuation(s[0]) is Some || (s[0] == 45 && !starts_decrement(s)) {
        1
    } else if starts_decrement(s) {
        2
    } else if is_digit(s[0]) {
        crate::lex::digit_run(s) as int
    } else {
        (1 + word_run(s.drop_first())) as int
    }
}

/// Whether lexing the start of `s` runs into an error.
pub open spec fn lexeme_fails(s: Seq<u8>) -> bool {
    if s[0] >= 128 {
        true
    } else if punctuation(s[0]) is Some || s[0] == 45 {
        false
    } else if is_digit(s[0]) {
        !ends_at_boundary(s, lexeme_len(s)) || digits_value(s.take(lexeme_len(s))) > u64::MAX
    } else if !ends_at_boundary(s, lexeme_len(s)) {
        true
    } else {
        keyword_of(s.take(lexeme_len(s))) is None && !is_alphanumeric(s[0])
    }
}

/// Whether `e` is the error that lexing the start of `s` runs into.
pub open spec fn lexeme_error(s: Seq<u8>, e: Error) -> bool {
    &&& lexeme_fails(s)
    &&& if s[0] >= 128 {
        e is NotAscii
    } else if is_digit(s[0]) {
        e is InvalidConstant
    } else if !ends_at_boundary(s, lexeme_len(s)) {
        e is InvalidLiteral
    } else {
        e is InvalidIdentifier
    }
}

/// Whether `t` is the token of the lexeme at the start of `s`.
pub open spec fn lexeme_token(s: Seq<u8>, t: Token) -> bool {
    if punctuation(s[0]) is Some {
        t == punctuation(s[0])->Some_0
    } else if starts_decrement(s) {
        t == Token::Decrement
    } else if s[0] == 45 {
        t == Token::Minus
    } else if is_digit(s[0]) {
        t == Token::Constant(Constant::Integer(digits_value(s.take(lexeme_len(s))) as u64))
    } else {
        match keyword_of(s.take(lexeme_len(s))) {
            Some(k) => t == Token::Keyword(k),
            None => t is Identifier && t->Identifier_0@ == s.take(lexeme_len(s)),
        }
    }
}

/// Whether `r` is what lexing `s` gives: its tokens in order, or the error
/// of the first lexeme that fails. Whitespace separates lexemes.
pub open spec fn tokenized(s: Seq<u8>, r: Result<Seq<Token>, Error>) -> bool
    decreases s.len(),
{
    if s.len() == 0 {
        r == Ok::<Seq<Token>, Error>(Seq::empty())
    } else if is_whitespace(s[0]) {
        tokenized(s.drop_first(), r)
    } else if lexeme_fails(s) {
        r is Err && lexeme_error(s, r->Err_0)
    } else if 1 <= lexeme_len(s) <= s.len() {
        match r {
            Ok(ts) => ts.len() > 0 && lexeme_token(s, ts[0]) && tokenized(
                s.skip(lexeme_len(s)),
                Ok(ts.drop_first()),
            ),
            Err(e) => tokenized(s.skip(lexeme_len(s)), Err(e)),
        }
    } else {
        false
    }
}

fn peek(bytes: &[u8], i: usize) -> (r: Option<u8>)
    requires
        i <= bytes@.len(),
    ensures
        r is Some <==> i < bytes@.len(),
        r matches Some(b) ==> b == bytes@[i as int],
{
    if i < bytes.len() {
        Some(bytes[i])
    } else {
        None
    }
}

fn identifier(bytes: Vec<u8>) -> (r: Result<Identifier, Error>)
    requires
        bytes@.len() > 0,
    ensures
        ({
            let ok = is_alphanumeric(bytes@[0]) && forall|k: int|
                1 <= k < bytes@.len() ==> is_word_character(#[trigger] bytes@[k]);
            match r {
                Ok(id) => ok && id@ == bytes@,
                Err(e) => !ok && e is InvalidIdentifier,
            }
        }),
{
    let b = bytes[0];
    if !(crate::lex::word_character(b) && b != 95) {
        return Err(Error::InvalidIdentifier);
    }
    let mut i: usize = 1;
    while i < bytes.len()
        invariant
            1 <= i <= bytes@.len(),
            forall|k: int| 1 <= k < i ==> is_word_character(#[trigger] bytes@[k]),
        decreases bytes@.len() - i,
    {
        if !crate::lex::word_character(bytes[i]) {
            return Err(Error::InvalidIdentifier);
        }
        i = i + 1;
    }
    Ok(Identifier(bytes))
}

fn keyword_for(w: &Vec<u8>) -> (r: Option<Keyword>)
    ensures
        r == keyword_of(w@),
{
    if same_bytes(w, &Keyword::Int.as_bytes()) {
        Some(Keyword::Int)
    } else if same_bytes(w, &Keyword::Return.as_bytes()) {
        Some(Keyword::Return)
    } else if same_bytes(w, &Keyword::Void.as_bytes()) {
        Some(Keyword::Void)
    } else {
        None
    }
}

/// The keyword or identifier at `start`, and where it ends.
fn literal(bytes: &[u8], start: usize) -> (r: Result<(Token, usize), Error>)
    requires
        start < bytes@.len(),
        punctuation(bytes@[start as int]) is None,
        bytes@[start as int] != 45,
        !is_digit(bytes@[start as int]),
        bytes@[start as int] < 128,
    ensures
        ({
            let s = bytes@.skip(start as int);
            match r {
                Ok((t, e)) => e == start + lexeme_len(s) && !lexeme_fails(s) && lexeme_token(s, t),
                Err(e) => lexeme_error(s, e),
            }
        }),
{
    let ghost s = bytes@.skip(start as int);
    let mut word: Vec<u8> = Vec::new();
    word.push(bytes[start]);
    let mut i: usize = start + 1;
    proof {
        assert(s.drop_first() =~= bytes@.skip(start + 1));
    }
    while crate::lex::next_if_word(bytes, i).is_some()
        invariant
            start < i <= bytes@.len(),
            s == bytes@.skip(start as int),
            word_run(s.drop_first()) == (i - start - 1) + word_run(bytes@.skip(i as int)),
            word@ == bytes@.subrange(start as int, i as int),
            forall|k: int| start < k < i ==> is_word_character(#[trigger] bytes@[k]),
        decreases bytes@.len() - i,
    {
        proof {
            lemma_run_skip(bytes@, i as int);
        }
        word.push(bytes[i]);
        i = i + 1;
        proof {
            assert(word@ =~= bytes@.subrange(start as int, i as int));
        }
    }
    proof {
        assert(s.take(i - start) =~= word@);
        if i < bytes@.len() {
            assert(s[i - start] == bytes@[i as int]);
        }
        assert(s[0] == bytes@[start as int]);
    }
    match peek(bytes, i) {
        Some(b) if !crate::lex::word_character(b) => {},
        _ => return Err(Error::InvalidLiteral),
    }
    match keyword_for(&word) {
        Some(k) => Ok((Token::Keyword(k), i)),
        None => {
            proof {
                assert forall|k: int| 1 <= k < word@.len() implies is_word_character(#[trigger] word@[k]) by {
                    assert(word@[k] == bytes@[start + k]);
                }
            }
            match identifier(word) {
                Ok(id) => Ok((Token::Identifier(id), i)),
                Err(e) => Err(e),
            }
        },
    }
}

/// The lexeme at `pos`, which holds no whitespace: its token and where it
/// ends, or the error it runs into.
fn lex_token(bytes: &[u8], pos: usize) -> (r: Result<(Token, usize), Error>)
    requires
        pos < bytes@.len(),
        !is_whitespace(bytes@[pos as int]),
    ensures
        ({
            let s = bytes@.skip(pos as int);
            match r {
                Ok((t, e)) => e == pos + lexeme_len(s) && pos < e <= bytes@.len() && !lexeme_fails(s)
                    && lexeme_token(s, t),
                Err(e) => lexeme_error(s, e),
            }
        }),
{
    let ghost s = bytes@.skip(pos as int);
    let a = bytes[pos];
    assert(s[0] == a);
    if a >= 128 {
        return Err(Error::NotAscii);
    }
    if a == 40 {
        Ok((Token::OpenParen, pos + 1))
    } else if a == 41 {
        Ok((Token::CloseParen, pos + 1))
    } else if a == 123 {
        Ok((Token::OpenBrace, pos + 1))
    } else if a == 59 {
        Ok((Token::Semicolon, pos + 1))
    } else if a == 125 {
        Ok((Token::CloseBrace, pos + 1))
    } else if a == 126 {
        Ok((Token::Tilde, pos + 1))
    } else if 48 <= a && a <= 57 {
        match crate::lex::constant_number(bytes, pos) {
            Ok((crate::lex::Constant::Integer(v), e)) => Ok((Token::Constant(Constant::Integer(v)), e)),
            Err(_) => Err(Error::InvalidConstant),
        }
    } else if a == 45 {
        if peek(bytes, pos + 1) == Some(45u8) {
            assert(s[1] == bytes@[pos + 1]);
            Ok((Token::Decrement, pos + 2))
        } else {
            proof {
                if s.len() >= 2 {
                    assert(s[1] == bytes@[pos + 1]);
                }
            }
            Ok((Token::Minus, pos + 1))
        }
    } else {
        literal(bytes, pos)
    }
}

/// The view of a lexing result.
pub open spec fn result_view(r: Result<Vec<Token>, Error>) -> Result<Seq<Token>, Error> {
    match r {
        Ok(v) => Ok(v@),
        Err(e) => Err(e),
    }
}

/// `r` after the tokens `ts`.
pub open spec fn after(ts: Seq<Token>, r: Result<Seq<Token>, Error>) -> Result<Seq<Token>, Error> {
    match r {
        Ok(rest) => Ok(ts + rest),
        Err(e) => Err(e),
    }
}

/// Splits `bytes` into tokens.
pub fn tokenize(bytes: &[u8]) -> (r: Result<Vec<Token>, Error>)
    ensures
        tokenized(bytes@, result_view(r)),
{
    let ghost all = bytes@;
    let mut tokens: Vec<Token> = Vec::new();
    let mut pos: usize = 0;
    assert(all.skip(0) =~= all);
    while pos < bytes.len()
        invariant
            pos <= bytes@.len(),
            all == bytes@,
            forall|r: Result<Seq<Token>, Error>|
                #[trigger] tokenized(all.skip(pos as int), r) ==> tokenized(all, after(tokens@, r)),
        decreases bytes@.len() - pos,
    {
        let ghost s = all.skip(pos as int);
        let byte = bytes[pos];
        if byte < 128 && (9 <= byte && byte <= 13 && byte != 11 || byte == 32) {
            proof {
                assert(s.drop_first() =~= all.skip(pos + 1));
                assert forall|r: Result<Seq<Token>, Error>|
                    #[trigger] tokenized(all.skip(pos + 1), r) implies tokenized(all, after(tokens@, r)) by {
                    assert(tokenized(s, r));
                }
            }
            pos = pos + 1;
        } else {
            match lex_token(bytes, pos) {
                Ok((t, e)) => {
                    let ghost before = tokens@;
                    proof {
                        assert(s.skip(lexeme_len(s)) =~= all.skip(e as int));
                        assert forall|r: Result<Seq<Token>, Error>|
                            #[trigger] tokenized(all.skip(e as int), r) implies tokenized(
                                all,
                                after(before.push(t), r),
                            ) by {
                            let r2 = after(seq![t], r);
                            match r {
                                Ok(rest) => {
                                    assert((seq![t] + rest).drop_first() =~= rest);
                                    assert(before + (seq![t] + rest) =~= before.push(t) + rest);
                                },
                                Err(_) => {},
                            }
                            assert(tokenized(s, r2));
                        }
                    }
                    tokens.push(t);
                    pos = e;
                },
                Err(e) => {
                    proof {
                        assert(tokenized(s, Err(e)));
                    }
                    return Err(e);
                },
            }
        }
    }
    proof {
        assert(all.skip(pos as int) =~= Seq::<u8>::empty());
        assert(tokenized(all.skip(pos as int), Ok(Seq::empty())));
        assert(tokens@ + Seq::<Token>::empty() =~= tokens@);
    }
    Ok(tokens)
}


impl PartialEq<Token> for Keyword {
    fn eq(&self, other: &Token) -> (r: bool) {
        match other {
            Token::Keyword(k) => *k == *self,
            _ => false,
        }
    }
}

impl vstd::std_specs::cmp::PartialEqSpecImpl<Token> for Keyword {
    open spec fn obeys_eq_spec() -> bool {
        true
    }

    open spec fn eq_spec(&self, other: &Token) -> bool {
        *other == Token::Keyword(*self)
    }
}

impl PartialEq<Token> for Constant {
    fn eq(&self, other: &Token) -> (r: bool) {
        match other {
            Token::Constant(c) => *c == *self,
            _ => false,
        }
    }
}

impl vstd::std_specs::cmp::PartialEqSpecImpl<Token> for Constant {
    open spec fn obeys_eq_spec() -> bool {
        true
    }

    open spec fn eq_spec(&self, other: &Token) -> bool {
        *other == Token::Constant(*self)
    }
}

impl PartialEq<Token> for Identifier {
    fn eq(&self, other: &Token) -> (r: bool) {
        match other {
            Token::Identifier(c) => same_bytes(&c.0, &self.0),
            _ => false,
        }
    }
}

impl vstd::std_specs::cmp::PartialEqSpecImpl<Token> for Identifier {
    open spec fn obeys_eq_spec() -> bool {
        true
    }

    open spec fn eq_spec(&self, other: &Token) -> bool {
        other is Identifier && other->Identifier_0@ == self@
    }
}

} // verus!
