use vstd::prelude::*;

verus! {

/// One token of the pattern syntax.  Every character is exactly one
/// token; the ones without their own operator meaning become `Char`.
#[derive(Copy, Clone, Debug, PartialEq, Eq, Structural)]
pub enum Token {
    Alt,
    Star,
    Plus,
    Quest,
    ParenL,
    ParenR,
    Colon,
    Dot,
    Char(char),
}

/// The token a single pattern character lexes to.
pub open spec fn token_of(c: char) -> Token {
    if c == '|' {
        Token::Alt
    } else if c == '*' {
        Token::Star
    } else if c == '+' {
        Token::Plus
    } else if c == '?' {
        Token::Quest
    } else if c == '(' {
        Token::ParenL
    } else if c == ')' {
        Token::ParenR
    } else if c == ':' {
        Token::Colon
    } else if c == '.' {
        Token::Dot
    } else {
        Token::Char(c)
    }
}

/// Tokenizer over a pattern: one token per character, spans given as
/// half-open character-offset ranges.
#[derive(Clone, Debug)]
pub struct Lexer {
    pub chars: Vec<char>,
    pub pos: usize,
}

impl Lexer {
    /// A lexer at the start of the pattern.
    pub fn new(chars: Vec<char>) -> (lx: Lexer)
        ensures
            lx.chars@ == chars@,
            lx.pos == 0,
    {
        Lexer { chars, pos: 0 }
    }

    /// The next token with its span, or `None` at the end of the
    /// pattern.  Lexing cannot fail.
    pub fn next_token(&mut self) -> (r: Option<(usize, Token, usize)>)
        ensures
            final(self).chars@ == old(self).chars@,
            old(self).pos < old(self).chars@.len() ==> {
                &&& r == Some(
                    (
                        old(self).pos,
                        token_of(old(self).chars@[old(self).pos as int]),
                        (old(self).pos + 1) as usize,
                    ),
                )
                &&& final(self).pos == old(self).pos + 1
            },
            old(self).pos >= old(self).chars@.len() ==> {
                &&& r == None::<(usize, Token, usize)>
                &&& final(self).pos == old(self).pos
            },
    {
        if self.pos < self.chars.len() {
            let i = self.pos;
            let ch = self.chars[i];
            let tok = match ch {
                '|' => Token::Alt,
                '*' => Token::Star,
                '+' => Token::Plus,
                '?' => Token::Quest,
                '(' => Token::ParenL,
                ')' => Token::ParenR,
                ':' => Token::Colon,
                '.' => Token::Dot,
                ch => Token::Char(ch),
            };
            self.pos = i + 1;
            Some((i, tok, i + 1))
        } else {
            None
        }
    }
}

} // verus!
