use vstd::prelude::*;

use crate::compile::{groups_ok, inst_count};
use crate::lex::{token_of, Lexer, Token};
use crate::regexp::{copy_chars, spec_number, unnumbered, Regexp};

verus! {

/// Malformed pattern text: the character offset at which parsing
/// stopped, and the unexpected token — `None` when the pattern ended
/// too early.
#[derive(Copy, Clone, Debug, PartialEq, Eq, Structural)]
pub struct ParseError {
    pub offset: usize,
    pub token: Option<Token>,
}

/// Every capture group still carries the parser's placeholder id.
pub open spec fn all_unnumbered(r: Regexp) -> bool
    decreases r,
{
    match r {
        Regexp::Alt(l, rr) => all_unnumbered(*l) && all_unnumbered(*rr),
        Regexp::Cat(l, rr) => all_unnumbered(*l) && all_unnumbered(*rr),
        Regexp::Lit(_) => true,
        Regexp::Dot => true,
        Regexp::Paren(id, inner) => id == usize::MAX && all_unnumbered(*inner),
        Regexp::Quest(_, inner) => all_unnumbered(*inner),
        Regexp::Star(_, inner) => all_unnumbered(*inner),
        Regexp::Plus(_, inner) => all_unnumbered(*inner),
    }
}

/// Assigning group ids does not change what the tree compiles to in
/// size.
proof fn lemma_number_preserves_count(r: Regexp, next: int)
    ensures
        inst_count(spec_number(r, next).0) == inst_count(r),
    decreases r,
{
    match r {
        Regexp::Alt(l, rr) => {
            lemma_number_preserves_count(*l, next);
            lemma_number_preserves_count(*rr, spec_number(*l, next).1);
        },
        Regexp::Cat(l, rr) => {
            lemma_number_preserves_count(*l, next);
            lemma_number_preserves_count(*rr, spec_number(*l, next).1);
        },
        Regexp::Lit(_) => {},
        Regexp::Dot => {},
        Regexp::Paren(id, inner) => {
            if id == usize::MAX {
                lemma_number_preserves_count(*inner, next + 1);
            } else {
                lemma_number_preserves_count(*inner, next);
            }
        },
        Regexp::Quest(_, inner) => {
            lemma_number_preserves_count(*inner, next);
        },
        Regexp::Star(_, inner) => {
            lemma_number_preserves_count(*inner, next);
        },
        Regexp::Plus(_, inner) => {
            lemma_number_preserves_count(*inner, next);
        },
    }
}

/// Assigning ids from `next` to a tree of placeholder groups hands out
/// ids below `next + unnumbered(r)`, so when that stays within the
/// compiler's group-id bound the numbered tree satisfies it.
proof fn lemma_number_groups_ok(r: Regexp, next: int)
    requires
        all_unnumbered(r),
        0 <= next,
        next + unnumbered(r) <= (usize::MAX - 2) / 2,
    ensures
        groups_ok(spec_number(r, next).0),
    decreases r,
{
    match r {
        Regexp::Alt(l, rr) => {
            crate::regexp::lemma_number_next(*l, next);
            lemma_number_groups_ok(*l, next);
            lemma_number_groups_ok(*rr, spec_number(*l, next).1);
        },
        Regexp::Cat(l, rr) => {
            crate::regexp::lemma_number_next(*l, next);
            lemma_number_groups_ok(*l, next);
            lemma_number_groups_ok(*rr, spec_number(*l, next).1);
        },
        Regexp::Lit(_) => {},
        Regexp::Dot => {},
        Regexp::Paren(id, inner) => {
            lemma_number_groups_ok(*inner, next + 1);
        },
        Regexp::Quest(_, inner) => {
            lemma_number_groups_ok(*inner, next);
        },
        Regexp::Star(_, inner) => {
            lemma_number_groups_ok(*inner, next);
        },
        Regexp::Plus(_, inner) => {
            lemma_number_groups_ok(*inner, next);
        },
    }
}

/// The token sequence a pattern lexes to: one token per character.
pub open spec fn spec_tokens(chars: Seq<char>) -> Seq<Token> {
    chars.map_values(|c: char| token_of(c))
}

/// Does this token begin a `single` (a literal, the wildcard, or a
/// parenthesized group)?
pub open spec fn starts_single_token(tok: Token) -> bool {
    tok matches Token::Char(_) || tok == Token::Dot || tok == Token::ParenL
}

/// The position a recursive descent resumes from, kept strictly past
/// `pos` and inside the token sequence so the descent terminates on
/// every argument.  Where a sub-parse succeeded, its end position
/// already lies in that range and comes through unchanged.
pub open spec fn resume_at(pos: int, p: int, len: int) -> int {
    if p <= pos {
        pos + 1
    } else if p > len {
        len
    } else {
        p
    }
}

/// alternation := concatenation ('|' alternation)?  — the reference
/// parse, position by position.
pub open spec fn spec_parse_alt(toks: Seq<Token>, pos: int) -> Result<(Regexp, int), ParseError>
    decreases toks.len() - pos, 3int
        when 0 <= pos <= toks.len()
{
    match spec_parse_concat(toks, pos) {
        Err(e) => Err(e),
        Ok((left, p)) => if pos < toks.len() && p < toks.len() && toks[p] == Token::Alt {
            match spec_parse_alt(toks, resume_at(pos, p + 1, toks.len() as int)) {
                Err(e) => Err(e),
                Ok((right, p2)) => Ok((Regexp::Alt(Box::new(left), Box::new(right)), p2)),
            }
        } else {
            Ok((left, p))
        },
    }
}

/// concatenation := repetition concatenation?
pub open spec fn spec_parse_concat(toks: Seq<Token>, pos: int) -> Result<(Regexp, int), ParseError>
    decreases toks.len() - pos, 2int
        when 0 <= pos <= toks.len()
{
    match spec_parse_repeat(toks, pos) {
        Err(e) => Err(e),
        Ok((first, p)) => if pos < toks.len() && p < toks.len() && starts_single_token(toks[p]) {
            match spec_parse_concat(toks, resume_at(pos, p, toks.len() as int)) {
                Err(e) => Err(e),
                Ok((rest, p2)) => Ok((Regexp::Cat(Box::new(first), Box::new(rest)), p2)),
            }
        } else {
            Ok((first, p))
        },
    }
}

/// repetition := single (('*' | '+' | '?') '?'?)?
pub open spec fn spec_parse_repeat(toks: Seq<Token>, pos: int) -> Result<(Regexp, int), ParseError>
    decreases toks.len() - pos, 1int
        when 0 <= pos <= toks.len()
{
    match spec_parse_single(toks, pos) {
        Err(e) => Err(e),
        Ok((single, p)) => if p < toks.len() && (toks[p] == Token::Star || toks[p] == Token::Plus
            || toks[p] == Token::Quest) {
            let nongreedy = p + 1 < toks.len() && toks[p + 1] == Token::Quest;
            let q = if nongreedy {
                p + 2
            } else {
                p + 1
            };
            let re = if toks[p] == Token::Star {
                Regexp::Star(!nongreedy, Box::new(single))
            } else if toks[p] == Token::Plus {
                Regexp::Plus(!nongreedy, Box::new(single))
            } else {
                Regexp::Quest(!nongreedy, Box::new(single))
            };
            Ok((re, q))
        } else {
            Ok((single, p))
        },
    }
}

/// single := '(' ':' alternation ')' | '(' '?' ':' alternation ')'
///         | '(' alternation ')' | CHAR | '.'
pub open spec fn spec_parse_single(toks: Seq<Token>, pos: int) -> Result<(Regexp, int), ParseError>
    decreases toks.len() - pos, 0int
        when 0 <= pos <= toks.len()
{
    if pos >= toks.len() {
        Err(ParseError { offset: pos as usize, token: None })
    } else {
        match toks[pos] {
            Token::Char(c) => Ok((Regexp::Lit(c), pos + 1)),
            Token::Dot => Ok((Regexp::Dot, pos + 1)),
            Token::ParenL => {
                let noncapturing = (pos + 1 < toks.len() && toks[pos + 1] == Token::Colon) || (pos
                    + 2 < toks.len() && toks[pos + 1] == Token::Quest && toks[pos + 2]
                    == Token::Colon);
                let start = if pos + 1 < toks.len() && toks[pos + 1] == Token::Colon {
                    pos + 2
                } else if noncapturing {
                    pos + 3
                } else {
                    pos + 1
                };
                match spec_parse_alt(toks, start) {
                    Err(e) => Err(e),
                    Ok((inner, p)) => if 0 <= p < toks.len() && toks[p] == Token::ParenR {
                        if noncapturing {
                            Ok((inner, p + 1))
                        } else {
                            Ok((Regexp::Paren(usize::MAX, Box::new(inner)), p + 1))
                        }
                    } else if 0 <= p < toks.len() {
                        Err(ParseError { offset: p as usize, token: Some(toks[p]) })
                    } else {
                        Err(ParseError { offset: p as usize, token: None })
                    },
                }
            },
            tok => Err(ParseError { offset: pos as usize, token: Some(tok) }),
        }
    }
}

/// What `Regexp::parse` returns, as a function of the pattern text
/// alone: lex, parse the whole pattern as one alternation, and number
/// the capture groups left to right from 1.
pub open spec fn spec_parse(chars: Seq<char>) -> Result<Regexp, ParseError> {
    let toks = spec_tokens(chars);
    match spec_parse_alt(toks, 0) {
        Err(e) => Err(e),
        Ok((re, p)) => if p == toks.len() {
            Ok(spec_number(re, 1).0)
        } else if 0 <= p < toks.len() {
            Err(ParseError { offset: p as usize, token: Some(toks[p]) })
        } else {
            Err(ParseError { offset: p as usize, token: None })
        },
    }
}

/// The exec result and the reference parse agree: same tree, same end
/// position, same error.
pub open spec fn parse_result_matches(
    r: Result<(Regexp, usize), ParseError>,
    w: Result<(Regexp, int), ParseError>,
) -> bool {
    match (r, w) {
        (Ok(v), Ok(u)) => v.0 == u.0 && v.1 as int == u.1,
        (Err(e), Err(f)) => e == f,
        _ => false,
    }
}

/// Does this token begin a `single` (a literal, the wildcard, or a
/// parenthesized group)?
fn starts_single(tok: Token) -> (b: bool)
    ensures
        b == starts_single_token(tok),
{
    match tok {
        Token::Char(_) => true,
        Token::Dot => true,
        Token::ParenL => true,
        _ => false,
    }
}

/// alternation := concatenation ('|' alternation)?
fn parse_alt(toks: &Vec<Token>, pos: usize) -> (r: Result<(Regexp, usize), ParseError>)
    requires
        pos <= toks@.len(),
    ensures
        parse_result_matches(r, spec_parse_alt(toks@, pos as int)),
        r matches Ok(v) ==> pos < v.1 <= toks@.len() && all_unnumbered(v.0) && unnumbered(v.0)
            <= v.1 - pos && inst_count(v.0) <= 2 * (v.1 - pos),
    decreases toks@.len() - pos, 3int,
{
    let (left, p) = match parse_concat(toks, pos) {
        Ok(v) => v,
        Err(e) => {
            return Err(e);
        },
    };
    if p < toks.len() {
        match toks[p] {
            Token::Alt => {
                proof {
                    assert(resume_at(pos as int, p + 1, toks@.len() as int) == p + 1);
                }
                let (right, p2) = match parse_alt(toks, p + 1) {
                    Ok(v) => v,
                    Err(e) => {
                        return Err(e);
                    },
                };
                return Ok((Regexp::Alt(Box::new(left), Box::new(right)), p2));
            },
            _ => {},
        }
    }
    Ok((left, p))
}

/// concatenation := repetition concatenation?
fn parse_concat(toks: &Vec<Token>, pos: usize) -> (r: Result<(Regexp, usize), ParseError>)
    requires
        pos <= toks@.len(),
    ensures
        parse_result_matches(r, spec_parse_concat(toks@, pos as int)),
        r matches Ok(v) ==> pos < v.1 <= toks@.len() && all_unnumbered(v.0) && unnumbered(v.0)
            <= v.1 - pos && inst_count(v.0) <= 2 * (v.1 - pos),
    decreases toks@.len() - pos, 2int,
{
    let (first, p) = match parse_repeat(toks, pos) {
        Ok(v) => v,
        Err(e) => {
            return Err(e);
        },
    };
    if p < toks.len() && starts_single(toks[p]) {
        proof {
            assert(resume_at(pos as int, p as int, toks@.len() as int) == p as int);
        }
        let (rest, p2) = match parse_concat(toks, p) {
            Ok(v) => v,
            Err(e) => {
                return Err(e);
            },
        };
        return Ok((Regexp::Cat(Box::new(first), Box::new(rest)), p2));
    }
    Ok((first, p))
}

/// repetition := single (('*' | '+' | '?') '?'?)?  A trailing '?' on
/// the operator makes the repetition non-greedy; operators do not
/// stack.
fn parse_repeat(toks: &Vec<Token>, pos: usize) -> (r: Result<(Regexp, usize), ParseError>)
    requires
        pos <= toks@.len(),
    ensures
        parse_result_matches(r, spec_parse_repeat(toks@, pos as int)),
        r matches Ok(v) ==> pos < v.1 <= toks@.len() && all_unnumbered(v.0) && unnumbered(v.0)
            <= v.1 - pos && inst_count(v.0) <= 2 * (v.1 - pos),
    decreases toks@.len() - pos, 1int,
{
    let (single, p) = match parse_single(toks, pos) {
        Ok(v) => v,
        Err(e) => {
            return Err(e);
        },
    };
    if p < toks.len() {
        let op = toks[p];
        match op {
            Token::Star | Token::Plus | Token::Quest => {
                let nongreedy = p + 1 < toks.len() && matches!(toks[p + 1], Token::Quest);
                let q = if nongreedy {
                    p + 2
                } else {
                    p + 1
                };
                let re = match op {
                    Token::Star => Regexp::Star(!nongreedy, Box::new(single)),
                    Token::Plus => Regexp::Plus(!nongreedy, Box::new(single)),
                    _ => Regexp::Quest(!nongreedy, Box::new(single)),
                };
                return Ok((re, q));
            },
            _ => {},
        }
    }
    Ok((single, p))
}

/// single := '(' ':' alternation ')' | '(' '?' ':' alternation ')'
///         | '(' alternation ')' | CHAR | '.'
/// Both the `(:` and the `(?:` spellings group without capturing; a
/// plain group gets the placeholder id for `number_parens` to fill
/// in.
fn parse_single(toks: &Vec<Token>, pos: usize) -> (r: Result<(Regexp, usize), ParseError>)
    requires
        pos <= toks@.len(),
    ensures
        parse_result_matches(r, spec_parse_single(toks@, pos as int)),
        r matches Ok(v) ==> pos < v.1 <= toks@.len() && all_unnumbered(v.0) && unnumbered(v.0)
            <= v.1 - pos && inst_count(v.0) <= 2 * (v.1 - pos),
    decreases toks@.len() - pos, 0int,
{
    if pos >= toks.len() {
        return Err(ParseError { offset: pos, token: None });
    }
    match toks[pos] {
        Token::Char(c) => Ok((Regexp::Lit(c), pos + 1)),
        Token::Dot => Ok((Regexp::Dot, pos + 1)),
        Token::ParenL => {
            let plain_colon = pos + 1 < toks.len() && matches!(toks[pos + 1], Token::Colon);
            let quest_colon = toks.len() - pos > 2 && matches!(toks[pos + 1], Token::Quest)
                && matches!(toks[pos + 2], Token::Colon);
            let noncapturing = plain_colon || quest_colon;
            let start = if plain_colon {
                pos + 2
            } else if quest_colon {
                pos + 3
            } else {
                pos + 1
            };
            let (inner, p) = match parse_alt(toks, start) {
                Ok(v) => v,
                Err(e) => {
                    return Err(e);
                },
            };
            if p < toks.len() && matches!(toks[p], Token::ParenR) {
                if noncapturing {
                    Ok((inner, p + 1))
                } else {
                    Ok((Regexp::Paren(usize::MAX, Box::new(inner)), p + 1))
                }
            } else if p < toks.len() {
                Err(ParseError { offset: p, token: Some(toks[p]) })
            } else {
                Err(ParseError { offset: p, token: None })
            }
        },
        tok => Err(ParseError { offset: pos, token: Some(tok) }),
    }
}

impl Regexp {
    /// Parse pattern text into a syntax tree, with capture-group ids
    /// assigned left to right starting at 1 (id 0 stays reserved for
    /// the whole-match group that `unanchored` adds).  The result —
    /// tree, numbering and parse error alike — is exactly
    /// `spec_parse` of the pattern: a deterministic function of the
    /// text, erring precisely on text outside the grammar.  A parsed
    /// tree is ready for the compiler: its group ids are in bounds and
    /// its instruction count is at most twice the pattern length.
    pub fn parse(pattern: &Vec<char>) -> (r: Result<Regexp, ParseError>)
        requires
            pattern@.len() + 1 <= (usize::MAX - 2) / 2,
        ensures
            r == spec_parse(pattern@),
            r matches Ok(re) ==> groups_ok(re) && inst_count(re) <= 2 * pattern@.len(),
    {
        let mut lx = Lexer::new(copy_chars(pattern));
        let mut toks: Vec<Token> = Vec::new();
        #[verifier::loop_isolation(false)]
        loop
            invariant
                lx.chars@ == pattern@,
                lx.pos <= pattern@.len(),
                toks@.len() == lx.pos,
                forall|k: int| 0 <= k < toks@.len() ==> toks@[k] == token_of(pattern@[k]),
            decreases pattern@.len() - lx.pos,
        {
            match lx.next_token() {
                Some((_, tok, _)) => {
                    toks.push(tok);
                },
                None => {
                    break ;
                },
            }
        }
        proof {
            assert(toks@ =~= spec_tokens(pattern@));
        }
        let (re, p) = match parse_alt(&toks, 0) {
            Ok(v) => v,
            Err(e) => {
                return Err(e);
            },
        };
        if p < toks.len() {
            return Err(ParseError { offset: p, token: Some(toks[p]) });
        }
        proof {
            crate::regexp::lemma_number_next(re, 1);
            lemma_number_groups_ok(re, 1);
            lemma_number_preserves_count(re, 1);
        }
        let (re2, _) = re.number_parens(1);
        Ok(re2)
    }
}

} // verus!
