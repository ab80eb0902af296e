//! The executable lexer.

use vstd::prelude::*;

use crate::parser::element::Operation;
use crate::parser::scope_marker::ScopeMarker;
use crate::parser::token::{
    decimal, digit_value, digits_end, followed_by, is_digit, is_letter, is_space, is_word,
    lemma_digits_end, lemma_word_end, lex, lex_from, lexemes, symbol_of, word_end, LexError,
    Lexeme, Token,
};

verus! {

broadcast use vstd::string::group_string_axioms;

/// What the lexer returns, as a model.
pub open spec fn lexed(r: Result<Vec<Token>, LexError>) -> Result<Seq<Lexeme>, LexError> {
    match r {
        Ok(tokens) => Ok(lexemes(tokens@)),
        Err(e) => Err(e),
    }
}

/// The tokens read so far, followed by what the rest of the text gives.
pub open spec fn continued(done: Seq<Lexeme>, rest: Result<Seq<Lexeme>, LexError>) -> Result<
    Seq<Lexeme>,
    LexError,
> {
    match rest {
        Ok(r) => Ok(done + r),
        Err(e) => Err(e),
    }
}

fn space_char(c: char) -> (b: bool)
    ensures
        b == is_space(c),
{
    ('\u{9}' <= c && c <= '\u{d}') || c == ' ' || c == '\u{85}' || c == '\u{a0}' || c == '\u{1680}'
        || ('\u{2000}' <= c && c <= '\u{200a}') || c == '\u{2028}' || c == '\u{2029}' || c
        == '\u{202f}' || c == '\u{205f}' || c == '\u{3000}'
}

fn digit_char(c: char) -> (b: bool)
    ensures
        b == is_digit(c),
{
    '0' <= c && c <= '9'
}

fn letter_char(c: char) -> (b: bool)
    ensures
        b == is_letter(c),
{
    ('a' <= c && c <= 'z') || ('A' <= c && c <= 'Z')
}

fn word_char(c: char) -> (b: bool)
    ensures
        b == is_word(c),
{
    letter_char(c) || digit_char(c) || c == '_'
}

/// The characters of `source`, for access by index.
fn to_chars(source: &str) -> (cs: Vec<char>)
    ensures
        cs@ == source@,
{
    let mut cs: Vec<char> = Vec::new();
    for c in it: source.chars()
        invariant
            it.seq() == source@,
            cs@ == source@.take(it.index()),
    {
        cs.push(c);
        assert(source@.take(it.index() + 1) == source@.take(it.index()).push(c));
    }
    cs
}

/// The value of a run of digits does not shrink when the run grows.
proof fn lemma_decimal_grows(s: Seq<char>, start: int, mid: int, end: int)
    requires
        0 <= start <= mid <= end <= s.len(),
        forall|k: int| start <= k < end ==> is_digit(#[trigger] s[k]),
    ensures
        0 <= decimal(s.subrange(start, mid)) <= decimal(s.subrange(start, end)),
    decreases end - start,
{
    if start < end {
        assert(s.subrange(start, end).drop_last() == s.subrange(start, end - 1));
        if mid < end {
            lemma_decimal_grows(s, start, mid, end - 1);
        } else {
            lemma_decimal_grows(s, start, end - 1, end - 1);
        }
    } else {
        assert(s.subrange(start, mid).len() == 0);
    }
}

/// Reads the number whose first digit is at `start`.
fn read_number(cs: &Vec<char>, start: usize) -> (r: Result<(i32, usize), LexError>)
    requires
        start < cs.len(),
        is_digit(cs[start as int]),
    ensures
        match r {
            Ok((value, end)) => {
                &&& end == digits_end(cs@, start as int)
                &&& start < end <= cs.len()
                &&& value == decimal(cs@.subrange(start as int, end as int))
            },
            Err(e) => {
                &&& e == LexError::LiteralOutOfRange(start)
                &&& decimal(cs@.subrange(start as int, digits_end(cs@, start as int))) > i32::MAX
            },
        },
{
    let n = cs.len();
    let mut value: i32 = 0;
    let mut j: usize = start;
    proof {
        lemma_digits_end(cs@, start as int);
        assert(cs@.subrange(start as int, start as int).len() == 0);
    }
    while j < n && digit_char(cs[j])
        invariant
            n == cs.len(),
            start <= j <= n,
            digits_end(cs@, j as int) == digits_end(cs@, start as int),
            0 <= value,
            value == decimal(cs@.subrange(start as int, j as int)),
        decreases n - j,
    {
        let d: i32 = (cs[j] as u32 - '0' as u32) as i32;
        proof {
            assert(d == digit_value(cs[j as int]));
            assert(cs@.subrange(start as int, j + 1).drop_last() == cs@.subrange(
                start as int,
                j as int,
            ));
            assert(decimal(cs@.subrange(start as int, j + 1)) == value * 10 + d);
            lemma_digits_end(cs@, j as int);
        }
        if value > (i32::MAX - d) / 10 {
            proof {
                lemma_digits_end(cs@, start as int);
                lemma_decimal_grows(cs@, start as int, j + 1, digits_end(cs@, start as int));
            }
            return Err(LexError::LiteralOutOfRange(start));
        }
        value = value * 10 + d;
        j = j + 1;
    }
    proof {
        lemma_digits_end(cs@, start as int);
    }
    Ok((value, j))
}

/// Reads the identifier whose first character is at `start`.
fn read_word(cs: &Vec<char>, start: usize) -> (r: (String, usize))
    requires
        start < cs.len(),
        is_letter(cs[start as int]),
    ensures
        r.1 == word_end(cs@, start as int),
        start < r.1 <= cs.len(),
        r.0@ == cs@.subrange(start as int, r.1 as int),
{
    let n = cs.len();
    let mut name = String::new();
    let mut j: usize = start;
    while j < n && word_char(cs[j])
        invariant
            n == cs.len(),
            start <= j <= n,
            word_end(cs@, j as int) == word_end(cs@, start as int),
            name@ == cs@.subrange(start as int, j as int),
        decreases n - j,
    {
        name.push(cs[j]);
        assert(cs@.subrange(start as int, j + 1) == cs@.subrange(start as int, j as int).push(
            cs[j as int],
        ));
        j = j + 1;
    }
    proof {
        lemma_word_end(cs@, start as int);
    }
    (name, j)
}

/// The token that `c` forms by itself, if any.
fn read_symbol(c: char) -> (t: Option<Token>)
    ensures
        match t {
            Some(token) => symbol_of(c) == Some(token@),
            None => symbol_of(c) is None,
        },
{
    match Operation::from_char(c) {
        Some(op) => Some(Token::Operator(op)),
        None => {
            let m = ScopeMarker::from_char(c);
            if m != ScopeMarker::Unknown {
                Some(Token::Delimiter(m))
            } else if c == '=' {
                Some(Token::Assign)
            } else if c == ';' {
                Some(Token::Semicolon)
            } else {
                None
            }
        },
    }
}

/// Appending a token appends its model.
proof fn lemma_lexemes_push(tokens: Seq<Token>, t: Token)
    ensures
        lexemes(tokens.push(t)) == lexemes(tokens).push(t@),
{
    assert(lexemes(tokens.push(t)) =~= lexemes(tokens).push(t@));
}

/// One more token read: the text still gives what it gave.
proof fn lemma_continued_step(done: Seq<Lexeme>, t: Lexeme, rest: Result<Seq<Lexeme>, LexError>)
    ensures
        continued(done, followed_by(t, rest)) == continued(done.push(t), rest),
{
    if let Ok(r) = rest {
        assert(done + (seq![t] + r) =~= done.push(t) + r);
    }
}

/// Cuts `source` into its tokens.
///
/// Returns the tokens in the order of the text, or the first error met when
/// reading from left to right.
pub fn tokenize(source: &str) -> (r: Result<Vec<Token>, LexError>)
    ensures
        lexed(r) == lex(source@),
{
    let cs = to_chars(source);
    let n = cs.len();
    let mut tokens: Vec<Token> = Vec::new();
    let mut i: usize = 0;
    assert(lexemes(tokens@) + lex_from(cs@, 0)->Ok_0 =~= lex_from(cs@, 0)->Ok_0);
    while i < n
        invariant
            n == cs.len(),
            cs@ == source@,
            i <= n,
            lex(source@) == continued(lexemes(tokens@), lex_from(cs@, i as int)),
        decreases n - i,
    {
        let c = cs[i];
        if space_char(c) {
            i = i + 1;
        } else if digit_char(c) {
            match read_number(&cs, i) {
                Ok((value, end)) => {
                    proof {
                        lemma_lexemes_push(tokens@, Token::Number(value));
                        lemma_continued_step(
                            lexemes(tokens@),
                            Lexeme::Number(value as int),
                            lex_from(cs@, end as int),
                        );
                    }
                    tokens.push(Token::Number(value));
                    i = end;
                },
                Err(e) => {
                    return Err(e);
                },
            }
        } else if letter_char(c) {
            let (name, end) = read_word(&cs, i);
            proof {
                lemma_lexemes_push(tokens@, Token::Identifier(name));
                lemma_continued_step(
                    lexemes(tokens@),
                    Lexeme::Identifier(name@),
                    lex_from(cs@, end as int),
                );
            }
            tokens.push(Token::Identifier(name));
            i = end;
        } else {
            match read_symbol(c) {
                Some(token) => {
                    proof {
                        lemma_lexemes_push(tokens@, token);
                        lemma_continued_step(lexemes(tokens@), token@, lex_from(cs@, i + 1));
                    }
                    tokens.push(token);
                    i = i + 1;
                },
                None => {
                    return Err(LexError::UnsupportedSymbol(i));
                },
            }
        }
    }
    assert(lexemes(tokens@) + Seq::<Lexeme>::empty() =~= lexemes(tokens@));
    Ok(tokens)
}

} // verus!
