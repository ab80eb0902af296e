//! Tokens, and the lexer that cuts source text into them.

use vstd::prelude::*;

use crate::parser::element::{operation_of, Operation};
use crate::parser::scope_marker::{marker_of, ScopeMarker};

verus! {

/// An atom of the source text.
#[derive(Clone, Debug, PartialEq, Eq)]
pub enum Token {
    /// A run of decimal digits, by its value.
    Number(i32),
    /// A name. The keyword `let` is lexed as a name too.
    Identifier(String),
    /// One of `+ - * / ^`.
    Operator(Operation),
    /// One of `( ) { } [ ]`; never `ScopeMarker::Unknown`.
    Delimiter(ScopeMarker),
    /// `=`
    Assign,
    /// `;`
    Semicolon,
}

/// The mathematical model of a token.
pub enum Lexeme {
    Number(int),
    Identifier(Seq<char>),
    Operator(Operation),
    Delimiter(ScopeMarker),
    Assign,
    Semicolon,
}

impl View for Token {
    type V = Lexeme;

    open spec fn view(&self) -> Lexeme {
        match self {
            Token::Number(n) => Lexeme::Number(*n as int),
            Token::Identifier(s) => Lexeme::Identifier(s@),
            Token::Operator(op) => Lexeme::Operator(*op),
            Token::Delimiter(m) => Lexeme::Delimiter(*m),
            Token::Assign => Lexeme::Assign,
            Token::Semicolon => Lexeme::Semicolon,
        }
    }
}

/// The models of a sequence of tokens.
pub open spec fn lexemes(tokens: Seq<Token>) -> Seq<Lexeme> {
    tokens.map_values(|t: Token| t@)
}

/// Why text could not be cut into tokens. Both variants hold the offset, in
/// characters, at which the offending token starts.
#[derive(Clone, Copy, Debug, PartialEq, Eq, Structural)]
pub enum LexError {
    /// The character at this offset can begin no token.
    UnsupportedSymbol(usize),
    /// The digits that start at this offset denote a number above `i32::MAX`,
    /// the largest that a token holds: a limit of the machine.
    LiteralOutOfRange(usize),
}

/// Characters that separate tokens and mean nothing else: the white space
/// of Unicode, which is the tabulator, the line and page breaks and the space
/// of ASCII, the next-line character, the no-break spaces, and the spaces and
/// separators of the general punctuation and ideographic blocks.
pub open spec fn is_space(c: char) -> bool {
    ||| ('\u{9}' <= c <= '\u{d}')
    ||| c == ' '
    ||| c == '\u{85}'
    ||| c == '\u{a0}'
    ||| c == '\u{1680}'
    ||| ('\u{2000}' <= c <= '\u{200a}')
    ||| c == '\u{2028}'
    ||| c == '\u{2029}'
    ||| c == '\u{202f}'
    ||| c == '\u{205f}'
    ||| c == '\u{3000}'
}

/// Decimal digits.
pub open spec fn is_digit(c: char) -> bool {
    '0' <= c <= '9'
}

/// ASCII letters, which start an identifier.
pub open spec fn is_letter(c: char) -> bool {
    ('a' <= c <= 'z') || ('A' <= c <= 'Z')
}

/// Characters that continue an identifier.
pub open spec fn is_word(c: char) -> bool {
    is_letter(c) || is_digit(c) || c == '_'
}

/// The value of a decimal digit.
pub open spec fn digit_value(c: char) -> int {
    c as int - '0' as int
}

/// The value of a run of decimal digits, most significant digit first.
pub open spec fn decimal(digits: Seq<char>) -> int
    decreases digits.len(),
{
    if digits.len() == 0 {
        0
    } else {
        decimal(digits.drop_last()) * 10 + digit_value(digits.last())
    }
}

/// Where the maximal run of digits that starts at `pos` ends.
pub open spec fn digits_end(s: Seq<char>, pos: int) -> int
    decreases s.len() - pos,
{
    if 0 <= pos < s.len() && is_digit(s[pos]) {
        digits_end(s, pos + 1)
    } else {
        pos
    }
}

/// Where the maximal run of identifier characters that starts at `pos` ends.
pub open spec fn word_end(s: Seq<char>, pos: int) -> int
    decreases s.len() - pos,
{
    if 0 <= pos < s.len() && is_word(s[pos]) {
        word_end(s, pos + 1)
    } else {
        pos
    }
}

/// The token that a single character forms by itself, if any.
pub open spec fn symbol_of(c: char) -> Option<Lexeme> {
    if operation_of(c) is Some {
        Some(Lexeme::Operator(operation_of(c)->0))
    } else if marker_of(c) != ScopeMarker::Unknown {
        Some(Lexeme::Delimiter(marker_of(c)))
    } else if c == '=' {
        Some(Lexeme::Assign)
    } else if c == ';' {
        Some(Lexeme::Semicolon)
    } else {
        None
    }
}

/// `first` followed by what the rest of the text gave, or the error of the
/// rest.
pub open spec fn followed_by(first: Lexeme, rest: Result<Seq<Lexeme>, LexError>) -> Result<
    Seq<Lexeme>,
    LexError,
> {
    match rest {
        Ok(r) => Ok(seq![first] + r),
        Err(e) => Err(e),
    }
}

/// The tokens of `s` from offset `pos` on, or the first error met when reading
/// from left to right.
///
/// Whitespace is skipped. A digit starts a number, which extends over the
/// maximal run of digits. A letter starts an identifier, which extends over the
/// maximal run of letters, digits and `_`. Any other character is a token by
/// itself or an error.
pub open spec fn lex_from(s: Seq<char>, pos: int) -> Result<Seq<Lexeme>, LexError>
    decreases s.len() - pos,
{
    if pos < 0 || pos >= s.len() {
        Ok(Seq::empty())
    } else if is_space(s[pos]) {
        lex_from(s, pos + 1)
    } else if is_digit(s[pos]) {
        let end = digits_end(s, pos);
        let value = decimal(s.subrange(pos, end));
        if value > i32::MAX {
            Err(LexError::LiteralOutOfRange(pos as usize))
        } else {
            proof {
                lemma_digits_end(s, pos);
            }
            followed_by(Lexeme::Number(value), lex_from(s, end))
        }
    } else if is_letter(s[pos]) {
        let end = word_end(s, pos);
        proof {
            lemma_word_end(s, pos);
        }
        followed_by(Lexeme::Identifier(s.subrange(pos, end)), lex_from(s, end))
    } else {
        match symbol_of(s[pos]) {
            Some(t) => followed_by(t, lex_from(s, pos + 1)),
            None => Err(LexError::UnsupportedSymbol(pos as usize)),
        }
    }
}

/// The tokens of `s`.
pub open spec fn lex(s: Seq<char>) -> Result<Seq<Lexeme>, LexError> {
    lex_from(s, 0)
}

/// A run of digits ends within the text, after its first digit if it has one,
/// and holds digits only.
pub proof fn lemma_digits_end(s: Seq<char>, pos: int)
    requires
        0 <= pos <= s.len(),
    ensures
        pos <= digits_end(s, pos) <= s.len(),
        pos < s.len() && is_digit(s[pos]) ==> pos < digits_end(s, pos),
        forall|k: int| pos <= k < digits_end(s, pos) ==> is_digit(#[trigger] s[k]),
        digits_end(s, pos) < s.len() ==> !is_digit(s[digits_end(s, pos)]),
    decreases s.len() - pos,
{
    if pos < s.len() && is_digit(s[pos]) {
        lemma_digits_end(s, pos + 1);
    }
}

/// A run of identifier characters ends within the text, after its first
/// character if it has one, and holds identifier characters only.
pub proof fn lemma_word_end(s: Seq<char>, pos: int)
    requires
        0 <= pos <= s.len(),
    ensures
        pos <= word_end(s, pos) <= s.len(),
        pos < s.len() && is_word(s[pos]) ==> pos < word_end(s, pos),
        forall|k: int| pos <= k < word_end(s, pos) ==> is_word(#[trigger] s[k]),
        word_end(s, pos) < s.len() ==> !is_word(s[word_end(s, pos)]),
    decreases s.len() - pos,
{
    if pos < s.len() && is_word(s[pos]) {
        lemma_word_end(s, pos + 1);
    }
}

/// Whether no number and no identifier can extend from the end of `a` into
/// the start of `b`: one of the two is empty, or one of the two characters at
/// the seam belongs to neither.
pub open spec fn separated(a: Seq<char>, b: Seq<char>) -> bool {
    a.len() == 0 || b.len() == 0 || !is_word(a.last()) || !is_word(b[0])
}

/// A run that starts in the second of two texts ends where it ends in that
/// text alone.
proof fn lemma_runs_after(a: Seq<char>, b: Seq<char>, q: int)
    requires
        0 <= q <= b.len(),
    ensures
        digits_end(a + b, a.len() + q) == a.len() + digits_end(b, q),
        word_end(a + b, a.len() + q) == a.len() + word_end(b, q),
    decreases b.len() - q,
{
    if q < b.len() {
        assert((a + b)[a.len() + q] == b[q]);
        lemma_runs_after(a, b, q + 1);
    }
}

/// A run that starts in the first of two separated texts ends where it ends
/// in that text alone.
proof fn lemma_runs_before(a: Seq<char>, b: Seq<char>, pos: int)
    requires
        0 <= pos < a.len(),
        separated(a, b),
    ensures
        digits_end(a + b, pos) == digits_end(a, pos),
        word_end(a + b, pos) == word_end(a, pos),
    decreases a.len() - pos,
{
    assert((a + b)[pos] == a[pos]);
    if pos + 1 < a.len() {
        lemma_runs_before(a, b, pos + 1);
    } else {
        if b.len() > 0 {
            assert((a + b)[a.len() as int] == b[0]);
        }
        assert(digits_end(a, pos + 1) == pos + 1);
        assert(word_end(a, pos + 1) == pos + 1);
        if is_word(a[pos]) {
            assert(digits_end(a + b, pos + 1) == pos + 1);
            assert(word_end(a + b, pos + 1) == pos + 1);
        }
    }
}

/// The tokens of the second of two texts are the same after any first text,
/// where the second text has tokens.
proof fn lemma_lex_after(a: Seq<char>, b: Seq<char>, q: int)
    requires
        0 <= q <= b.len(),
        lex_from(b, q) is Ok,
    ensures
        lex_from(a + b, a.len() + q) == lex_from(b, q),
    decreases b.len() - q,
{
    let s = a + b;
    let k = a.len() as int;
    if q < b.len() {
        assert(s[k + q] == b[q]);
        lemma_runs_after(a, b, q);
        if is_space(b[q]) {
            lemma_lex_after(a, b, q + 1);
        } else if is_digit(b[q]) {
            let end = digits_end(b, q);
            lemma_digits_end(b, q);
            assert(s.subrange(k + q, k + end) == b.subrange(q, end));
            lemma_lex_after(a, b, end);
        } else if is_letter(b[q]) {
            let end = word_end(b, q);
            lemma_word_end(b, q);
            assert(s.subrange(k + q, k + end) == b.subrange(q, end));
            lemma_lex_after(a, b, end);
        } else {
            lemma_lex_after(a, b, q + 1);
        }
    }
}

/// The tokens of two separated texts, one after the other, are the tokens of
/// the first followed by those of the second, from any offset in the first.
proof fn lemma_lex_before(a: Seq<char>, b: Seq<char>, pos: int)
    requires
        0 <= pos <= a.len(),
        separated(a, b),
        lex_from(a, pos) is Ok,
        lex(b) is Ok,
    ensures
        lex_from(a + b, pos) == Ok::<Seq<Lexeme>, LexError>(lex_from(a, pos)->Ok_0 + lex(b)->Ok_0),
    decreases a.len() - pos,
{
    let s = a + b;
    let tb = lex(b)->Ok_0;
    if pos == a.len() {
        lemma_lex_after(a, b, 0);
        assert(Seq::<Lexeme>::empty() + tb =~= tb);
    } else {
        assert(s[pos] == a[pos]);
        lemma_runs_before(a, b, pos);
        if is_space(a[pos]) {
            lemma_lex_before(a, b, pos + 1);
        } else if is_digit(a[pos]) {
            let end = digits_end(a, pos);
            lemma_digits_end(a, pos);
            assert(s.subrange(pos, end) == a.subrange(pos, end));
            lemma_lex_before(a, b, end);
            let first = Lexeme::Number(decimal(a.subrange(pos, end)));
            let rest = lex_from(a, end)->Ok_0;
            assert((seq![first] + rest) + tb =~= seq![first] + (rest + tb));
        } else if is_letter(a[pos]) {
            let end = word_end(a, pos);
            lemma_word_end(a, pos);
            assert(s.subrange(pos, end) == a.subrange(pos, end));
            lemma_lex_before(a, b, end);
            let first = Lexeme::Identifier(a.subrange(pos, end));
            let rest = lex_from(a, end)->Ok_0;
            assert((seq![first] + rest) + tb =~= seq![first] + (rest + tb));
        } else {
            lemma_lex_before(a, b, pos + 1);
            let first = symbol_of(a[pos])->0;
            let rest = lex_from(a, pos + 1)->Ok_0;
            assert((seq![first] + rest) + tb =~= seq![first] + (rest + tb));
        }
    }
}

/// Lexing goes over seams: the tokens of two separated texts, one after the
/// other, are the tokens of the first followed by those of the second.
pub proof fn lemma_lex_concat(a: Seq<char>, b: Seq<char>)
    requires
        separated(a, b),
        lex(a) is Ok,
        lex(b) is Ok,
    ensures
        lex(a + b) == Ok::<Seq<Lexeme>, LexError>(lex(a)->Ok_0 + lex(b)->Ok_0),
{
    lemma_lex_before(a, b, 0);
}

/// Whitespace is insignificant: between two separated texts, a whitespace
/// character changes no token.
pub proof fn lemma_space_is_insignificant(a: Seq<char>, c: char, b: Seq<char>)
    requires
        is_space(c),
        separated(a, b),
        lex(a) is Ok,
        lex(b) is Ok,
    ensures
        lex(a + seq![c] + b) == lex(a + b),
{
    let space = seq![c];
    assert(lex(space) == Ok::<Seq<Lexeme>, LexError>(Seq::empty())) by {
        reveal_with_fuel(lex_from, 2);
    }
    lemma_lex_concat(space, b);
    lemma_lex_concat(a, space + b);
    lemma_lex_concat(a, b);
    assert(a + space + b =~= a + (space + b));
    assert(lex(a)->Ok_0 + (Seq::<Lexeme>::empty() + lex(b)->Ok_0) =~= lex(a)->Ok_0 + lex(
        b,
    )->Ok_0);
}

/// Whether a token is one that the lexer makes: a number within `i32`, a
/// nonempty name that starts with a letter, or a delimiter that is known.
pub open spec fn well_lexed(t: Lexeme) -> bool {
    match t {
        Lexeme::Number(n) => 0 <= n <= i32::MAX,
        Lexeme::Identifier(name) => name.len() > 0 && is_letter(name[0]),
        Lexeme::Delimiter(m) => m != ScopeMarker::Unknown,
        _ => true,
    }
}

/// Every token that the lexer makes is well lexed.
pub proof fn lemma_lex_well_lexed(s: Seq<char>, pos: int)
    requires
        0 <= pos <= s.len(),
        lex_from(s, pos) is Ok,
    ensures
        forall|k: int|
            0 <= k < lex_from(s, pos)->Ok_0.len() ==> well_lexed(
                #[trigger] lex_from(s, pos)->Ok_0[k],
            ),
    decreases s.len() - pos,
{
    if pos < s.len() {
        if is_space(s[pos]) {
            lemma_lex_well_lexed(s, pos + 1);
        } else if is_digit(s[pos]) {
            let end = digits_end(s, pos);
            lemma_digits_end(s, pos);
            lemma_lex_well_lexed(s, end);
            lemma_decimal_nonnegative(s.subrange(pos, end));
        } else if is_letter(s[pos]) {
            let end = word_end(s, pos);
            lemma_word_end(s, pos);
            lemma_lex_well_lexed(s, end);
        } else {
            lemma_lex_well_lexed(s, pos + 1);
        }
    }
}

/// The value of a run of digits is not negative.
pub proof fn lemma_decimal_nonnegative(digits: Seq<char>)
    requires
        forall|k: int| 0 <= k < digits.len() ==> is_digit(#[trigger] digits[k]),
    ensures
        0 <= decimal(digits),
    decreases digits.len(),
{
    if digits.len() > 0 {
        lemma_decimal_nonnegative(digits.drop_last());
    }
}

} // verus!
