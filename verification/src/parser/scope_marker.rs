//! Classification of grouping delimiters.
//!
//! Three bracket vocabularies are interchangeable for grouping, as long as a
//! group is closed by the family that opened it.

use vstd::prelude::*;

verus! {

/// One of the three independent bracket vocabularies.
#[derive(Clone, Copy, Debug, PartialEq, Eq, Structural)]
pub enum DelimiterFamily {
    /// `(` and `)`
    Paren,
    /// `{` and `}`
    Brace,
    /// `[` and `]`
    Bracket,
}

/// What a single symbol is, as far as grouping is concerned.
#[derive(Clone, Copy, Debug, PartialEq, Eq, Structural)]
pub enum ScopeMarker {
    /// `(`
    OpenParenthesis,
    /// `)`
    CloseParenthesis,
    /// `{`
    OpenCurlyBrace,
    /// `}`
    CloseCurlyBrace,
    /// `[`
    OpenBracket,
    /// `]`
    CloseBracket,
    /// Anything that is not a delimiter.
    Unknown,
}

/// The marker that a single character stands for.
pub open spec fn marker_of(c: char) -> ScopeMarker {
    if c == '(' {
        ScopeMarker::OpenParenthesis
    } else if c == ')' {
        ScopeMarker::CloseParenthesis
    } else if c == '{' {
        ScopeMarker::OpenCurlyBrace
    } else if c == '}' {
        ScopeMarker::CloseCurlyBrace
    } else if c == '[' {
        ScopeMarker::OpenBracket
    } else if c == ']' {
        ScopeMarker::CloseBracket
    } else {
        ScopeMarker::Unknown
    }
}

/// The marker that a piece of text stands for: that of its only character, and
/// `Unknown` for text of any other length.
pub open spec fn marker_of_text(s: Seq<char>) -> ScopeMarker {
    if s.len() == 1 {
        marker_of(s[0])
    } else {
        ScopeMarker::Unknown
    }
}

impl ScopeMarker {
    /// The family of a delimiter; `None` for `Unknown`.
    pub open spec fn spec_family(self) -> Option<DelimiterFamily> {
        match self {
            ScopeMarker::OpenParenthesis | ScopeMarker::CloseParenthesis => Some(
                DelimiterFamily::Paren,
            ),
            ScopeMarker::OpenCurlyBrace | ScopeMarker::CloseCurlyBrace => Some(
                DelimiterFamily::Brace,
            ),
            ScopeMarker::OpenBracket | ScopeMarker::CloseBracket => Some(DelimiterFamily::Bracket),
            ScopeMarker::Unknown => None,
        }
    }

    /// Whether the marker opens a group.
    pub open spec fn opens(self) -> bool {
        self == ScopeMarker::OpenParenthesis || self == ScopeMarker::OpenCurlyBrace || self
            == ScopeMarker::OpenBracket
    }

    /// Whether the marker closes a group.
    pub open spec fn closes(self) -> bool {
        self == ScopeMarker::CloseParenthesis || self == ScopeMarker::CloseCurlyBrace || self
            == ScopeMarker::CloseBracket
    }

    /// Two markers match when they belong to one family and one of them opens
    /// what the other closes.
    pub open spec fn pairs_with(self, other: ScopeMarker) -> bool {
        &&& self.spec_family() is Some
        &&& self.spec_family() == other.spec_family()
        &&& self.opens() != other.opens()
    }

    /// Classifies a single character.
    pub fn from_char(c: char) -> (m: Self)
        ensures
            m == marker_of(c),
    {
        if c == '(' {
            ScopeMarker::OpenParenthesis
        } else if c == ')' {
            ScopeMarker::CloseParenthesis
        } else if c == '{' {
            ScopeMarker::OpenCurlyBrace
        } else if c == '}' {
            ScopeMarker::CloseCurlyBrace
        } else if c == '[' {
            ScopeMarker::OpenBracket
        } else if c == ']' {
            ScopeMarker::CloseBracket
        } else {
            ScopeMarker::Unknown
        }
    }

    /// Classifies a symbol given as text.
    pub fn from_str(c: &str) -> (m: Self)
        ensures
            m == marker_of_text(c@),
    {
        if c.unicode_len() == 1 {
            Self::from_char(c.get_char(0))
        } else {
            ScopeMarker::Unknown
        }
    }

    /// The family of a delimiter.
    pub fn family(&self) -> (f: Option<DelimiterFamily>)
        ensures
            f == self.spec_family(),
    {
        match self {
            ScopeMarker::OpenParenthesis | ScopeMarker::CloseParenthesis => Some(
                DelimiterFamily::Paren,
            ),
            ScopeMarker::OpenCurlyBrace | ScopeMarker::CloseCurlyBrace => Some(
                DelimiterFamily::Brace,
            ),
            ScopeMarker::OpenBracket | ScopeMarker::CloseBracket => Some(DelimiterFamily::Bracket),
            ScopeMarker::Unknown => None,
        }
    }

    /// Whether `self` and `other` are an opening and a closing delimiter of the
    /// same family, in either order.
    pub fn same_scope(&self, other: &Self) -> (b: bool)
        ensures
            b == self.pairs_with(*other),
    {
        match self {
            ScopeMarker::OpenParenthesis => *other == ScopeMarker::CloseParenthesis,
            ScopeMarker::CloseParenthesis => *other == ScopeMarker::OpenParenthesis,
            ScopeMarker::OpenCurlyBrace => *other == ScopeMarker::CloseCurlyBrace,
            ScopeMarker::CloseCurlyBrace => *other == ScopeMarker::OpenCurlyBrace,
            ScopeMarker::OpenBracket => *other == ScopeMarker::CloseBracket,
            ScopeMarker::CloseBracket => *other == ScopeMarker::OpenBracket,
            ScopeMarker::Unknown => false,
        }
    }

    /// Whether the marker is a closing delimiter.
    pub fn is_close(&self) -> (b: bool)
        ensures
            b == self.closes(),
    {
        matches!(
            self,
            ScopeMarker::CloseParenthesis | ScopeMarker::CloseCurlyBrace | ScopeMarker::CloseBracket
        )
    }

    /// Whether the marker is an opening delimiter.
    pub fn is_open(&self) -> (b: bool)
        ensures
            b == self.opens(),
    {
        matches!(
            self,
            ScopeMarker::OpenParenthesis | ScopeMarker::OpenCurlyBrace | ScopeMarker::OpenBracket
        )
    }
}

/// Matching is symmetric.
pub proof fn lemma_pairs_with_symmetric(a: ScopeMarker, b: ScopeMarker)
    ensures
        a.pairs_with(b) == b.pairs_with(a),
{
}

/// Every opening delimiter is matched by exactly the closing delimiter of its
/// family.
pub proof fn lemma_pairs_with_unique(a: ScopeMarker, b: ScopeMarker, c: ScopeMarker)
    requires
        a.pairs_with(b),
        a.pairs_with(c),
    ensures
        b == c,
{
}

} // verus!
