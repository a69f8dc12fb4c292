use vstd::prelude::*;

use crate::text::{chars_of, same_chars};

verus! {

/// The result of one match, seen from one of its two players.
#[derive(Debug, Clone, Copy, PartialEq, Eq, Structural)]
pub enum MatchResult {
    NotPlayed,
    TwoZero,
    TwoOne,
    OneTwo,
    ZeroTwo,
    Unplayable,
}

/// The same match seen from the other player.
pub open spec fn inverse(r: MatchResult) -> MatchResult {
    match r {
        MatchResult::NotPlayed => MatchResult::NotPlayed,
        MatchResult::TwoZero => MatchResult::ZeroTwo,
        MatchResult::TwoOne => MatchResult::OneTwo,
        MatchResult::OneTwo => MatchResult::TwoOne,
        MatchResult::ZeroTwo => MatchResult::TwoZero,
        MatchResult::Unplayable => MatchResult::Unplayable,
    }
}

/// A won match.
pub open spec fn is_win(r: MatchResult) -> bool {
    r == MatchResult::TwoZero || r == MatchResult::TwoOne
}

/// A lost match.
pub open spec fn is_loss(r: MatchResult) -> bool {
    r == MatchResult::OneTwo || r == MatchResult::ZeroTwo
}

/// A match that counts towards the number played.
pub open spec fn is_played(r: MatchResult) -> bool {
    is_win(r) || is_loss(r)
}

/// The glyph token that stands for a result in the grid.
pub open spec fn symbol(r: MatchResult) -> Seq<char> {
    match r {
        MatchResult::NotPlayed => seq![':', 'c', 'l', 'o', 'u', 'd', ':'],
        MatchResult::TwoZero => seq![':', 'f', 'u', 'l', 'l', '_', 'm', 'o', 'o', 'n', ':'],
        MatchResult::TwoOne => seq![
            ':', 'w', 'a', 'n', 'i', 'n', 'g', '_', 'g', 'i', 'b', 'b', 'o', 'u', 's', '_', 'm',
            'o', 'o', 'n', ':',
        ],
        MatchResult::OneTwo => seq![
            ':', 'w', 'a', 'x', 'i', 'n', 'g', '_', 'c', 'r', 'e', 's', 'c', 'e', 'n', 't', '_',
            'm', 'o', 'o', 'n', ':',
        ],
        MatchResult::ZeroTwo => seq![':', 'n', 'e', 'w', '_', 'm', 'o', 'o', 'n', ':'],
        MatchResult::Unplayable => seq![
            ':', 'b', 'l', 'a', 'c', 'k', '_', 's', 'm', 'a', 'l', 'l', '_', 's', 'q', 'u', 'a',
            'r', 'e', ':',
        ],
    }
}

/// The score a player reports, with their own games first; none for the diagonal.
pub open spec fn score(r: MatchResult) -> Option<Seq<char>> {
    match r {
        MatchResult::NotPlayed => Some(seq!['0', '-', '0']),
        MatchResult::TwoZero => Some(seq!['2', '-', '0']),
        MatchResult::TwoOne => Some(seq!['2', '-', '1']),
        MatchResult::OneTwo => Some(seq!['1', '-', '2']),
        MatchResult::ZeroTwo => Some(seq!['0', '-', '2']),
        MatchResult::Unplayable => None,
    }
}

/// What a score or a glyph token reads as; any other text is `Unplayable`.
pub open spec fn from_text(t: Seq<char>) -> MatchResult {
    if t == symbol(MatchResult::TwoZero) || score(MatchResult::TwoZero) == Some(t) {
        MatchResult::TwoZero
    } else if t == symbol(MatchResult::TwoOne) || score(MatchResult::TwoOne) == Some(t) {
        MatchResult::TwoOne
    } else if t == symbol(MatchResult::OneTwo) || score(MatchResult::OneTwo) == Some(t) {
        MatchResult::OneTwo
    } else if t == symbol(MatchResult::ZeroTwo) || score(MatchResult::ZeroTwo) == Some(t) {
        MatchResult::ZeroTwo
    } else if t == symbol(MatchResult::NotPlayed) || score(MatchResult::NotPlayed) == Some(t) {
        MatchResult::NotPlayed
    } else {
        MatchResult::Unplayable
    }
}

/// Inverting twice gives the result back; the two wins and the two losses
/// trade places, and a match not played or not playable stays as it is.
pub proof fn lemma_inverse_involution(r: MatchResult)
    ensures
        inverse(inverse(r)) == r,
        is_win(r) <==> is_loss(inverse(r)),
        is_loss(r) <==> is_win(inverse(r)),
        r == MatchResult::NotPlayed <==> inverse(r) == MatchResult::NotPlayed,
        r == MatchResult::Unplayable <==> inverse(r) == MatchResult::Unplayable,
{
}

/// Each glyph token reads back as the result it stands for.
pub proof fn lemma_symbol_reads_back(r: MatchResult)
    ensures
        from_text(symbol(r)) == r,
{
    assert(symbol(MatchResult::TwoZero)[1] == 'f');
    assert(symbol(MatchResult::TwoOne)[3] == 'n');
    assert(symbol(MatchResult::OneTwo)[3] == 'x');
    assert(symbol(MatchResult::ZeroTwo)[1] == 'n');
    assert(symbol(MatchResult::NotPlayed)[1] == 'c');
    assert(symbol(MatchResult::Unplayable)[1] == 'b');
}

impl MatchResult {
    /// Reads a score such as `2-1` or a glyph token such as `:cloud:`.
    pub fn get(result: &str) -> (r: MatchResult)
        ensures
            r == from_text(result@),
    {
        let t = chars_of(result);
        if same_chars(&t, &MatchResult::TwoZero.symbol_chars()) || same_chars(&t, &vec!['2', '-', '0']) {
            MatchResult::TwoZero
        } else if same_chars(&t, &MatchResult::TwoOne.symbol_chars()) || same_chars(&t, &vec!['2', '-', '1']) {
            MatchResult::TwoOne
        } else if same_chars(&t, &MatchResult::OneTwo.symbol_chars()) || same_chars(&t, &vec!['1', '-', '2']) {
            MatchResult::OneTwo
        } else if same_chars(&t, &MatchResult::ZeroTwo.symbol_chars()) || same_chars(&t, &vec!['0', '-', '2']) {
            MatchResult::ZeroTwo
        } else if same_chars(&t, &MatchResult::NotPlayed.symbol_chars()) || same_chars(&t, &vec!['0', '-', '0']) {
            MatchResult::NotPlayed
        } else {
            MatchResult::Unplayable
        }
    }

    /// The glyph token of this result, as characters.
    pub fn symbol_chars(&self) -> (r: Vec<char>)
        ensures
            r@ == symbol(*self),
    {
        match self {
            MatchResult::NotPlayed => vec![':', 'c', 'l', 'o', 'u', 'd', ':'],
            MatchResult::TwoZero => vec![':', 'f', 'u', 'l', 'l', '_', 'm', 'o', 'o', 'n', ':'],
            MatchResult::TwoOne => vec![
                ':', 'w', 'a', 'n', 'i', 'n', 'g', '_', 'g', 'i', 'b', 'b', 'o', 'u', 's', '_',
                'm', 'o', 'o', 'n', ':',
            ],
            MatchResult::OneTwo => vec![
                ':', 'w', 'a', 'x', 'i', 'n', 'g', '_', 'c', 'r', 'e', 's', 'c', 'e', 'n', 't',
                '_', 'm', 'o', 'o', 'n', ':',
            ],
            MatchResult::ZeroTwo => vec![':', 'n', 'e', 'w', '_', 'm', 'o', 'o', 'n', ':'],
            MatchResult::Unplayable => vec![
                ':', 'b', 'l', 'a', 'c', 'k', '_', 's', 'm', 'a', 'l', 'l', '_', 's', 'q', 'u',
                'a', 'r', 'e', ':',
            ],
        }
    }

    /// The glyph token of this result, as a string.
    pub fn render(&self) -> (r: String)
        ensures
            r@ == symbol(*self),
    {
        let v = self.symbol_chars();
        crate::text::string_of(&v)
    }

    /// The same match seen from the other player.
    pub fn invert(&self) -> (r: MatchResult)
        ensures
            r == inverse(*self),
    {
        match self {
            MatchResult::NotPlayed => MatchResult::NotPlayed,
            MatchResult::TwoZero => MatchResult::ZeroTwo,
            MatchResult::TwoOne => MatchResult::OneTwo,
            MatchResult::OneTwo => MatchResult::TwoOne,
            MatchResult::ZeroTwo => MatchResult::TwoZero,
            MatchResult::Unplayable => MatchResult::Unplayable,
        }
    }
}

} // verus!
