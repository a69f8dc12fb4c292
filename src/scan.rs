use vstd::prelude::*;

use crate::outcome::{symbol, MatchResult};
use crate::text::{matches_at, occurs_at};

verus! {

/// The glyph token that `s` starts with, trying them in a fixed order.
pub open spec fn symbol_at(s: Seq<char>) -> Option<MatchResult> {
    if occurs_at(s, 0, symbol(MatchResult::NotPlayed)) {
        Some(MatchResult::NotPlayed)
    } else if occurs_at(s, 0, symbol(MatchResult::TwoZero)) {
        Some(MatchResult::TwoZero)
    } else if occurs_at(s, 0, symbol(MatchResult::TwoOne)) {
        Some(MatchResult::TwoOne)
    } else if occurs_at(s, 0, symbol(MatchResult::OneTwo)) {
        Some(MatchResult::OneTwo)
    } else if occurs_at(s, 0, symbol(MatchResult::ZeroTwo)) {
        Some(MatchResult::ZeroTwo)
    } else if occurs_at(s, 0, symbol(MatchResult::Unplayable)) {
        Some(MatchResult::Unplayable)
    } else {
        None
    }
}

/// Every glyph token starts with `:` and has at least seven characters.
pub proof fn lemma_symbol_len(r: MatchResult)
    ensures
        symbol(r).len() >= 7,
        symbol(r)[0] == ':',
{
}

/// The glyph tokens of `s`, found left to right without overlap, each with
/// the text that follows it.
pub open spec fn symbols_in(s: Seq<char>) -> Seq<(MatchResult, Seq<char>)>
    decreases s.len(),
{
    if s.len() == 0 {
        Seq::empty()
    } else {
        match symbol_at(s) {
            Some(r) => {
                let rest = s.skip(symbol(r).len() as int);
                seq![(r, rest)] + symbols_in(rest)
            },
            None => symbols_in(s.skip(1)),
        }
    }
}

/// A `:` at `i` that cannot start a glyph token: the next characters rule
/// every token out.
pub open spec fn colon_is_inert(t: Seq<char>, i: int) -> bool {
    &&& i + 1 < t.len()
    &&& {
        let c = t[i + 1];
        ||| (c != 'c' && c != 'f' && c != 'w' && c != 'n' && c != 'b')
        ||| (c == 'n' && i + 2 < t.len() && t[i + 2] != 'e')
    }
}

/// Text in which no glyph token can start, whatever follows it.
pub open spec fn inert(t: Seq<char>) -> bool {
    forall|i: int| 0 <= i < t.len() && #[trigger] t[i] == ':' ==> colon_is_inert(t, i)
}

proof fn lemma_no_symbol_at(s: Seq<char>)
    requires
        s.len() > 0,
        s[0] != ':' || colon_is_inert(s, 0),
    ensures
        symbol_at(s) is None,
{
    assert forall|r: MatchResult| !occurs_at(s, 0, symbol(r)) by {
        if occurs_at(s, 0, symbol(r)) {
            let p = symbol(r);
            assert(s.subrange(0, p.len() as int)[0] == p[0]);
            assert(s.subrange(0, p.len() as int)[1] == p[1]);
            assert(s.subrange(0, p.len() as int)[2] == p[2]);
        }
    }
}

/// Inert text adds no token and changes none that come after it.
pub proof fn lemma_inert_prefix(t: Seq<char>, b: Seq<char>)
    requires
        inert(t),
    ensures
        symbols_in(t + b) == symbols_in(b),
    decreases t.len(),
{
    if t.len() > 0 {
        let s = t + b;
        assert(s[0] == t[0]);
        if t[0] == ':' {
            assert(colon_is_inert(t, 0));
            assert(s[1] == t[1]);
            if t[1] == 'n' {
                assert(s[2] == t[2]);
            }
        }
        lemma_no_symbol_at(s);
        assert(s.skip(1) =~= t.skip(1) + b);
        assert forall|i: int| 0 <= i < t.skip(1).len() && #[trigger] t.skip(1)[i] == ':' implies colon_is_inert(t.skip(1), i) by {
            assert(t[i + 1] == ':');
            assert(colon_is_inert(t, i + 1));
        }
        lemma_inert_prefix(t.skip(1), b);
    } else {
        assert(t + b =~= b);
    }
}

/// A glyph token at the front is found as itself.
pub proof fn lemma_symbol_prefix(r: MatchResult, b: Seq<char>)
    ensures
        symbols_in(symbol(r) + b) == seq![(r, b)] + symbols_in(b),
{
    let s = symbol(r) + b;
    let p = symbol(r);
    assert(s.subrange(0, p.len() as int) =~= p);
    assert forall|q: MatchResult| q != r implies !occurs_at(s, 0, symbol(q)) by {
        if occurs_at(s, 0, symbol(q)) {
            assert(s.subrange(0, symbol(q).len() as int)[1] == symbol(q)[1]);
            assert(s.subrange(0, symbol(q).len() as int)[3] == symbol(q)[3]);
            assert(s[1] == p[1]);
            assert(s[3] == p[3]);
        }
    }
    assert(symbol_at(s) == Some(r));
    assert(s.skip(p.len() as int) =~= b);
}

/// The glyph token at position `i` of `text`.
pub fn symbol_at_pos(text: &Vec<char>, i: usize) -> (r: Option<MatchResult>)
    requires
        i < text.len(),
    ensures
        r == symbol_at(text@.skip(i as int)),
{
    proof {
        assert forall|p: Seq<char>| occurs_at(text@, i as int, p) == occurs_at(
            text@.skip(i as int),
            0,
            p,
        ) by {
            if occurs_at(text@, i as int, p) {
                assert(text@.skip(i as int).subrange(0, p.len() as int) =~= text@.subrange(
                    i as int,
                    i + p.len(),
                ));
            }
            if occurs_at(text@.skip(i as int), 0, p) {
                assert(text@.skip(i as int).subrange(0, p.len() as int) =~= text@.subrange(
                    i as int,
                    i + p.len(),
                ));
            }
        }
    }
    if matches_at(text, i, &MatchResult::NotPlayed.symbol_chars()) {
        Some(MatchResult::NotPlayed)
    } else if matches_at(text, i, &MatchResult::TwoZero.symbol_chars()) {
        Some(MatchResult::TwoZero)
    } else if matches_at(text, i, &MatchResult::TwoOne.symbol_chars()) {
        Some(MatchResult::TwoOne)
    } else if matches_at(text, i, &MatchResult::OneTwo.symbol_chars()) {
        Some(MatchResult::OneTwo)
    } else if matches_at(text, i, &MatchResult::ZeroTwo.symbol_chars()) {
        Some(MatchResult::ZeroTwo)
    } else if matches_at(text, i, &MatchResult::Unplayable.symbol_chars()) {
        Some(MatchResult::Unplayable)
    } else {
        None
    }
}

/// The glyph tokens of `text`, each with the position just after it.
pub fn find_symbols(text: &Vec<char>) -> (r: Vec<(MatchResult, usize)>)
    ensures
        r@.len() == symbols_in(text@).len(),
        forall|k: int|
            0 <= k < r@.len() ==> {
                &&& (#[trigger] r@[k]).0 == symbols_in(text@)[k].0
                &&& r@[k].1 <= text.len()
                &&& text@.skip(r@[k].1 as int) == symbols_in(text@)[k].1
            },
{
    let mut out: Vec<(MatchResult, usize)> = Vec::new();
    let ghost mut done: Seq<(MatchResult, Seq<char>)> = Seq::empty();
    let mut i: usize = 0;
    assert(text@.skip(0) =~= text@);
    while i < text.len()
        invariant
            i <= text.len(),
            symbols_in(text@) == done + symbols_in(text@.skip(i as int)),
            out@.len() == done.len(),
            forall|k: int|
                0 <= k < out@.len() ==> {
                    &&& (#[trigger] out@[k]).0 == done[k].0
                    &&& out@[k].1 <= text.len()
                    &&& text@.skip(out@[k].1 as int) == done[k].1
                },
        decreases text.len() - i,
    {
        let ghost s = text@.skip(i as int);
        assert(s.len() > 0);
        match symbol_at_pos(text, i) {
            Some(r) => {
                let len = r.symbol_chars().len();
                proof {
                    lemma_symbol_len(r);
                    assert(s.skip(len as int) =~= text@.skip(i + len));
                    assert(symbols_in(s) == seq![(r, s.skip(len as int))] + symbols_in(
                        s.skip(len as int),
                    ));
                    assert(done + symbols_in(s) =~= done.push((r, s.skip(len as int)))
                        + symbols_in(s.skip(len as int)));
                    done = done.push((r, s.skip(len as int)));
                }
                out.push((r, i + len));
                i = i + len;
            },
            None => {
                proof {
                    assert(s.skip(1) =~= text@.skip(i + 1));
                }
                i = i + 1;
            },
        }
    }
    proof {
        assert(text@.skip(i as int).len() == 0);
        assert(symbols_in(text@.skip(i as int)) =~= Seq::empty());
        assert(done + Seq::<(MatchResult, Seq<char>)>::empty() =~= done);
    }
    out
}

} // verus!
