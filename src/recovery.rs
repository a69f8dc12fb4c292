use vstd::prelude::*;

use crate::grid::{decode_grid, decoded_muted, legend_symbol_count, DecodeError, Participant};
use crate::group::Tournament;
use crate::intro::{intro_bad_mention, is_intro, parse_intro, reads_intro, IntroError};
use crate::matrix::{ids_unique, MatchMatrix, MatrixError};
use crate::outcome::MatchResult;
use crate::scan::symbols_in;
use crate::text::{chars_of, contains, find_in, string_of};
use crate::grid::{grid_blocks, legend, push_all, splits_into};
use crate::round_trip::{
    concat_blocks, lemma_block_has_colon, lemma_concat_front, lemma_grid_with_legend,
    lemma_legend_has_colon, names_plain, no_colon,
};

verus! {

/// One post of a thread's history.
#[derive(Debug)]
pub struct HistoryPost {
    pub id: u64,
    pub from_bot: bool,
    pub content: String,
}

/// Why a grid could not be rebuilt from a thread's history.
#[derive(Debug, Clone, Copy, PartialEq, Eq, Structural)]
pub enum RecoverError {
    /// The history is empty.
    NoIntro,
    Intro(IntroError),
    Decode(DecodeError),
    Matrix(MatrixError),
}

/// A grid rebuilt from history, and the post that must be turned back into
/// the legend, if the legend was missing.
#[derive(Debug)]
pub struct Recovered {
    pub tournament: Tournament,
    pub legend_fix: Option<u64>,
}

/// A post that may hold part of a grid: written by the bot, with a `:`.
pub open spec fn is_grid_post(p: HistoryPost) -> bool {
    p.from_bot && contains(p.content@, seq![':'])
}

/// How many posts from `j` down are grid posts in a row.
pub open spec fn run_len(h: Seq<HistoryPost>, j: int) -> nat
    decreases j + 1,
{
    if j < 0 || j >= h.len() || !is_grid_post(h[j]) {
        0
    } else {
        1 + run_len(h, j - 1)
    }
}

/// The text of `k` posts from `j` down, in that order.
pub open spec fn run_text(h: Seq<HistoryPost>, j: int, k: nat) -> Seq<char>
    decreases k,
{
    if k == 0 {
        Seq::empty()
    } else {
        h[j].content@ + run_text(h, j - 1, (k - 1) as nat)
    }
}

/// The ids of `k` posts from `j` down, in that order.
pub open spec fn run_ids(h: Seq<HistoryPost>, j: int, k: nat) -> Seq<u64>
    decreases k,
{
    if k == 0 {
        Seq::empty()
    } else {
        seq![h[j].id] + run_ids(h, j - 1, (k - 1) as nat)
    }
}

/// Reads the intro post, the oldest of a history given newest first.
pub fn read_intro(history: &Vec<HistoryPost>) -> (r: Result<(Vec<u64>, String), RecoverError>)
    ensures
        history@.len() == 0 <==> r == Err::<(Vec<u64>, String), RecoverError>(RecoverError::NoIntro),
        history@.len() > 0 ==> ({
            let t = history@.last().content@;
            match r {
                Ok((ids, name)) => reads_intro(t, ids@, name@),
                Err(RecoverError::Intro(IntroError::NotIntro)) => !is_intro(t),
                Err(RecoverError::Intro(IntroError::BadMention)) => intro_bad_mention(t),
                Err(_) => false,
            }
        }),
{
    if history.len() == 0 {
        return Err(RecoverError::NoIntro);
    }
    match parse_intro(history[history.len() - 1].content.as_str()) {
        Ok(found) => Ok(found),
        Err(e) => Err(RecoverError::Intro(e)),
    }
}

/// Rebuilds the grid of command `shortname` from a history given newest
/// first, whose oldest post is the intro and whose players are `users`: the
/// grid posts right after the intro are read back; the last of them is the
/// legend, or, when the legend's tokens are missing, is to become it again.
pub fn rebuild(
    history: &Vec<HistoryPost>,
    users: Vec<Participant>,
    shortname: String,
    thread: u64,
    threadname: String,
) -> (r: Result<Recovered, RecoverError>)
    ensures
        ({
            let h = history@;
            let j = h.len() - 2;
            let k = run_len(h, j);
            let text = run_text(h, j, k);
            let toks = symbols_in(text);
            let cells = users@.len() * users@.len();
            let ids = run_ids(h, j, k);
            match r {
                Ok(rec) => {
                    let m = rec.tournament.matrix;
                    &&& toks.len() >= cells
                    &&& rec.tournament.shortname@ == shortname@
                    &&& m.wf()
                    &&& m.users@ == users@
                    &&& m.thread == thread
                    &&& m.threadname@ == threadname@
                    &&& m.results@ == toks.take(cells as int).map_values(|t: (MatchResult, Seq<char>)| t.0)
                    &&& m.disabled_fam@ == decoded_muted(text, users@)
                    &&& m.mainposts@ == ids.drop_last()
                    &&& if toks.len() - cells == legend_symbol_count() {
                        rec.legend_fix is None
                    } else {
                        toks.len() == cells && k >= 2 && rec.legend_fix == Some(ids.last())
                    }
                },
                Err(RecoverError::Decode(DecodeError::InsufficientSymbols { .. })) => toks.len() < cells,
                Err(RecoverError::Decode(DecodeError::UnexpectedSymbolCount { excess })) => {
                    &&& toks.len() >= cells
                    &&& excess == toks.len() - cells
                    &&& excess != legend_symbol_count()
                    &&& (excess != 0 || k < 2)
                },
                Err(RecoverError::Matrix(MatrixError::DuplicateParticipant { .. })) => !ids_unique(users@),
                Err(RecoverError::Matrix(MatrixError::NoPosts)) => {
                    &&& ids_unique(users@)
                    &&& toks.len() - cells == legend_symbol_count()
                    &&& k == 1
                },
                Err(_) => false,
            }
        }),
{
    let ghost h = history@;
    let len = history.len();
    let mut text: Vec<char> = Vec::new();
    let mut ids: Vec<u64> = Vec::new();
    let colon = vec![':'];
    let mut k: usize = 0;
    assert(text@ =~= run_text(h, h.len() - 2, 0));
    while len >= 2 && k <= len - 2 && history[len - 2 - k].from_bot && find_in(&chars_of(history[len - 2 - k].content.as_str()), &colon)
        invariant
            len == h.len(),
            h == history@,
            colon@ == seq![':'],
            k <= len,
            run_len(h, h.len() - 2) == k + run_len(h, h.len() - 2 - k),
            text@ + run_text(h, h.len() - 2 - k, run_len(h, h.len() - 2 - k)) == run_text(h, h.len() - 2, run_len(h, h.len() - 2)),
            ids@ + run_ids(h, h.len() - 2 - k, run_len(h, h.len() - 2 - k)) == run_ids(h, h.len() - 2, run_len(h, h.len() - 2)),
        decreases len - k,
    {
        let ghost j = h.len() - 2 - k;
        proof {
            assert(is_grid_post(h[j]));
            assert(text@ + h[j].content@ + run_text(h, j - 1, run_len(h, j - 1)) =~= text@ + run_text(h, j, run_len(h, j)));
            assert(ids@.push(h[j].id) + run_ids(h, j - 1, run_len(h, j - 1)) =~= ids@ + run_ids(h, j, run_len(h, j)));
        }
        push_all(&mut text, &chars_of(history[len - 2 - k].content.as_str()));
        ids.push(history[len - 2 - k].id);
        k = k + 1;
    }
    proof {
        let j = h.len() - 2 - k;
        assert(run_len(h, j) == 0);
        assert(text@ =~= run_text(h, h.len() - 2, run_len(h, h.len() - 2)));
        assert(ids@ =~= run_ids(h, h.len() - 2, run_len(h, h.len() - 2)));
        lemma_run_ids_len(h, h.len() - 2, run_len(h, h.len() - 2));
    }
    let joined = string_of(&text);
    let decoded = match decode_grid(joined.as_str(), &users) {
        Ok(d) => d,
        Err(e) => {
            return Err(RecoverError::Decode(e));
        },
    };
    let legend_fix = if decoded.legend_found {
        ids.pop();
        None
    } else if ids.len() >= 2 {
        ids.pop()
    } else {
        return Err(RecoverError::Decode(DecodeError::UnexpectedSymbolCount { excess: 0 }));
    };
    let matrix = match MatchMatrix::restore(thread, threadname, users, ids, decoded.results, decoded.muted) {
        Ok(m) => m,
        Err(e) => {
            return Err(RecoverError::Matrix(e));
        },
    };
    Ok(Recovered { tournament: Tournament { shortname, matrix }, legend_fix })
}

proof fn lemma_run_ids_len(h: Seq<HistoryPost>, j: int, k: nat)
    ensures
        run_ids(h, j, k).len() == k,
    decreases k,
{
    if k > 0 {
        lemma_run_ids_len(h, j - 1, (k - 1) as nat);
    }
}

proof fn lemma_run_len_all(h: Seq<HistoryPost>, j: int)
    requires
        -1 <= j < h.len(),
        forall|i: int| 0 <= i <= j ==> is_grid_post(#[trigger] h[i]),
    ensures
        run_len(h, j) == j + 1,
    decreases j + 1,
{
    if j >= 0 {
        lemma_run_len_all(h, j - 1);
    }
}

proof fn lemma_run_ids_all(h: Seq<HistoryPost>, j: int)
    requires
        -1 <= j < h.len(),
    ensures
        run_ids(h, j, (j + 1) as nat) == Seq::new((j + 1) as nat, |i: int| h[j - i].id),
    decreases j + 1,
{
    if j >= 0 {
        lemma_run_ids_all(h, j - 1);
        assert(run_ids(h, j, (j + 1) as nat) =~= Seq::new((j + 1) as nat, |i: int| h[j - i].id));
    } else {
        assert(run_ids(h, j, 0) =~= Seq::new(0, |i: int| h[j - i].id));
    }
}

proof fn lemma_run_text_blocks(h: Seq<HistoryPost>, bs: Seq<Seq<char>>, tail: Seq<char>, j: int)
    requires
        0 <= j <= bs.len(),
        h.len() > bs.len(),
        h[0].content@ == tail,
        forall|i: int| 1 <= i <= bs.len() ==> #[trigger] h[i].content@ == bs[bs.len() - i],
    ensures
        run_text(h, j, (j + 1) as nat) == concat_blocks(bs.subrange(bs.len() - j, bs.len() as int)) + tail,
    decreases j,
{
    let m = bs.len() as int;
    if j == 0 {
        assert(run_text(h, -1, 0) =~= Seq::<char>::empty());
        assert(bs.subrange(m, m) =~= Seq::<Seq<char>>::empty());
        assert(run_text(h, 0, 1) =~= concat_blocks(bs.subrange(m, m)) + tail);
    } else {
        lemma_run_text_blocks(h, bs, tail, j - 1);
        let part = bs.subrange(m - j, m);
        lemma_concat_front(part);
        assert(part.skip(1) =~= bs.subrange(m - (j - 1), m));
        assert(part[0] == bs[m - j]);
        assert(h[j].content@ == bs[m - j]);
        assert(run_text(h, j, (j + 1) as nat) =~= concat_blocks(part) + tail);
    }
}

/// A thread whose history, newest first, is the legend, the grid's blocks
/// and the intro, all posted by the bot, reads back as the grid: its
/// results, its muted players and its block posts in order, with the
/// legend's six tokens left over.
pub proof fn lemma_history_round_trip(
    h: Seq<HistoryPost>,
    users: Seq<crate::grid::Participant>,
    table: Seq<MatchResult>,
    muted: Set<u64>,
    header: Seq<char>,
    count: nat,
)
    requires
        users.len() >= 1,
        table.len() == users.len() * users.len(),
        count >= 1,
        splits_into(users.len(), count),
        no_colon(header),
        names_plain(users),
        forall|id: u64| #[trigger] muted.contains(id) ==> exists|y: int| 0 <= y < users.len() && users[y].id == id,
        h.len() == count + 2,
        h[0].from_bot,
        h[0].content@ == legend(),
        forall|i: int|
            1 <= i <= count ==> h[i].from_bot && #[trigger] h[i].content@ == grid_blocks(
                users,
                table,
                muted,
                header,
                count,
            )[count - i],
    ensures
        ({
            let j = h.len() - 2;
            let k = run_len(h, j);
            let text = run_text(h, j, k);
            let toks = symbols_in(text);
            let cells = users.len() * users.len();
            &&& k == count + 1
            &&& toks.len() == cells + legend_symbol_count()
            &&& toks.take(cells as int).map_values(|t: (MatchResult, Seq<char>)| t.0) == table
            &&& decoded_muted(text, users) == muted
            &&& run_ids(h, j, k).drop_last() == Seq::new(count, |i: int| h[count - i].id)
        }),
{
    let bs = grid_blocks(users, table, muted, header, count);
    let j = count as int;
    assert(bs.len() == count);
    assert forall|i: int| 0 <= i <= j implies is_grid_post(#[trigger] h[i]) by {
        if i == 0 {
            lemma_legend_has_colon();
        } else {
            lemma_block_has_colon(users, table, muted, header, count, count - i);
            assert(h[i].content@ == bs[count - i]);
            assert(bs[count - i] == crate::grid::grid_block(users, table, muted, header, count, count - i));
            assert(h[i].from_bot);
        }
    }
    lemma_run_len_all(h, j);
    lemma_run_text_blocks(h, bs, legend(), j);
    assert(bs.subrange(0, count as int) =~= bs);
    lemma_grid_with_legend(users, table, muted, header, count);
    lemma_run_ids_all(h, j);
    assert(Seq::new((j + 1) as nat, |i: int| h[j - i].id).drop_last() =~= Seq::new(count, |i: int| h[count - i].id));
}

} // verus!
