use vstd::prelude::*;

use crate::grid::{cell, push_all};
use crate::group::{selected, GuildState, Tournament};
use crate::intro::{mention, push_decimal_u64};
use crate::matrix::{has_id, lookup_userid, pos_of};
use crate::outcome::MatchResult;
use crate::text::{chars_of, same_chars, string_of};

verus! {

broadcast use vstd::std_specs::hash::group_hash_axioms;

/// Which opponents a search for a match leaves out.
#[derive(Debug, Clone, Copy, PartialEq, Eq, Structural)]
pub enum RestrictValues {
    NoRestriction,
    ExcludeDangerous,
    ExcludeNormal,
}

/// Why a search for a match could not run.
#[derive(Debug, Clone, Copy, PartialEq, Eq, Structural)]
pub enum FamError {
    /// The restriction is not one of 0, 1 and 2.
    UnexpectedRestrict,
}

/// The text and the players to ping of a search for a match.
#[derive(Debug)]
pub struct FamPing {
    pub text: String,
    pub mentions: Vec<u64>,
}

pub const DANGEROUS_A: u64 = 183433751689166850;
pub const DANGEROUS_B: u64 = 1165425089676849182;
pub const DANGEROUS_C: u64 = 643842082435235862;
pub const DANGEROUS_D: u64 = 249299939522248704;

/// The strongest players, whom a search can leave out or keep alone.
pub open spec fn dangerous(id: u64) -> bool {
    id == DANGEROUS_A || id == DANGEROUS_B || id == DANGEROUS_C || id == DANGEROUS_D
}

/// Whether the restriction leaves the player with `id` out.
pub open spec fn excluded(r: RestrictValues, id: u64) -> bool {
    match r {
        RestrictValues::NoRestriction => false,
        RestrictValues::ExcludeDangerous => dangerous(id),
        RestrictValues::ExcludeNormal => !dangerous(id),
    }
}

/// The restriction that a command's number stands for.
pub fn restrict_from(v: i64) -> (r: Result<RestrictValues, FamError>)
    ensures
        r == (if v == 0 {
            Ok(RestrictValues::NoRestriction)
        } else if v == 1 {
            Ok(RestrictValues::ExcludeDangerous)
        } else if v == 2 {
            Ok(RestrictValues::ExcludeNormal)
        } else {
            Err(FamError::UnexpectedRestrict)
        }),
{
    if v == 0 {
        Ok(RestrictValues::NoRestriction)
    } else if v == 1 {
        Ok(RestrictValues::ExcludeDangerous)
    } else if v == 2 {
        Ok(RestrictValues::ExcludeNormal)
    } else {
        Err(FamError::UnexpectedRestrict)
    }
}

/// Whether `id` is one of the strongest players.
pub fn is_dangerous(id: u64) -> (r: bool)
    ensures
        r == dangerous(id),
{
    id == DANGEROUS_A || id == DANGEROUS_B || id == DANGEROUS_C || id == DANGEROUS_D
}

/// Whether the player at `p` still has to play the opponent at `o`, who is
/// someone else and not left out.
pub open spec fn open_match(t: Tournament, p: int, o: int, r: RestrictValues) -> bool {
    let users = t.matrix.users@;
    &&& o != p
    &&& cell(t.matrix.results@, users.len(), p, o) == MatchResult::NotPlayed
    &&& !excluded(r, users[o].id)
}

/// How an open opponent is named: by a mention, or by name if muted.
pub open spec fn opponent_entry(t: Tournament, o: int) -> Seq<char> {
    let u = t.matrix.users@[o];
    if t.matrix.disabled_fam@.contains(u.id) {
        u.name@ + seq![' ']
    } else {
        mention(u.id) + seq![' ']
    }
}

/// The open opponents among the first `k` players.
pub open spec fn opponents_text(t: Tournament, p: int, r: RestrictValues, k: nat) -> Seq<char>
    decreases k,
{
    if k == 0 {
        Seq::empty()
    } else {
        opponents_text(t, p, r, (k - 1) as nat) + if open_match(t, p, k - 1, r) {
            opponent_entry(t, k - 1)
        } else {
            Seq::empty()
        }
    }
}

/// What a search says when no match is left to play.
pub open spec fn all_done_text() -> Seq<char> {
    seq!['A', 'l', 'l', ' ', 'm', 'a', 't', 'c', 'h', 'e', 's', ' ', 'c', 'o', 'm', 'p', 'l', 'e', 't', 'e', '!']
}

/// What a search says after mentioning the player who asks.
pub open spec fn asking_text() -> Seq<char> {
    seq![' ', 'i', 's', ' ', 't', 'r', 'y', 'i', 'n', 'g', ' ', 't', 'o', ' ', 'f', 'i', 'n', 'd', ' ', 'a', ' ', 'm', 'a', 't', 'c', 'h', ' ', 't', 'o', ' ', 'p', 'l', 'a', 'y', ',', ' ', 'i', 's', ' ', 'a', 'n', 'y', 'o', 'n', 'e', ' ', 'a', 'v', 'a', 'i', 'l', 'a', 'b', 'l', 'e', '?']
}

/// The open opponents of the player at `p`, or a note that none is left.
pub open spec fn opponents_line(t: Tournament, p: int, r: RestrictValues) -> Seq<char> {
    if exists|o: int| 0 <= o < t.matrix.users@.len() && open_match(t, p, o, r) {
        opponents_text(t, p, r, t.matrix.users@.len())
    } else {
        all_done_text()
    }
}

/// The lines of the first `k` grids for `player`.
pub open spec fn fam_lines(ts: Seq<Tournament>, player: u64, filter: Seq<char>, r: RestrictValues, k: nat) -> Seq<char>
    decreases k,
{
    if k == 0 {
        Seq::empty()
    } else {
        let t = ts[k - 1];
        fam_lines(ts, player, filter, r, (k - 1) as nat) + if selected(filter, t.shortname@) && has_id(
            t.matrix.users@,
            player,
        ) {
            seq!['\n'] + t.shortname@ + seq![':', ' '] + opponents_line(t, pos_of(t.matrix.users@, player), r)
        } else {
            Seq::empty()
        }
    }
}

/// The players that a search pings: open opponents who are not muted.
pub open spec fn fam_mentions(ts: Seq<Tournament>, player: u64, filter: Seq<char>, r: RestrictValues) -> Set<u64> {
    Set::new(
        |id: u64|
            exists|i: int, o: int|
                0 <= i < ts.len() && selected(filter, ts[i].shortname@) && has_id(ts[i].matrix.users@, player)
                    && 0 <= o < ts[i].matrix.users@.len() && open_match(ts[i], pos_of(ts[i].matrix.users@, player), o, r)
                    && #[trigger] ts[i].matrix.users@[o].id == id && !ts[i].matrix.disabled_fam@.contains(id),
    )
}

/// The ids of open, unmuted opponents among the first `k` players of grid `i`,
/// and among all players of the grids before it.
pub open spec fn mentions_upto(ts: Seq<Tournament>, player: u64, filter: Seq<char>, r: RestrictValues, i: int, k: int) -> Set<u64> {
    Set::new(
        |id: u64|
            exists|a: int, o: int|
                0 <= a <= i && a < ts.len() && selected(filter, ts[a].shortname@) && has_id(ts[a].matrix.users@, player)
                    && 0 <= o < ts[a].matrix.users@.len() && (a < i || o < k) && open_match(ts[a], pos_of(ts[a].matrix.users@, player), o, r)
                    && #[trigger] ts[a].matrix.users@[o].id == id && !ts[a].matrix.disabled_fam@.contains(id),
    )
}

/// Appends `id` to `list` unless it is there already.
pub fn add_unique(list: &mut Vec<u64>, id: u64)
    requires
        old(list)@.no_duplicates(),
    ensures
        final(list)@.no_duplicates(),
        final(list)@.to_set() == old(list)@.to_set().insert(id),
{
    let mut k: usize = 0;
    while k < list.len()
        invariant
            k <= list@.len(),
            list@ == old(list)@,
            list@.no_duplicates(),
            forall|j: int| 0 <= j < k ==> list@[j] != id,
        decreases list.len() - k,
    {
        if list[k] == id {
            proof {
                assert(list@.to_set() =~= list@.to_set().insert(id));
            }
            return;
        }
        k = k + 1;
    }
    let ghost before = list@;
    list.push(id);
    proof {
        assert(list@.to_set() =~= before.to_set().insert(id)) by {
            assert forall|x: u64| list@.to_set().contains(x) <==> before.to_set().insert(id).contains(x) by {
                if list@.to_set().contains(x) {
                    let j = choose|j: int| 0 <= j < list@.len() && list@[j] == x;
                    if j < before.len() {
                        assert(before.contains(x));
                    }
                }
                if before.contains(x) {
                    let j = choose|j: int| 0 <= j < before.len() && before[j] == x;
                    assert(list@[j] == x);
                }
                if x == id {
                    assert(list@[before.len() as int] == id);
                }
            }
        }
    }
}

/// Searches the grids that `filter` selects for matches that `player` has
/// still to play, and says whom to ping.
pub fn fam_pings(state: &GuildState, player: u64, filter: &str, r: RestrictValues) -> (out: FamPing)
    requires
        state.wf(),
    ensures
        out.text@ == mention(player) + asking_text() + fam_lines(state.tournaments@, player, filter@, r, state.tournaments@.len()),
        out.mentions@.no_duplicates(),
        out.mentions@.to_set() == fam_mentions(state.tournaments@, player, filter@, r),
{
    let ts = &state.tournaments;
    let filter_v = chars_of(filter);
    let mut text: Vec<char> = Vec::new();
    text.push('<');
    text.push('@');
    push_decimal_u64(&mut text, player);
    text.push('>');
    push_all(&mut text, &vec![' ', 'i', 's', ' ', 't', 'r', 'y', 'i', 'n', 'g', ' ', 't', 'o', ' ', 'f', 'i', 'n', 'd', ' ', 'a', ' ', 'm', 'a', 't', 'c', 'h', ' ', 't', 'o', ' ', 'p', 'l', 'a', 'y', ',', ' ', 'i', 's', ' ', 'a', 'n', 'y', 'o', 'n', 'e', ' ', 'a', 'v', 'a', 'i', 'l', 'a', 'b', 'l', 'e', '?']);
    let mut mentions: Vec<u64> = Vec::new();
    let mut i: usize = 0;
    proof {
        assert(mentions@.to_set() =~= mentions_upto(ts@, player, filter@, r, 0, 0));
    }
    while i < ts.len()
        invariant
            state.wf(),
            ts == &state.tournaments,
            filter_v@ == filter@,
            i <= ts@.len(),
            text@ == mention(player) + asking_text() + fam_lines(ts@, player, filter@, r, i as nat),
            mentions@.no_duplicates(),
            mentions@.to_set() == mentions_upto(ts@, player, filter@, r, i as int, 0),
        decreases ts.len() - i,
    {
        let t = &ts[i];
        let applies = filter_v.len() == 0 || same_chars(&chars_of(t.shortname.as_str()), &filter_v);
        let ghost before = text@;
        assert(applies == selected(filter@, t.shortname@));
        let p = if applies { lookup_userid(player, &t.matrix.users) } else { None };
        match p {
            Some(p) => {
                proof {
                    let users = t.matrix.users@;
                    assert(has_id(users, player));
                    let q = pos_of(users, player);
                    assert(0 <= q < users.len() && users[q].id == player);
                    assert(q == p);
                }
                text.push('\n');
                push_all(&mut text, &chars_of(t.shortname.as_str()));
                text.push(':');
                text.push(' ');
                let n = t.matrix.users.len();
                let total = t.matrix.results.len();
                let mut line: Vec<char> = Vec::new();
                let mut found = false;
                let mut o: usize = 0;
                while o < n
                    invariant
                        state.wf(),
                        ts == &state.tournaments,
                        i < ts@.len(),
                        *t == ts@[i as int],
                        n == t.matrix.users@.len(),
                        total == t.matrix.results@.len(),
                        total == n * n,
                        p < n,
                        p == pos_of(t.matrix.users@, player),
                        o <= n,
                        line@ == opponents_text(*t, p as int, r, o as nat),
                        found == exists|b: int| 0 <= b < o && open_match(*t, p as int, b, r),
                        mentions@.no_duplicates(),
                        mentions@.to_set() == mentions_upto(ts@, player, filter@, r, i as int, o as int),
                        has_id(t.matrix.users@, player),
                        selected(filter@, t.shortname@),
                    decreases n - o,
                {
                    proof {
                        crate::grid::lemma_cell_index(n as nat, p as int, o as int);
                    }
                    let res = t.matrix.results[o * n + p];
                    let oid = t.matrix.users[o].id;
                    let left_out = match r {
                        RestrictValues::NoRestriction => false,
                        RestrictValues::ExcludeDangerous => is_dangerous(oid),
                        RestrictValues::ExcludeNormal => !is_dangerous(oid),
                    };
                    let ghost before_m = mentions@.to_set();
                    let ghost found_before = found;
                    if o != p && res == MatchResult::NotPlayed && !left_out {
                        if t.matrix.disabled_fam.contains(&oid) {
                            push_all(&mut line, &chars_of(t.matrix.users[o].name.as_str()));
                            line.push(' ');
                        } else {
                            line.push('<');
                            line.push('@');
                            push_decimal_u64(&mut line, oid);
                            line.push('>');
                            line.push(' ');
                            add_unique(&mut mentions, oid);
                        }
                        found = true;
                    }
                    proof {
                        assert(open_match(*t, p as int, o as int, r) == (o != p && res == MatchResult::NotPlayed && !left_out));
                        if found {
                            if !found_before {
                                assert(open_match(*t, p as int, o as int, r));
                            }
                        } else {
                            assert(!open_match(*t, p as int, o as int, r));
                        }
                        let next = mentions_upto(ts@, player, filter@, r, i as int, o + 1);
                        let prev = mentions_upto(ts@, player, filter@, r, i as int, o as int);
                        assert forall|id: u64| next.contains(id) <==> mentions@.to_set().contains(id) by {
                            if next.contains(id) {
                                let (a, b) = choose|a: int, b: int|
                                    0 <= a <= i && a < ts@.len() && selected(filter@, ts@[a].shortname@) && has_id(ts@[a].matrix.users@, player)
                                        && 0 <= b < ts@[a].matrix.users@.len() && (a < i || b < o + 1) && open_match(ts@[a], pos_of(ts@[a].matrix.users@, player), b, r)
                                        && #[trigger] ts@[a].matrix.users@[b].id == id && !ts@[a].matrix.disabled_fam@.contains(id);
                                if a < i || b < o {
                                    assert(prev.contains(id));
                                }
                            }
                            if mentions@.to_set().contains(id) && !before_m.contains(id) {
                                assert(id == oid);
                                assert(ts@[i as int].matrix.users@[o as int].id == id);
                            }
                            if before_m.contains(id) {
                                let (a, b) = choose|a: int, b: int|
                                    0 <= a <= i && a < ts@.len() && selected(filter@, ts@[a].shortname@) && has_id(ts@[a].matrix.users@, player)
                                        && 0 <= b < ts@[a].matrix.users@.len() && (a < i || b < o) && open_match(ts@[a], pos_of(ts@[a].matrix.users@, player), b, r)
                                        && #[trigger] ts@[a].matrix.users@[b].id == id && !ts@[a].matrix.disabled_fam@.contains(id);
                                assert(next.contains(id));
                            }
                        }
                        assert(mentions@.to_set() =~= next);
                    }
                    o = o + 1;
                }
                if !found {
                    line = vec!['A', 'l', 'l', ' ', 'm', 'a', 't', 'c', 'h', 'e', 's', ' ', 'c', 'o', 'm', 'p', 'l', 'e', 't', 'e', '!'];
                }
                push_all(&mut text, &line);
                proof {
                    assert(text@ =~= before + (seq!['\n'] + t.shortname@ + seq![':', ' '] + opponents_line(*t, p as int, r)));
                }
            },
            None => {
                proof {
                    assert(!(selected(filter@, t.shortname@) && has_id(t.matrix.users@, player)));
                    assert(text@ =~= before + Seq::<char>::empty());
                }
            },
        }
        proof {
            let n = t.matrix.users@.len() as int;
            let cur = if p is Some {
                mentions_upto(ts@, player, filter@, r, i as int, n)
            } else {
                mentions_upto(ts@, player, filter@, r, i as int, 0)
            };
            assert(mentions@.to_set() == cur);
            let next = mentions_upto(ts@, player, filter@, r, i + 1, 0);
            assert forall|id: u64| next.contains(id) <==> cur.contains(id) by {
                if next.contains(id) {
                    let (a, b) = choose|a: int, b: int|
                        0 <= a <= i + 1 && a < ts@.len() && selected(filter@, ts@[a].shortname@) && has_id(ts@[a].matrix.users@, player)
                            && 0 <= b < ts@[a].matrix.users@.len() && (a < i + 1 || b < 0) && open_match(ts@[a], pos_of(ts@[a].matrix.users@, player), b, r)
                            && #[trigger] ts@[a].matrix.users@[b].id == id && !ts@[a].matrix.disabled_fam@.contains(id);
                    assert(cur.contains(id));
                }
                if cur.contains(id) {
                    let bound = if p is Some { n } else { 0 };
                    let (a, b) = choose|a: int, b: int|
                        0 <= a <= i && a < ts@.len() && selected(filter@, ts@[a].shortname@) && has_id(ts@[a].matrix.users@, player)
                            && 0 <= b < ts@[a].matrix.users@.len() && (a < i || b < bound) && open_match(ts@[a], pos_of(ts@[a].matrix.users@, player), b, r)
                            && #[trigger] ts@[a].matrix.users@[b].id == id && !ts@[a].matrix.disabled_fam@.contains(id);
                    assert(next.contains(id));
                }
            }
            assert(mentions@.to_set() =~= next);
        }
        i = i + 1;
    }
    proof {
        assert(mentions@.to_set() =~= fam_mentions(ts@, player, filter@, r));
    }
    FamPing { text: string_of(&text), mentions }
}

} // verus!
