use vstd::prelude::*;

use std::collections::HashSet;

use crate::grid::{
    cell, grid_blocks, played_in_row, render_grid, row_text, splits_into, wins_in_row,
    Participant, RenderError,
};
use crate::outcome::{inverse, MatchResult};

verus! {

broadcast use vstd::std_specs::hash::group_hash_axioms;

/// No two players share an id.
pub open spec fn ids_unique(users: Seq<Participant>) -> bool {
    forall|i: int, j: int|
        0 <= i < users.len() && 0 <= j < users.len() && i != j ==> users[i].id != users[j].id
}

/// Whether a player with `id` is among `users`.
pub open spec fn has_id(users: Seq<Participant>, id: u64) -> bool {
    exists|i: int| 0 <= i < users.len() && users[i].id == id
}

/// Where the player with `id` stands.
pub open spec fn pos_of(users: Seq<Participant>, id: u64) -> int {
    choose|i: int| 0 <= i < users.len() && users[i].id == id
}

/// Each match reads the same from both sides, and nobody plays themself.
pub open spec fn table_consistent(table: Seq<MatchResult>, n: nat) -> bool {
    &&& table.len() == n * n
    &&& forall|a: int, b: int|
        0 <= a < n && 0 <= b < n ==> #[trigger] cell(table, n, a, b) == inverse(
            cell(table, n, b, a),
        )
    &&& forall|a: int| 0 <= a < n ==> #[trigger] cell(table, n, a, a) == MatchResult::Unplayable
}

/// The table of a new grid: nothing played, and the diagonal not playable.
pub open spec fn initial_table(n: nat) -> Seq<MatchResult> {
    Seq::new(
        n * n,
        |k: int|
            if k % (n as int) == k / (n as int) {
                MatchResult::Unplayable
            } else {
                MatchResult::NotPlayed
            },
    )
}

/// One round-robin grid: its players, their results, who asked not to be
/// pinged, its title, and the posts that show it.
#[derive(Debug)]
pub struct MatchMatrix {
    pub thread: u64,
    pub threadname: String,
    pub mainposts: Vec<u64>,
    pub users: Vec<Participant>,
    pub results: Vec<MatchResult>,
    pub disabled_fam: HashSet<u64>,
}

/// Why a grid could not be built or changed.
#[derive(Debug, Clone, Copy, PartialEq, Eq, Structural)]
pub enum MatrixError {
    /// The same player was listed twice.
    DuplicateParticipant { id: u64 },
    /// A player is not part of the grid.
    UnknownParticipant { id: u64 },
    /// A player cannot play themself.
    SelfMatch,
    /// A grid needs at least one post to show it.
    NoPosts,
}

impl MatchMatrix {
    /// The shape that every grid keeps: one cell per pair of players, distinct
    /// players, muted players among them, and at least one post.
    pub open spec fn wf(&self) -> bool {
        &&& self.results@.len() == self.users@.len() * self.users@.len()
        &&& ids_unique(self.users@)
        &&& forall|id: u64| #[trigger]
            self.disabled_fam@.contains(id) ==> has_id(self.users@, id)
        &&& self.mainposts@.len() >= 1
    }

    /// The result that the grid shows in column `a` of row `b`.
    pub open spec fn result_at(&self, a: int, b: int) -> MatchResult {
        cell(self.results@, self.users@.len(), a, b)
    }

    /// Wins and matches played by the player in row `y`, as its line shows them.
    pub open spec fn summary_of(&self, y: int) -> (nat, nat) {
        let n = self.users@.len();
        (wins_in_row(self.results@, n, y, n), played_in_row(self.results@, n, y, n))
    }

    /// Builds a new grid: nothing played yet, nobody muted.
    pub fn initialize(thread: u64, threadname: String, users: Vec<Participant>, mainposts: Vec<u64>) -> (r: Result<MatchMatrix, MatrixError>)
        ensures
            match r {
                Ok(m) => {
                    &&& m.wf()
                    &&& table_consistent(m.results@, m.users@.len())
                    &&& m.results@ == initial_table(users@.len())
                    &&& m.users@ == users@
                    &&& m.disabled_fam@.is_empty()
                    &&& m.thread == thread
                    &&& m.threadname@ == threadname@
                    &&& m.mainposts@ == mainposts@
                },
                Err(MatrixError::DuplicateParticipant { id }) => !ids_unique(users@) && shared_id(users@, id),
                Err(MatrixError::NoPosts) => ids_unique(users@) && mainposts@.len() == 0,
                Err(_) => false,
            },
    {
        let n = users.len();
        match first_duplicate(&users) {
            Some(id) => {
                return Err(MatrixError::DuplicateParticipant { id });
            },
            None => {},
        }
        if mainposts.len() == 0 {
            return Err(MatrixError::NoPosts);
        }
        let results = Self::initial_results(n);
        proof {
            lemma_initial_table_consistent(n as nat);
        }
        Ok(MatchMatrix { thread, threadname, mainposts, users, results, disabled_fam: HashSet::new() })
    }

    /// The table of a new grid of `n` players.
    pub fn initial_results(n: usize) -> (r: Vec<MatchResult>)
        ensures
            r@ == initial_table(n as nat),
    {
        let mut out: Vec<MatchResult> = Vec::new();
        let mut y: usize = 0;
        while y < n
            invariant
                y <= n,
                out@.len() == y * n,
                forall|k: int| 0 <= k < out@.len() ==> #[trigger] out@[k] == initial_table(n as nat)[k],
            decreases n - y,
        {
            let mut x: usize = 0;
            while x < n
                invariant
                    y < n,
                    x <= n,
                    out@.len() == y * n + x,
                    forall|k: int| 0 <= k < out@.len() ==> #[trigger] out@[k] == initial_table(n as nat)[k],
                decreases n - x,
            {
                proof {
                    lemma_cell_coords(n as nat, x as int, y as int);
                    crate::grid::lemma_cell_index(n as nat, x as int, y as int);
                }
                out.push(if x == y { MatchResult::Unplayable } else { MatchResult::NotPlayed });
                x = x + 1;
            }
            y = y + 1;
            assert(out@.len() == y * n) by (nonlinear_arith)
                requires
                    out@.len() == (y - 1) * n + n,
            ;
        }
        assert(out@ =~= initial_table(n as nat));
        out
    }
}

/// The cell of column `a` in row `b` sits at `b * n + a`, which gives back
/// its column and row.
pub proof fn lemma_cell_coords(n: nat, a: int, b: int)
    requires
        0 <= a < n,
        0 <= b < n,
    ensures
        (b * n + a) % (n as int) == a,
        (b * n + a) / (n as int) == b,
{
    vstd::arithmetic::div_mod::lemma_fundamental_div_mod_converse(b * n + a, n as int, b, a);
}

/// Where the player with `id` stands among `users`, if anywhere.
pub fn lookup_userid(id: u64, users: &Vec<Participant>) -> (r: Option<usize>)
    ensures
        match r {
            Some(i) => {
                &&& i < users@.len()
                &&& users@[i as int].id == id
                &&& forall|j: int| 0 <= j < i ==> users@[j].id != id
            },
            None => !has_id(users@, id),
        },
{
    let mut i: usize = 0;
    while i < users.len()
        invariant
            i <= users@.len(),
            forall|j: int| 0 <= j < i ==> users@[j].id != id,
        decreases users.len() - i,
    {
        if users[i].id == id {
            return Some(i);
        }
        i = i + 1;
    }
    None
}

proof fn lemma_pos_of(users: Seq<Participant>, id: u64, i: int)
    requires
        ids_unique(users),
        0 <= i < users.len(),
        users[i].id == id,
    ensures
        pos_of(users, id) == i,
        has_id(users, id),
{
    assert(has_id(users, id));
    let p = pos_of(users, id);
    assert(0 <= p < users.len() && users[p].id == id);
}

/// The muted players after `player` turns pings on (`enable`) or off.
pub open spec fn muted_after(users: Seq<Participant>, muted: Set<u64>, player: u64, enable: bool) -> Set<u64> {
    if !has_id(users, player) {
        muted
    } else if enable {
        muted.remove(player)
    } else {
        muted.insert(player)
    }
}

/// Whether turning pings on (`enable`) or off changes anything for `player`.
pub open spec fn findable_changes(users: Seq<Participant>, muted: Set<u64>, player: u64, enable: bool) -> bool {
    has_id(users, player) && (if enable {
        muted.contains(player)
    } else {
        !muted.contains(player)
    })
}

/// The table after `player` reports `result` against `opponent`.
pub open spec fn table_after_report(
    users: Seq<Participant>,
    table: Seq<MatchResult>,
    player: u64,
    opponent: u64,
    result: MatchResult,
) -> Seq<MatchResult> {
    let n = users.len() as int;
    let p = pos_of(users, player);
    let o = pos_of(users, opponent);
    table.update(o * n + p, inverse(result)).update(p * n + o, result)
}

/// Whether `player` can report a match against `opponent`.
pub open spec fn can_report(users: Seq<Participant>, player: u64, opponent: u64) -> bool {
    has_id(users, player) && has_id(users, opponent) && player != opponent
}

impl MatchMatrix {
    /// Records that `player` scored `result` against `opponent`: the cell of
    /// the player's row reads `result`, the opponent's reads its inverse.
    pub fn report(&mut self, player: u64, opponent: u64, result: MatchResult) -> (r: Result<(), MatrixError>)
        requires
            old(self).wf(),
        ensures
            final(self).wf(),
            match r {
                Ok(()) => {
                    &&& can_report(old(self).users@, player, opponent)
                    &&& final(self).results@ == table_after_report(
                        old(self).users@,
                        old(self).results@,
                        player,
                        opponent,
                        result,
                    )
                    &&& final(self).users == old(self).users
                    &&& final(self).disabled_fam == old(self).disabled_fam
                    &&& final(self).mainposts == old(self).mainposts
                    &&& final(self).threadname == old(self).threadname
                    &&& final(self).thread == old(self).thread
                },
                Err(e) => {
                    &&& *final(self) == *old(self)
                    &&& !can_report(old(self).users@, player, opponent)
                    &&& match e {
                        MatrixError::UnknownParticipant { id } => {
                            ||| (id == opponent && !has_id(old(self).users@, opponent))
                            ||| (id == player && !has_id(old(self).users@, player) && has_id(
                                old(self).users@,
                                opponent,
                            ))
                        },
                        MatrixError::SelfMatch => player == opponent && has_id(
                            old(self).users@,
                            player,
                        ),
                        _ => false,
                    }
                },
            },
            table_consistent(old(self).results@, old(self).users@.len()) ==> table_consistent(
                final(self).results@,
                final(self).users@.len(),
            ),
    {
        let o = match lookup_userid(opponent, &self.users) {
            Some(i) => i,
            None => {
                return Err(MatrixError::UnknownParticipant { id: opponent });
            },
        };
        let p = match lookup_userid(player, &self.users) {
            Some(i) => i,
            None => {
                return Err(MatrixError::UnknownParticipant { id: player });
            },
        };
        if player == opponent {
            return Err(MatrixError::SelfMatch);
        }
        let n = self.users.len();
        let cells = self.results.len();
        proof {
            // The table's length, a usize, bounds every cell index.
            assert(n * n == cells);
            lemma_pos_of(self.users@, player, p as int);
            lemma_pos_of(self.users@, opponent, o as int);
            crate::grid::lemma_cell_index(n as nat, p as int, o as int);
            crate::grid::lemma_cell_index(n as nat, o as int, p as int);
        }
        let ghost old_results = self.results@;
        self.results.set(o * n + p, result.invert());
        self.results.set(p * n + o, result);
        proof {
            if table_consistent(old_results, n as nat) {
                lemma_report_keeps_consistency(old(self).users@, old_results, player, opponent, result);
            }
        }
        Ok(())
    }

    /// Lets `player` be pinged again (`enable`) or not; says whether anything
    /// changed. Nothing changes for someone who is not in the grid.
    pub fn set_findable(&mut self, player: u64, enable: bool) -> (changed: bool)
        requires
            old(self).wf(),
        ensures
            final(self).wf(),
            changed == findable_changes(old(self).users@, old(self).disabled_fam@, player, enable),
            final(self).disabled_fam@ == muted_after(
                old(self).users@,
                old(self).disabled_fam@,
                player,
                enable,
            ),
            final(self).users == old(self).users,
            final(self).results == old(self).results,
            final(self).mainposts == old(self).mainposts,
            final(self).threadname == old(self).threadname,
            final(self).thread == old(self).thread,
    {
        match lookup_userid(player, &self.users) {
            None => false,
            Some(i) => {
                proof {
                    lemma_pos_of(self.users@, player, i as int);
                }
                if enable {
                    self.disabled_fam.remove(&player)
                } else {
                    self.disabled_fam.insert(player)
                }
            },
        }
    }

    /// Wins and matches played of the player with `id`, as the grid counts them.
    pub fn summary(&self, id: u64) -> (r: Option<(usize, usize)>)
        requires
            self.wf(),
        ensures
            match r {
                Some((w, p)) => has_id(self.users@, id) && (w as nat, p as nat) == self.summary_of(
                    pos_of(self.users@, id),
                ),
                None => !has_id(self.users@, id),
            },
    {
        let y = match lookup_userid(id, &self.users) {
            Some(i) => i,
            None => {
                return None;
            },
        };
        proof {
            lemma_pos_of(self.users@, id, y as int);
        }
        let n = self.users.len();
        let total = self.results.len();
        let mut wins: usize = 0;
        let mut played: usize = 0;
        let mut x: usize = 0;
        while x < n
            invariant
                n == self.users@.len(),
                self.results@.len() == n * n,
                total == self.results@.len(),
                y < n,
                x <= n,
                wins == wins_in_row(self.results@, n as nat, y as int, x as nat),
                played == played_in_row(self.results@, n as nat, y as int, x as nat),
            decreases n - x,
        {
            proof {
                crate::grid::lemma_cell_index(n as nat, x as int, y as int);
                crate::grid::lemma_row_counts_bounded(self.results@, n as nat, y as int, x as nat);
            }
            let r = self.results[y * n + x];
            if r == MatchResult::TwoZero || r == MatchResult::TwoOne {
                wins = wins + 1;
            }
            if r == MatchResult::TwoZero || r == MatchResult::TwoOne || r == MatchResult::OneTwo
                || r == MatchResult::ZeroTwo {
                played = played + 1;
            }
            x = x + 1;
        }
        Some((wins, played))
    }

    /// The blocks that show this grid, one per post.
    pub fn render(&self) -> (r: Result<Vec<String>, RenderError>)
        requires
            self.wf(),
        ensures
            match r {
                Ok(blocks) => {
                    &&& splits_into(self.users@.len(), self.mainposts@.len())
                    &&& blocks@.len() == self.mainposts@.len()
                    &&& forall|j: int|
                        0 <= j < blocks@.len() ==> (#[trigger] blocks@[j])@ == grid_blocks(
                            self.users@,
                            self.results@,
                            self.disabled_fam@,
                            self.threadname@,
                            self.mainposts@.len(),
                        )[j]
                },
                Err(_) => !splits_into(self.users@.len(), self.mainposts@.len()),
            },
    {
        render_grid(
            &self.users,
            &self.results,
            &self.disabled_fam,
            self.threadname.as_str(),
            self.mainposts.len(),
        )
    }

    /// The blocks of a final snapshot of this grid, with no mute marks.
    pub fn render_final(&self) -> (r: Result<Vec<String>, RenderError>)
        requires
            self.wf(),
        ensures
            match r {
                Ok(blocks) => {
                    &&& splits_into(self.users@.len(), self.mainposts@.len())
                    &&& blocks@.len() == self.mainposts@.len()
                    &&& forall|j: int|
                        0 <= j < blocks@.len() ==> (#[trigger] blocks@[j])@ == grid_blocks(
                            self.users@,
                            self.results@,
                            Set::empty(),
                            self.threadname@,
                            self.mainposts@.len(),
                        )[j]
                },
                Err(_) => !splits_into(self.users@.len(), self.mainposts@.len()),
            },
    {
        let none: HashSet<u64> = HashSet::new();
        render_grid(&self.users, &self.results, &none, self.threadname.as_str(), self.mainposts.len())
    }
}

/// Every grid that was built and then only reported into reads the same from
/// both sides of each match, and nobody plays themself.
pub proof fn lemma_table_symmetric(m: MatchMatrix, a: int, b: int)
    requires
        m.wf(),
        table_consistent(m.results@, m.users@.len()),
        0 <= a < m.users@.len(),
        0 <= b < m.users@.len(),
    ensures
        m.result_at(a, b) == inverse(m.result_at(b, a)),
        m.result_at(a, a) == MatchResult::Unplayable,
{
}

/// Turning pings on or off a second time changes nothing, and a player's
/// line carries the mute mark exactly while their pings are off.
pub proof fn lemma_findable_idempotent(
    users: Seq<Participant>,
    table: Seq<MatchResult>,
    muted: Set<u64>,
    player: u64,
    enable: bool,
)
    requires
        ids_unique(users),
        has_id(users, player),
    ensures
        !findable_changes(users, muted_after(users, muted, player, enable), player, enable),
        ({
            let y = pos_of(users, player);
            let after = muted_after(users, muted, player, enable);
            crate::grid::row_tail(users, table, after, y) == crate::grid::decimal(
                wins_in_row(table, users.len(), y, users.len()),
            ) + seq!['/'] + crate::grid::decimal(played_in_row(table, users.len(), y, users.len()))
                + seq![' '] + users[y].name@ + if enable {
                Seq::empty()
            } else {
                crate::grid::muted_marker()
            }
        }),
{
    let y = pos_of(users, player);
    assert(0 <= y < users.len() && users[y].id == player);
}

/// The wins and matches played of a player are the ones printed on their line.
pub proof fn lemma_summary_printed(m: MatchMatrix, muted: Set<u64>, y: int)
    requires
        m.wf(),
        0 <= y < m.users@.len(),
    ensures
        row_text(m.users@, m.results@, muted, y) == crate::grid::cells_text(
            m.results@,
            m.users@.len(),
            y,
            m.users@.len(),
        ) + crate::grid::decimal(m.summary_of(y).0) + seq!['/'] + crate::grid::decimal(
            m.summary_of(y).1,
        ) + seq![' '] + m.users@[y].name@ + (if muted.contains(m.users@[y].id) {
            crate::grid::muted_marker()
        } else {
            Seq::empty()
        }) + seq!['\n'],
{
}

/// Two different players of `users` have `id`.
pub open spec fn shared_id(users: Seq<Participant>, id: u64) -> bool {
    exists|i: int, j: int|
        0 <= i < users.len() && 0 <= j < users.len() && i != j && #[trigger] users[i].id == id && #[trigger] users[j].id == id
}

/// An id that two players of `users` share, if any.
pub fn first_duplicate(users: &Vec<Participant>) -> (r: Option<u64>)
    ensures
        match r {
            Some(id) => !ids_unique(users@) && shared_id(users@, id),
            None => ids_unique(users@),
        },
{
    let n = users.len();
    let mut i: usize = 0;
    while i < n
        invariant
            n == users@.len(),
            i <= n,
            forall|a: int, b: int| 0 <= a < i && 0 <= b < n && a != b ==> users@[a].id != users@[b].id,
        decreases n - i,
    {
        let mut j: usize = 0;
        while j < n
            invariant
                n == users@.len(),
                i < n,
                j <= n,
                forall|a: int, b: int| 0 <= a < i && 0 <= b < n && a != b ==> users@[a].id != users@[b].id,
                forall|b: int| 0 <= b < j && i != b ==> users@[i as int].id != users@[b].id,
            decreases n - j,
        {
            if i != j && users[i].id == users[j].id {
                assert(users@[j as int].id == users@[i as int].id);
                return Some(users[i].id);
            }
            j = j + 1;
        }
        i = i + 1;
    }
    None
}

impl MatchMatrix {
    /// Builds a grid from results and mutes read back from its posts.
    pub fn restore(
        thread: u64,
        threadname: String,
        users: Vec<Participant>,
        mainposts: Vec<u64>,
        results: Vec<MatchResult>,
        disabled_fam: HashSet<u64>,
    ) -> (r: Result<MatchMatrix, MatrixError>)
        requires
            results@.len() == users@.len() * users@.len(),
            forall|id: u64| #[trigger] disabled_fam@.contains(id) ==> has_id(users@, id),
        ensures
            match r {
                Ok(m) => {
                    &&& m.wf()
                    &&& m.users@ == users@
                    &&& m.results@ == results@
                    &&& m.disabled_fam@ == disabled_fam@
                    &&& m.thread == thread
                    &&& m.threadname@ == threadname@
                    &&& m.mainposts@ == mainposts@
                },
                Err(MatrixError::DuplicateParticipant { id }) => !ids_unique(users@) && shared_id(users@, id),
                Err(MatrixError::NoPosts) => ids_unique(users@) && mainposts@.len() == 0,
                Err(_) => false,
            },
    {
        match first_duplicate(&users) {
            Some(id) => {
                return Err(MatrixError::DuplicateParticipant { id });
            },
            None => {},
        }
        if mainposts.len() == 0 {
            return Err(MatrixError::NoPosts);
        }
        Ok(MatchMatrix { thread, threadname, mainposts, users, results, disabled_fam })
    }
}

/// A new grid's table reads the same from both sides of each match, and
/// nobody plays themself.
pub proof fn lemma_initial_table_consistent(n: nat)
    ensures
        table_consistent(initial_table(n), n),
{
    let t = initial_table(n);
    assert forall|a: int, b: int| 0 <= a < n && 0 <= b < n implies #[trigger] cell(t, n, a, b) == inverse(cell(t, n, b, a)) by {
        lemma_cell_coords(n, a, b);
        lemma_cell_coords(n, b, a);
        crate::grid::lemma_cell_index(n, a, b);
        crate::grid::lemma_cell_index(n, b, a);
    }
    assert forall|a: int| 0 <= a < n implies #[trigger] cell(t, n, a, a) == MatchResult::Unplayable by {
        lemma_cell_coords(n, a, a);
        crate::grid::lemma_cell_index(n, a, a);
    }
}

/// A report between two distinct players of the grid keeps its table
/// reading the same from both sides, with nobody playing themself.
pub proof fn lemma_report_keeps_consistency(
    users: Seq<Participant>,
    table: Seq<MatchResult>,
    player: u64,
    opponent: u64,
    result: MatchResult,
)
    requires
        ids_unique(users),
        table_consistent(table, users.len()),
        can_report(users, player, opponent),
    ensures
        table_consistent(table_after_report(users, table, player, opponent, result), users.len()),
{
    let n = users.len();
    let p = pos_of(users, player);
    let o = pos_of(users, opponent);
    assert(0 <= p < n && users[p].id == player);
    assert(0 <= o < n && users[o].id == opponent);
    assert(p != o);
    let t = table_after_report(users, table, player, opponent, result);
    crate::grid::lemma_cell_index(n, p, o);
    crate::grid::lemma_cell_index(n, o, p);
    lemma_cell_coords(n, p, o);
    lemma_cell_coords(n, o, p);
    assert forall|a: int, b: int| 0 <= a < n && 0 <= b < n implies #[trigger] cell(t, n, a, b) == inverse(cell(t, n, b, a)) by {
        lemma_cell_coords(n, a, b);
        lemma_cell_coords(n, b, a);
        crate::grid::lemma_cell_index(n, a, b);
        crate::grid::lemma_cell_index(n, b, a);
        assert(cell(table, n, a, b) == inverse(cell(table, n, b, a)));
        crate::outcome::lemma_inverse_involution(result);
    }
    assert forall|a: int| 0 <= a < n implies #[trigger] cell(t, n, a, a) == MatchResult::Unplayable by {
        lemma_cell_coords(n, a, a);
        crate::grid::lemma_cell_index(n, a, a);
        assert(cell(table, n, a, a) == MatchResult::Unplayable);
    }
}

} // verus!
