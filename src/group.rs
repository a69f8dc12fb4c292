use vstd::prelude::*;

use std::collections::HashSet;

use crate::grid::{grid_blocks, render_grid, splits_into, Participant, RenderError};
use crate::intro::{ids_of, intro_spec, intro_text, parses_as, parse_u64, reads_intro};
use crate::matrix::{
    can_report, findable_changes, table_consistent, muted_after, has_id, ids_unique, initial_table, lookup_userid, table_after_report,
    MatchMatrix, MatrixError,
};
use crate::naming::{is_valid_command_name, lower_of, lowercase, valid_command_name};
use crate::outcome::{from_text, MatchResult};
use crate::text::{chars_of, same_chars};

verus! {

/// A grid being set up: its title, its command name and the players so far.
#[derive(Debug)]
pub struct MatchMatrixSetup {
    pub threadname: String,
    pub shortname: String,
    pub users: Vec<Participant>,
}

/// A running grid and the command name that reports into it.
#[derive(Debug)]
pub struct Tournament {
    pub shortname: String,
    pub matrix: MatchMatrix,
}

/// Everything one server holds: at most one grid being set up, and the
/// running grids.
#[derive(Debug)]
pub struct GuildState {
    pub setup: Option<MatchMatrixSetup>,
    pub tournaments: Vec<Tournament>,
}

/// What `create` posts: the intro, the grid's blocks and the legend.
#[derive(Debug)]
pub struct CreatePlan {
    pub intro: String,
    pub blocks: Vec<String>,
    pub legend: String,
}

/// A grid whose posts must be edited to show `blocks`.
#[derive(Debug)]
pub struct Rerender {
    pub index: usize,
    pub blocks: Vec<String>,
}

/// Why a setup step failed.
#[derive(Debug, Clone, Copy, PartialEq, Eq, Structural)]
pub enum SetupError {
    /// A grid is already being set up.
    SetupInProgress,
    /// The command name is not a valid one.
    InvalidName,
    /// No grid is being set up.
    NoSetup,
    /// The grid is too large to size its posts.
    TooManyPlayers,
    Render(RenderError),
    Matrix(MatrixError),
}

/// Why a command on a running grid failed.
#[derive(Debug, Clone, Copy, PartialEq, Eq, Structural)]
pub enum CommandError {
    /// No running grid has that command name or thread.
    NotFound,
    /// The opponent is not given as a numeric id.
    BadOpponent,
    Matrix(MatrixError),
    Render(RenderError),
}

/// A command name: at least one character, and no space.
pub open spec fn command_shape(name: Seq<char>) -> bool {
    name.len() >= 1 && forall|i: int| 0 <= i < name.len() ==> name[i] != ' '
}

/// How many posts a grid of `n` players is written in: about 25 characters
/// per cell of an `n + 1` square, at most 1800 to a post.
pub open spec fn block_budget(n: nat) -> nat {
    ((n + 1) * (n + 1) * 25) / 1800 + 1
}

/// The grid of `ts` that reports with command `name`, if any.
pub open spec fn has_name(ts: Seq<Tournament>, name: Seq<char>) -> bool {
    exists|i: int| 0 <= i < ts.len() && ts[i].shortname@ == name
}

/// `ts` with `t` in place of the grid of the same command name, or added at
/// the end.
pub open spec fn with_tournament(ts: Seq<Tournament>, t: Tournament) -> Seq<Tournament> {
    if has_name(ts, t.shortname@) {
        ts.update(choose|i: int| 0 <= i < ts.len() && ts[i].shortname@ == t.shortname@, t)
    } else {
        ts.push(t)
    }
}

impl GuildState {
    /// Distinct players in the setup, sound grids, distinct command names.
    pub open spec fn wf(&self) -> bool {
        &&& (self.setup matches Some(s) ==> ids_unique(s.users@) && command_shape(s.shortname@))
        &&& forall|i: int| 0 <= i < self.tournaments@.len() ==> (#[trigger] self.tournaments@[i]).matrix.wf()
        &&& forall|i: int, j: int|
            0 <= i < self.tournaments@.len() && 0 <= j < self.tournaments@.len() && i != j
                ==> self.tournaments@[i].shortname@ != self.tournaments@[j].shortname@
    }

    /// A server with nothing set up and no running grid.
    pub fn new() -> (r: GuildState)
        ensures
            r.wf(),
            r.setup is None,
            r.tournaments@.len() == 0,
    {
        GuildState { setup: None, tournaments: Vec::new() }
    }

    /// Starts setting up a grid titled `threadname`, reported with the lower
    /// case form of `shortname`.
    pub fn begin(&mut self, threadname: String, shortname: &str) -> (r: Result<(), SetupError>)
        requires
            old(self).wf(),
        ensures
            final(self).wf(),
            match r {
                Ok(()) => {
                    &&& old(self).setup is None
                    &&& valid_command_name(lower_of(shortname@))
                    &&& final(self).setup matches Some(s) && s.threadname@ == threadname@
                        && s.shortname@ == lower_of(shortname@) && s.users@.len() == 0
                    &&& final(self).tournaments == old(self).tournaments
                },
                Err(SetupError::SetupInProgress) => old(self).setup is Some && *final(self) == *old(self),
                Err(SetupError::InvalidName) => {
                    &&& old(self).setup is None
                    &&& !valid_command_name(lower_of(shortname@))
                    &&& *final(self) == *old(self)
                },
                Err(_) => false,
            },
    {
        if self.setup.is_some() {
            return Err(SetupError::SetupInProgress);
        }
        let lower = lowercase(shortname);
        if !is_valid_command_name(lower.as_str()) {
            return Err(SetupError::InvalidName);
        }
        self.setup = Some(MatchMatrixSetup { threadname, shortname: lower, users: Vec::new() });
        Ok(())
    }

    /// Adds a player to the setup; says whether they were new to it.
    pub fn add_participant(&mut self, p: Participant) -> (r: Result<bool, SetupError>)
        requires
            old(self).wf(),
        ensures
            final(self).wf(),
            final(self).tournaments == old(self).tournaments,
            match r {
                Ok(added) => old(self).setup matches Some(s) && final(self).setup matches Some(f) && {
                    &&& added == !has_id(s.users@, p.id)
                    &&& f.users@ == if added {
                        s.users@.push(p)
                    } else {
                        s.users@
                    }
                    &&& f.threadname == s.threadname
                    &&& f.shortname == s.shortname
                },
                Err(SetupError::NoSetup) => old(self).setup is None && *final(self) == *old(self),
                Err(_) => false,
            },
    {
        match self.setup.take() {
            None => Err(SetupError::NoSetup),
            Some(mut s) => {
                let ghost before = s.users@;
                let added = match lookup_userid(p.id, &s.users) {
                    Some(_) => false,
                    None => {
                        s.users.push(p);
                        true
                    },
                };
                proof {
                    if added {
                        assert forall|i: int, j: int|
                            0 <= i < s.users@.len() && 0 <= j < s.users@.len() && i != j implies s.users@[i].id != s.users@[j].id by {
                            if i == before.len() {
                                assert(!(0 <= j < before.len() && before[j].id == p.id));
                            }
                            if j == before.len() {
                                assert(!(0 <= i < before.len() && before[i].id == p.id));
                            }
                        }
                    }
                }
                self.setup = Some(s);
                Ok(added)
            },
        }
    }

    /// Drops the grid being set up.
    pub fn cancel(&mut self) -> (r: Result<(), SetupError>)
        requires
            old(self).wf(),
        ensures
            final(self).wf(),
            final(self).setup is None,
            final(self).tournaments == old(self).tournaments,
            r is Ok <==> old(self).setup is Some,
            r is Err ==> r == Err::<(), SetupError>(SetupError::NoSetup),
    {
        match self.setup.take() {
            None => Err(SetupError::NoSetup),
            Some(_) => Ok(()),
        }
    }

    /// The posts that creating the grid being set up makes: the intro, the
    /// blocks of a grid where nothing is played yet, and the legend.
    pub fn plan_create(&self) -> (r: Result<CreatePlan, SetupError>)
        requires
            self.wf(),
        ensures
            match r {
                Ok(plan) => self.setup matches Some(s) && {
                    let n = s.users@.len();
                    &&& splits_into(n, block_budget(n))
                    &&& plan.intro@ == intro_spec(ids_of(s.users@), s.shortname@)
                    &&& reads_intro(plan.intro@, ids_of(s.users@), s.shortname@)
                    &&& plan.legend@ == crate::grid::legend()
                    &&& plan.blocks@.len() == block_budget(n)
                    &&& forall|j: int|
                        0 <= j < plan.blocks@.len() ==> (#[trigger] plan.blocks@[j])@ == grid_blocks(
                            s.users@,
                            initial_table(n),
                            Set::empty(),
                            s.threadname@,
                            block_budget(n),
                        )[j]
                },
                Err(SetupError::NoSetup) => self.setup is None,
                Err(SetupError::TooManyPlayers) => self.setup matches Some(s) && (s.users@.len() + 1)
                    * (s.users@.len() + 1) * 25 > usize::MAX,
                Err(SetupError::Render(_)) => self.setup matches Some(s) && !splits_into(
                    s.users@.len(),
                    block_budget(s.users@.len()),
                ),
                Err(_) => false,
            },
    {
        let s = match &self.setup {
            None => {
                return Err(SetupError::NoSetup);
            },
            Some(s) => s,
        };
        let n = s.users.len();
        let count = match block_count(n) {
            Some(c) => c,
            None => {
                return Err(SetupError::TooManyPlayers);
            },
        };
        let results = MatchMatrix::initial_results(n);
        let none: HashSet<u64> = HashSet::new();
        let blocks = match render_grid(&s.users, &results, &none, s.threadname.as_str(), count) {
            Ok(b) => b,
            Err(e) => {
                return Err(SetupError::Render(e));
            },
        };
        let intro = intro_text(&s.users, s.shortname.as_str());
        proof {
            crate::intro::lemma_intro_round_trip(ids_of(s.users@), s.shortname@);
        }
        let legend = crate::grid::legend_text();
        Ok(CreatePlan { intro, blocks, legend })
    }

    /// Turns the grid being set up into a running grid shown by `mainposts`
    /// in `thread`. The setup stays if this fails.
    pub fn create(&mut self, thread: u64, mainposts: Vec<u64>) -> (r: Result<(), SetupError>)
        requires
            old(self).wf(),
        ensures
            final(self).wf(),
            match r {
                Ok(()) => old(self).setup matches Some(s) && {
                    &&& final(self).setup is None
                    &&& exists|t: Tournament|
                        {
                            &&& final(self).tournaments@ == with_tournament(old(self).tournaments@, t)
                            &&& t.shortname@ == s.shortname@
                            &&& t.matrix.users@ == s.users@
                            &&& t.matrix.threadname@ == s.threadname@
                            &&& t.matrix.results@ == initial_table(s.users@.len())
                            &&& table_consistent(t.matrix.results@, s.users@.len())
                            &&& t.matrix.disabled_fam@.is_empty()
                            &&& t.matrix.thread == thread
                            &&& t.matrix.mainposts@ == mainposts@
                        }
                },
                Err(SetupError::NoSetup) => old(self).setup is None && *final(self) == *old(self),
                Err(SetupError::Matrix(MatrixError::NoPosts)) => old(self).setup is Some
                    && mainposts@.len() == 0 && *final(self) == *old(self),
                Err(_) => false,
            },
    {
        if self.setup.is_none() {
            return Err(SetupError::NoSetup);
        }
        if mainposts.len() == 0 {
            return Err(SetupError::Matrix(MatrixError::NoPosts));
        }
        let s = match self.setup.take() {
            Some(s) => s,
            None => {
                return Err(SetupError::NoSetup);
            },
        };
        let ghost users = s.users;
        let matrix = match MatchMatrix::initialize(thread, s.threadname, s.users, mainposts) {
            Ok(m) => m,
            Err(e) => {
                return Err(SetupError::Matrix(e));
            },
        };
        proof {
            crate::matrix::lemma_initial_table_consistent(users@.len());
        }
        let t = Tournament { shortname: s.shortname, matrix };
        let ghost tg = t;
        self.register(t);
        assert(self.tournaments@ == with_tournament(old(self).tournaments@, tg));
        Ok(())
    }

    /// Adds a running grid, in place of any grid of the same command name.
    pub fn register(&mut self, t: Tournament)
        requires
            old(self).wf(),
            t.matrix.wf(),
        ensures
            final(self).wf(),
            final(self).setup == old(self).setup,
            final(self).tournaments@ == with_tournament(old(self).tournaments@, t),
    {
        let name = chars_of(t.shortname.as_str());
        match self.find_by_name_chars(&name) {
            Some(i) => {
                proof {
                    let ts = self.tournaments@;
                    let c = choose|j: int| 0 <= j < ts.len() && ts[j].shortname@ == t.shortname@;
                    assert(0 <= c < ts.len() && ts[c].shortname@ == t.shortname@);
                    assert(c == i);
                }
                self.tournaments.set(i, t);
            },
            None => {
                self.tournaments.push(t);
            },
        }
    }

    /// Where the grid reported with command `name` stands.
    pub fn find_by_name_chars(&self, name: &Vec<char>) -> (r: Option<usize>)
        ensures
            match r {
                Some(i) => i < self.tournaments@.len() && self.tournaments@[i as int].shortname@
                    == name@,
                None => !has_name(self.tournaments@, name@),
            },
    {
        let mut i: usize = 0;
        while i < self.tournaments.len()
            invariant
                i <= self.tournaments@.len(),
                forall|j: int| 0 <= j < i ==> self.tournaments@[j].shortname@ != name@,
            decreases self.tournaments.len() - i,
        {
            if same_chars(&chars_of(self.tournaments[i].shortname.as_str()), name) {
                return Some(i);
            }
            i = i + 1;
        }
        None
    }

    /// Where the grid reported with command `name` stands.
    pub fn find_by_name(&self, name: &str) -> (r: Option<usize>)
        ensures
            match r {
                Some(i) => i < self.tournaments@.len() && self.tournaments@[i as int].shortname@
                    == name@,
                None => !has_name(self.tournaments@, name@),
            },
    {
        self.find_by_name_chars(&chars_of(name))
    }

    /// Where the grid shown in `thread` stands; the first one if several are.
    pub fn find_by_thread(&self, thread: u64) -> (r: Option<usize>)
        ensures
            match r {
                Some(i) => first_in_thread(self.tournaments@, thread, i as int),
                None => forall|j: int| 0 <= j < self.tournaments@.len() ==> self.tournaments@[j].matrix.thread != thread,
            },
    {
        let mut i: usize = 0;
        while i < self.tournaments.len()
            invariant
                i <= self.tournaments@.len(),
                forall|j: int| 0 <= j < i ==> self.tournaments@[j].matrix.thread != thread,
            decreases self.tournaments.len() - i,
        {
            if self.tournaments[i].matrix.thread == thread {
                return Some(i);
            }
            i = i + 1;
        }
        None
    }
}

/// The number of posts for a grid of `n` players, if it fits in a `usize`.
pub fn block_count(n: usize) -> (r: Option<usize>)
    ensures
        match r {
            Some(c) => c == block_budget(n as nat),
            None => (n + 1) * (n + 1) * 25 > usize::MAX,
        },
{
    let side = match n.checked_add(1) {
        Some(v) => v,
        None => {
            proof {
                assert((n + 1) * (n + 1) * 25 > usize::MAX) by (nonlinear_arith)
                    requires
                        n + 1 > usize::MAX,
                ;
            }
            return None;
        },
    };
    let square = match side.checked_mul(side) {
        Some(v) => v,
        None => {
            proof {
                assert((n + 1) * (n + 1) * 25 > usize::MAX) by (nonlinear_arith)
                    requires
                        (n + 1) * (n + 1) > usize::MAX,
                ;
            }
            return None;
        },
    };
    let chars = match square.checked_mul(25) {
        Some(v) => v,
        None => {
            proof {
                assert((n + 1) * (n + 1) * 25 > usize::MAX) by (nonlinear_arith)
                    requires
                        square == (n + 1) * (n + 1),
                        square * 25 > usize::MAX,
                ;
            }
            return None;
        },
    };
    Some(chars / 1800 + 1)
}

/// What a report changed: the grid at `index`, and the blocks its posts must show.
#[derive(Debug)]
pub struct Reported {
    pub index: usize,
    pub blocks: Vec<String>,
}

/// `f` is `o` after `player` reported `result` against `opponent` into the
/// grid at `i`: that grid's table changed as the report says, nothing else did.
pub open spec fn reported_into(
    o: Seq<Tournament>,
    f: Seq<Tournament>,
    i: int,
    player: u64,
    opponent: u64,
    result: MatchResult,
) -> bool {
    let m = o[i].matrix;
    let g = f[i].matrix;
    &&& 0 <= i < o.len()
    &&& f.len() == o.len()
    &&& forall|j: int| 0 <= j < o.len() && j != i ==> #[trigger] f[j] == o[j]
    &&& f[i].shortname == o[i].shortname
    &&& can_report(m.users@, player, opponent)
    &&& g.results@ == table_after_report(m.users@, m.results@, player, opponent, result)
    &&& g.users == m.users
    &&& g.mainposts == m.mainposts
    &&& g.threadname == m.threadname
    &&& g.thread == m.thread
    &&& g.disabled_fam == m.disabled_fam
}

/// `blocks` are exactly what the posts of grid `m` must show.
pub open spec fn shows_grid(blocks: Seq<String>, m: MatchMatrix, muted: Set<u64>) -> bool {
    &&& splits_into(m.users@.len(), m.mainposts@.len())
    &&& blocks.len() == m.mainposts@.len()
    &&& forall|j: int|
        0 <= j < blocks.len() ==> (#[trigger] blocks[j])@ == grid_blocks(
            m.users@,
            m.results@,
            muted,
            m.threadname@,
            m.mainposts@.len(),
        )[j]
}

/// The grid at `i` is the first one shown in `thread`.
pub open spec fn first_in_thread(ts: Seq<Tournament>, thread: u64, i: int) -> bool {
    &&& 0 <= i < ts.len()
    &&& ts[i].matrix.thread == thread
    &&& forall|j: int| 0 <= j < i ==> (#[trigger] ts[j]).matrix.thread != thread
}

/// The grid at `i` has command name `name`.
pub open spec fn named(ts: Seq<Tournament>, name: Seq<char>, i: int) -> bool {
    0 <= i < ts.len() && ts[i].shortname@ == name
}

/// The grid at `i` refuses a report of `player` against `opponent`.
pub open spec fn refuses(ts: Seq<Tournament>, i: int, player: u64, opponent: u64) -> bool {
    0 <= i < ts.len() && !can_report(ts[i].matrix.users@, player, opponent)
}

/// The grid at `i` does not split into its posts.
pub open spec fn unsplittable(ts: Seq<Tournament>, i: int) -> bool {
    0 <= i < ts.len() && !splits_into(ts[i].matrix.users@.len(), ts[i].matrix.mainposts@.len())
}

impl GuildState {
    /// Reports into the grid at `i`: `player` scored `result_str` against
    /// `opponent`. The report stays even if the grid then cannot be written.
    pub fn report_at(&mut self, i: usize, player: u64, opponent: u64, result_str: &str) -> (r: Result<Vec<String>, CommandError>)
        requires
            old(self).wf(),
            i < old(self).tournaments@.len(),
        ensures
            final(self).wf(),
            match r {
                Ok(blocks) => {
                    &&& final(self).setup == old(self).setup
                    &&& reported_into(old(self).tournaments@, final(self).tournaments@, i as int, player, opponent, from_text(result_str@))
                    &&& shows_grid(blocks@, final(self).tournaments@[i as int].matrix, final(self).tournaments@[i as int].matrix.disabled_fam@)
                },
                Err(CommandError::Render(_)) => {
                    &&& final(self).setup == old(self).setup
                    &&& reported_into(old(self).tournaments@, final(self).tournaments@, i as int, player, opponent, from_text(result_str@))
                    &&& unsplittable(final(self).tournaments@, i as int)
                },
                Err(CommandError::Matrix(_)) => refuses(old(self).tournaments@, i as int, player, opponent) && *final(self) == *old(self),
                Err(_) => false,
            },
    {
        let result = MatchResult::get(result_str);
        let known_opponent = lookup_userid(opponent, &self.tournaments[i].matrix.users);
        if known_opponent.is_none() {
            return Err(CommandError::Matrix(MatrixError::UnknownParticipant { id: opponent }));
        }
        let known_player = lookup_userid(player, &self.tournaments[i].matrix.users);
        if known_player.is_none() {
            return Err(CommandError::Matrix(MatrixError::UnknownParticipant { id: player }));
        }
        if player == opponent {
            return Err(CommandError::Matrix(MatrixError::SelfMatch));
        }
        let mut t = self.tournaments.remove(i);
        let outcome = t.matrix.report(player, opponent, result);
        let rendered = match outcome {
            Ok(()) => match t.matrix.render() {
                Ok(blocks) => Ok(blocks),
                Err(e) => Err(CommandError::Render(e)),
            },
            Err(e) => Err(CommandError::Matrix(e)),
        };
        self.tournaments.insert(i, t);
        proof {
            assert forall|a: int, b: int|
                0 <= a < self.tournaments@.len() && 0 <= b < self.tournaments@.len() && a != b implies self.tournaments@[a].shortname@ != self.tournaments@[b].shortname@ by {
                let o = old(self).tournaments@;
                assert(self.tournaments@[a].shortname == o[a].shortname);
                assert(self.tournaments@[b].shortname == o[b].shortname);
            }
        }
        rendered
    }

    /// Reports with the command of a grid: `player` scored `result_str`
    /// against the player whose id `opponent` spells.
    pub fn report_result_command(&mut self, shortname: &str, player: u64, opponent: &str, result_str: &str) -> (r: Result<Reported, CommandError>)
        requires
            old(self).wf(),
        ensures
            final(self).wf(),
            match r {
                Ok(rep) => {
                    &&& final(self).setup == old(self).setup
                    &&& named(old(self).tournaments@, shortname@, rep.index as int)
                    &&& exists|v: u64|
                        #[trigger] parses_as(opponent@, v) && reported_into(
                            old(self).tournaments@,
                            final(self).tournaments@,
                            rep.index as int,
                            player,
                            v,
                            from_text(result_str@),
                        )
                    &&& shows_grid(
                        rep.blocks@,
                        final(self).tournaments@[rep.index as int].matrix,
                        final(self).tournaments@[rep.index as int].matrix.disabled_fam@,
                    )
                },
                Err(CommandError::NotFound) => !has_name(old(self).tournaments@, shortname@) && *final(self) == *old(self),
                Err(CommandError::BadOpponent) => {
                    &&& has_name(old(self).tournaments@, shortname@)
                    &&& forall|v: u64| !parses_as(opponent@, v)
                    &&& *final(self) == *old(self)
                },
                Err(CommandError::Matrix(_)) => {
                    &&& exists|i: int, v: u64|
                        named(old(self).tournaments@, shortname@, i) && parses_as(opponent@, v)
                            && #[trigger] refuses(old(self).tournaments@, i, player, v)
                    &&& *final(self) == *old(self)
                },
                Err(CommandError::Render(_)) => {
                    &&& final(self).setup == old(self).setup
                    &&& exists|i: int, v: u64|
                        named(old(self).tournaments@, shortname@, i) && parses_as(opponent@, v)
                            && #[trigger] reported_into(
                            old(self).tournaments@,
                            final(self).tournaments@,
                            i,
                            player,
                            v,
                            from_text(result_str@),
                        ) && unsplittable(final(self).tournaments@, i)
                },
            },
    {
        let i = match self.find_by_name(shortname) {
            Some(i) => i,
            None => {
                return Err(CommandError::NotFound);
            },
        };
        let opp = match parse_u64(opponent) {
            Some(v) => v,
            None => {
                return Err(CommandError::BadOpponent);
            },
        };
        let ghost before = self.tournaments@;
        let out = self.report_at(i, player, opp, result_str);
        proof {
            match out {
                Ok(_) => {
                    assert(named(before, shortname@, i as int));
                    assert(parses_as(opponent@, opp));
                    assert(reported_into(before, self.tournaments@, i as int, player, opp, from_text(result_str@)));
                },
                Err(CommandError::Matrix(_)) => {
                    assert(refuses(before, i as int, player, opp));
                },
                Err(_) => {
                    assert(reported_into(before, self.tournaments@, i as int, player, opp, from_text(result_str@)));
                },
            }
        }
        match out {
            Ok(blocks) => Ok(Reported { index: i, blocks }),
            Err(e) => Err(e),
        }
    }

    /// Reports into the first grid shown in `thread`: `player` scored
    /// `result_str` against `opponent`.
    pub fn report_result_any(&mut self, thread: u64, player: u64, opponent: u64, result_str: &str) -> (r: Result<Reported, CommandError>)
        requires
            old(self).wf(),
        ensures
            final(self).wf(),
            match r {
                Ok(rep) => {
                    &&& final(self).setup == old(self).setup
                    &&& first_in_thread(old(self).tournaments@, thread, rep.index as int)
                    &&& reported_into(
                        old(self).tournaments@,
                        final(self).tournaments@,
                        rep.index as int,
                        player,
                        opponent,
                        from_text(result_str@),
                    )
                    &&& shows_grid(
                        rep.blocks@,
                        final(self).tournaments@[rep.index as int].matrix,
                        final(self).tournaments@[rep.index as int].matrix.disabled_fam@,
                    )
                },
                Err(CommandError::NotFound) => (forall|j: int| 0 <= j < old(self).tournaments@.len() ==> old(self).tournaments@[j].matrix.thread != thread) && *final(self) == *old(self),
                Err(CommandError::Matrix(_)) => {
                    &&& exists|i: int| first_in_thread(old(self).tournaments@, thread, i) && #[trigger] refuses(old(self).tournaments@, i, player, opponent)
                    &&& *final(self) == *old(self)
                },
                Err(CommandError::Render(_)) => {
                    &&& final(self).setup == old(self).setup
                    &&& exists|i: int|
                        first_in_thread(old(self).tournaments@, thread, i) && #[trigger] reported_into(
                            old(self).tournaments@,
                            final(self).tournaments@,
                            i,
                            player,
                            opponent,
                            from_text(result_str@),
                        ) && unsplittable(final(self).tournaments@, i)
                },
                Err(CommandError::BadOpponent) => false,
            },
    {
        let i = match self.find_by_thread(thread) {
            Some(i) => i,
            None => {
                return Err(CommandError::NotFound);
            },
        };
        let ghost before = self.tournaments@;
        let out = self.report_at(i, player, opponent, result_str);
        proof {
            match out {
                Err(CommandError::Matrix(_)) => {
                    assert(refuses(before, i as int, player, opponent));
                },
                Err(CommandError::Render(_)) => {
                    assert(reported_into(before, self.tournaments@, i as int, player, opponent, from_text(result_str@)));
                },
                _ => {},
            }
        }
        match out {
            Ok(blocks) => Ok(Reported { index: i, blocks }),
            Err(e) => Err(e),
        }
    }

    /// Ends the grid of command `shortname`: returns a final snapshot of it,
    /// without mute marks, and drops it. Nothing changes if the snapshot
    /// cannot be written.
    pub fn end(&mut self, shortname: &str) -> (r: Result<Vec<String>, CommandError>)
        requires
            old(self).wf(),
        ensures
            final(self).wf(),
            match r {
                Ok(blocks) => exists|i: int|
                    {
                        &&& #[trigger] named(old(self).tournaments@, shortname@, i)
                        &&& final(self).setup == old(self).setup
                        &&& final(self).tournaments@ == old(self).tournaments@.remove(i)
                        &&& shows_grid(blocks@, old(self).tournaments@[i].matrix, Set::empty())
                    },
                Err(CommandError::NotFound) => !has_name(old(self).tournaments@, shortname@) && *final(self) == *old(self),
                Err(CommandError::Render(_)) => {
                    &&& exists|i: int| #[trigger] named(old(self).tournaments@, shortname@, i) && unsplittable(old(self).tournaments@, i)
                    &&& *final(self) == *old(self)
                },
                Err(_) => false,
            },
    {
        let i = match self.find_by_name(shortname) {
            Some(i) => i,
            None => {
                return Err(CommandError::NotFound);
            },
        };
        let blocks = match self.tournaments[i].matrix.render_final() {
            Ok(b) => b,
            Err(e) => {
                assert(named(self.tournaments@, shortname@, i as int));
                return Err(CommandError::Render(e));
            },
        };
        let ghost before = self.tournaments@;
        let _ = self.tournaments.remove(i);
        proof {
            assert(named(before, shortname@, i as int));
            assert forall|a: int, b: int|
                0 <= a < self.tournaments@.len() && 0 <= b < self.tournaments@.len() && a != b implies self.tournaments@[a].shortname@ != self.tournaments@[b].shortname@ by {
                let a0 = if a < i { a } else { a + 1 };
                let b0 = if b < i { b } else { b + 1 };
                assert(self.tournaments@[a] == before[a0]);
                assert(self.tournaments@[b] == before[b0]);
            }
            assert forall|a: int| 0 <= a < self.tournaments@.len() implies (#[trigger] self.tournaments@[a]).matrix.wf() by {
                let a0 = if a < i { a } else { a + 1 };
                assert(self.tournaments@[a] == before[a0]);
            }
        }
        Ok(blocks)
    }

    /// The mentions of every player of the grid of command `shortname`.
    pub fn ping(&self, shortname: &str) -> (r: Result<String, CommandError>)
        ensures
            match r {
                Ok(text) => exists|i: int|
                    0 <= i < self.tournaments@.len() && self.tournaments@[i].shortname@ == shortname@
                        && text@ == crate::intro::mention_list(ids_of(self.tournaments@[i].matrix.users@)),
                Err(e) => e == CommandError::NotFound && !has_name(self.tournaments@, shortname@),
            },
    {
        match self.find_by_name(shortname) {
            Some(i) => Ok(crate::intro::mention_text(&self.tournaments[i].matrix.users)),
            None => Err(CommandError::NotFound),
        }
    }
}

/// Whether some entry of `list` names the grid at `i`.
pub open spec fn lists_index(list: Seq<Rerender>, i: int) -> bool {
    exists|k: int| 0 <= k < list.len() && (#[trigger] list[k]).index == i
}

/// Whether a command that names `filter` applies to the grid of command
/// `name`: an empty filter applies to all.
pub open spec fn selected(filter: Seq<char>, name: Seq<char>) -> bool {
    filter.len() == 0 || name == filter
}

impl GuildState {
    /// Turns pings on (`enable`) or off for `player` in every grid that
    /// `filter` selects; returns the grids that changed, with their new blocks.
    pub fn findable(&mut self, filter: &str, player: u64, enable: bool) -> (r: Result<Vec<Rerender>, RenderError>)
        requires
            old(self).wf(),
        ensures
            final(self).wf(),
            final(self).setup == old(self).setup,
            final(self).tournaments@.len() == old(self).tournaments@.len(),
            r is Ok ==> forall|i: int|
                0 <= i < old(self).tournaments@.len() ==> {
                    let o = #[trigger] old(self).tournaments@[i];
                    let f = final(self).tournaments@[i];
                    &&& f.shortname == o.shortname
                    &&& f.matrix.users == o.matrix.users
                    &&& f.matrix.results == o.matrix.results
                    &&& f.matrix.mainposts == o.matrix.mainposts
                    &&& f.matrix.threadname == o.matrix.threadname
                    &&& f.matrix.disabled_fam@ == if selected(filter@, o.shortname@) {
                        muted_after(o.matrix.users@, o.matrix.disabled_fam@, player, enable)
                    } else {
                        o.matrix.disabled_fam@
                    }
                },
            r matches Ok(list) ==> forall|i: int|
                0 <= i < old(self).tournaments@.len() ==> (#[trigger] lists_index(list@, i) <==> (selected(
                    filter@,
                    old(self).tournaments@[i].shortname@,
                ) && findable_changes(
                    old(self).tournaments@[i].matrix.users@,
                    old(self).tournaments@[i].matrix.disabled_fam@,
                    player,
                    enable,
                ))),
            r matches Ok(list) ==> forall|k: int|
                0 <= k < list@.len() ==> {
                    let i = (#[trigger] list@[k]).index as int;
                    let f = final(self).tournaments@[i].matrix;
                    &&& 0 <= i < final(self).tournaments@.len()
                    &&& list@[k].blocks@.len() == f.mainposts@.len()
                    &&& forall|j: int|
                        0 <= j < list@[k].blocks@.len() ==> (#[trigger] list@[k].blocks@[j])@
                            == grid_blocks(
                            f.users@,
                            f.results@,
                            f.disabled_fam@,
                            f.threadname@,
                            f.mainposts@.len(),
                        )[j]
                },
            r is Err ==> exists|i: int|
                #[trigger] unsplittable(old(self).tournaments@, i) && selected(filter@, old(self).tournaments@[i].shortname@)
                    && findable_changes(
                    old(self).tournaments@[i].matrix.users@,
                    old(self).tournaments@[i].matrix.disabled_fam@,
                    player,
                    enable,
                ),
    {
        let filter_v = chars_of(filter);
        let mut out: Vec<Rerender> = Vec::new();
        let ghost start = self.tournaments@;
        let mut i: usize = 0;
        while i < self.tournaments.len()
            invariant
                self.wf(),
                self.setup == old(self).setup,
                start == old(self).tournaments@,
                filter_v@ == filter@,
                self.tournaments@.len() == start.len(),
                i <= start.len(),
                forall|j: int| i <= j < start.len() ==> self.tournaments@[j] == start[j],
                forall|j: int|
                    0 <= j < i ==> {
                        let o = #[trigger] start[j];
                        let f = self.tournaments@[j];
                        &&& f.shortname == o.shortname
                        &&& f.matrix.users == o.matrix.users
                        &&& f.matrix.results == o.matrix.results
                        &&& f.matrix.mainposts == o.matrix.mainposts
                        &&& f.matrix.threadname == o.matrix.threadname
                        &&& f.matrix.disabled_fam@ == if selected(filter@, o.shortname@) {
                            muted_after(o.matrix.users@, o.matrix.disabled_fam@, player, enable)
                        } else {
                            o.matrix.disabled_fam@
                        }
                    },
                forall|j: int|
                    0 <= j < start.len() ==> (#[trigger] lists_index(out@, j) <==> (j < i
                        && selected(filter@, start[j].shortname@) && findable_changes(
                        start[j].matrix.users@,
                        start[j].matrix.disabled_fam@,
                        player,
                        enable,
                    ))),
                forall|k: int|
                    0 <= k < out@.len() ==> {
                        let j = (#[trigger] out@[k]).index as int;
                        let f = self.tournaments@[j].matrix;
                        &&& 0 <= j < i
                        &&& out@[k].blocks@.len() == f.mainposts@.len()
                        &&& forall|b: int|
                            0 <= b < out@[k].blocks@.len() ==> (#[trigger] out@[k].blocks@[b])@
                                == grid_blocks(
                                f.users@,
                                f.results@,
                                f.disabled_fam@,
                                f.threadname@,
                                f.mainposts@.len(),
                            )[b]
                    },
            decreases start.len() - i,
        {
            let applies = filter_v.len() == 0 || same_chars(
                &chars_of(self.tournaments[i].shortname.as_str()),
                &filter_v,
            );
            assert(applies == selected(filter@, start[i as int].shortname@));
            let ghost out_before = out@;
            let ghost ts_before = self.tournaments@;
            let mut pushed = false;
            if applies {
                let mut t = self.tournaments.remove(i);
                let changed = t.matrix.set_findable(player, enable);
                let rendered = if changed {
                    Some(t.matrix.render())
                } else {
                    None
                };
                self.tournaments.insert(i, t);
                proof {
                    let ts = self.tournaments@;
                    assert forall|a: int, b: int|
                        0 <= a < ts.len() && 0 <= b < ts.len() && a != b implies ts[a].shortname@ != ts[b].shortname@ by {
                        assert(ts[a].shortname@ == start[a].shortname@);
                        assert(ts[b].shortname@ == start[b].shortname@);
                    }
                }
                match rendered {
                    Some(Ok(blocks)) => {
                        out.push(Rerender { index: i, blocks });
                        pushed = true;
                    },
                    Some(Err(e)) => {
                        assert(unsplittable(start, i as int));
                        return Err(e);
                    },
                    None => {},
                }
            }
            proof {
                let changes = selected(filter@, start[i as int].shortname@) && findable_changes(
                    start[i as int].matrix.users@,
                    start[i as int].matrix.disabled_fam@,
                    player,
                    enable,
                );
                assert(pushed == changes);
                assert forall|k: int| 0 <= k < out_before.len() implies (#[trigger] out@[k]) == out_before[k] by {}
                assert forall|j: int|
                    0 <= j < start.len() implies (#[trigger] lists_index(out@, j) <==> (j < i + 1
                        && selected(filter@, start[j].shortname@) && findable_changes(
                        start[j].matrix.users@,
                        start[j].matrix.disabled_fam@,
                        player,
                        enable,
                    ))) by {
                    let sel = selected(filter@, start[j].shortname@) && findable_changes(
                        start[j].matrix.users@,
                        start[j].matrix.disabled_fam@,
                        player,
                        enable,
                    );
                    assert(lists_index(out_before, j) <==> (j < i && sel));
                    if lists_index(out_before, j) {
                        let k = choose|k: int| 0 <= k < out_before.len() && (#[trigger] out_before[k]).index == j;
                        assert(out@[k] == out_before[k]);
                        assert(lists_index(out@, j));
                    }
                    if lists_index(out@, j) {
                        let k = choose|k: int| 0 <= k < out@.len() && (#[trigger] out@[k]).index == j;
                        if k < out_before.len() {
                            assert(out_before[k].index == j);
                            assert(lists_index(out_before, j));
                        } else {
                            assert(pushed && j == i);
                        }
                    }
                    if j == i && pushed {
                        assert(out@[out@.len() - 1].index == j);
                        assert(lists_index(out@, j));
                    }
                }
            }
            i = i + 1;
        }
        assert forall|k: int| 0 <= k < out@.len() implies {
            let j = (#[trigger] out@[k]).index as int;
            let f = self.tournaments@[j].matrix;
            &&& 0 <= j < self.tournaments@.len()
            &&& out@[k].blocks@.len() == f.mainposts@.len()
            &&& forall|b: int|
                0 <= b < out@[k].blocks@.len() ==> (#[trigger] out@[k].blocks@[b])@ == grid_blocks(
                    f.users@,
                    f.results@,
                    f.disabled_fam@,
                    f.threadname@,
                    f.mainposts@.len(),
                )[b]
        } by {
            let j = out@[k].index as int;
            assert(0 <= j < i);
        }
        assert forall|j: int|
            0 <= j < start.len() implies (#[trigger] lists_index(out@, j) <==> (selected(
                filter@,
                start[j].shortname@,
            ) && findable_changes(start[j].matrix.users@, start[j].matrix.disabled_fam@, player, enable))) by {
            assert(j < i);
        }
        Ok(out)
    }
}

} // verus!
