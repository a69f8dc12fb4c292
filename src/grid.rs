use vstd::prelude::*;

use std::collections::HashSet;

use crate::outcome::{is_played, is_win, symbol, MatchResult};
use crate::scan::{find_symbols, symbols_in};
use crate::text::{chars_of, contains, find_in, string_of};

verus! {

broadcast use vstd::std_specs::hash::group_hash_axioms;

/// A player of a grid: a stable id and the display name taken when they joined.
#[derive(Debug, Clone)]
pub struct Participant {
    pub id: u64,
    pub name: String,
}

/// The result that the grid shows in column `x` of row `y`: how the match
/// between them went for player `y`. The table is stored row by row.
pub open spec fn cell(table: Seq<MatchResult>, n: nat, x: int, y: int) -> MatchResult {
    table[y * n + x]
}

/// The glyph tokens of the first `k` columns of row `y`, each followed by a space.
pub open spec fn cells_text(table: Seq<MatchResult>, n: nat, y: int, k: nat) -> Seq<char>
    decreases k,
{
    if k == 0 {
        Seq::empty()
    } else {
        cells_text(table, n, y, (k - 1) as nat) + symbol(cell(table, n, k - 1, y)) + seq![' ']
    }
}

/// Wins of player `y` among the first `k` columns.
pub open spec fn wins_in_row(table: Seq<MatchResult>, n: nat, y: int, k: nat) -> nat
    decreases k,
{
    if k == 0 {
        0
    } else {
        wins_in_row(table, n, y, (k - 1) as nat) + if is_win(cell(table, n, k - 1, y)) {
            1nat
        } else {
            0nat
        }
    }
}

/// Matches played by player `y` among the first `k` columns.
pub open spec fn played_in_row(table: Seq<MatchResult>, n: nat, y: int, k: nat) -> nat
    decreases k,
{
    if k == 0 {
        0
    } else {
        played_in_row(table, n, y, (k - 1) as nat) + if is_played(cell(table, n, k - 1, y)) {
            1nat
        } else {
            0nat
        }
    }
}

/// The character of a decimal digit.
pub open spec fn digit_char(d: nat) -> char {
    seq!['0', '1', '2', '3', '4', '5', '6', '7', '8', '9'][d as int]
}

/// A number written in decimal.
pub open spec fn decimal(v: nat) -> Seq<char>
    decreases v,
{
    if v < 10 {
        seq![digit_char(v)]
    } else {
        decimal(v / 10) + seq![digit_char(v % 10)]
    }
}

/// The mark after the name of a player who asked not to be pinged.
pub open spec fn muted_marker() -> Seq<char> {
    seq![':', 'n', 'o', '_', 'b', 'e', 'l', 'l', ':']
}

/// What follows the glyph tokens on row `y`: wins and matches played, the
/// name, and the mark if the player is muted.
pub open spec fn row_tail(
    users: Seq<Participant>,
    table: Seq<MatchResult>,
    muted: Set<u64>,
    y: int,
) -> Seq<char> {
    let n = users.len();
    decimal(wins_in_row(table, n, y, n)) + seq!['/'] + decimal(played_in_row(table, n, y, n))
        + seq![' '] + users[y].name@ + if muted.contains(users[y].id) {
        muted_marker()
    } else {
        Seq::empty()
    }
}

/// The line of player `y`.
pub open spec fn row_text(
    users: Seq<Participant>,
    table: Seq<MatchResult>,
    muted: Set<u64>,
    y: int,
) -> Seq<char> {
    cells_text(table, users.len(), y, users.len()) + row_tail(users, table, muted, y) + seq!['\n']
}

/// The lines of players `lo` up to `hi`, in order.
pub open spec fn rows_text(
    users: Seq<Participant>,
    table: Seq<MatchResult>,
    muted: Set<u64>,
    lo: int,
    hi: int,
) -> Seq<char>
    decreases hi - lo,
{
    if hi <= lo {
        Seq::empty()
    } else {
        rows_text(users, table, muted, lo, hi - 1) + row_text(users, table, muted, hi - 1)
    }
}

/// An ASCII letter, either case.
pub open spec fn is_ascii_letter(c: char) -> bool {
    ('a' <= c && c <= 'z') || ('A' <= c && c <= 'Z')
}

/// An ASCII decimal digit.
pub open spec fn is_ascii_digit(c: char) -> bool {
    '0' <= c && c <= '9'
}

/// The lower case of an ASCII capital; any other character as it is.
pub open spec fn ascii_lower(c: char) -> char {
    if 'A' <= c && c <= 'Z' {
        ((c as u8) + 32) as char
    } else {
        c
    }
}

/// The first ASCII letter or digit of a name, in lower case.
pub open spec fn first_alnum(s: Seq<char>) -> Option<char>
    decreases s.len(),
{
    if s.len() == 0 {
        None
    } else if is_ascii_letter(s[0]) || is_ascii_digit(s[0]) {
        Some(ascii_lower(s[0]))
    } else {
        first_alnum(s.skip(1))
    }
}

/// The glyph that helps a reader find a player's column.
pub open spec fn index_glyph(name: Seq<char>) -> Seq<char> {
    match first_alnum(name) {
        Some(c) => if is_ascii_digit(c) {
            seq![':', 'n', 'u', 'm', 'b', 'e', 'r', '_', c, ':']
        } else {
            seq![
                ':', 'r', 'e', 'g', 'i', 'o', 'n', 'a', 'l', '_', 'i', 'n', 'd', 'i', 'c', 'a',
                't', 'o', 'r', '_', c, ':',
            ]
        },
        None => seq![':', 'a', 's', 't', 'e', 'r', 'i', 's', 'k', ':'],
    }
}

/// The index glyphs of the first `k` players, each followed by a space.
pub open spec fn index_row(users: Seq<Participant>, k: nat) -> Seq<char>
    decreases k,
{
    if k == 0 {
        Seq::empty()
    } else {
        index_row(users, (k - 1) as nat) + index_glyph(users[k - 1].name@) + seq![' ']
    }
}

/// The end of the last block: the index row, then a line that shows the
/// block is complete.
pub open spec fn footer(users: Seq<Participant>) -> Seq<char> {
    index_row(users, users.len()) + seq!['\n', '_', ' ', '_']
}

/// How many player lines go in each block but the last: the player lines
/// and the index row, shared among `count` blocks, rounded up.
pub open spec fn lines_per_block(n: nat, count: nat) -> nat
    recommends
        count > 0,
{
    n / count + 1
}

/// How many blocks are closed by reaching `lines_per_block` lines.
pub open spec fn full_blocks(n: nat, count: nat) -> nat {
    n / lines_per_block(n, count)
}

/// Block `j` of a grid of `n` players split `count` ways.
pub open spec fn grid_block(
    users: Seq<Participant>,
    table: Seq<MatchResult>,
    muted: Set<u64>,
    header: Seq<char>,
    count: nat,
    j: int,
) -> Seq<char> {
    let n = users.len();
    let per = lines_per_block(n, count);
    let last = j == full_blocks(n, count);
    let hi = if last {
        n as int
    } else {
        (j + 1) * per
    };
    (if j == 0 {
        header + seq!['\n']
    } else {
        Seq::empty()
    }) + rows_text(users, table, muted, j * per, hi) + if last {
        footer(users)
    } else {
        Seq::empty()
    }
}

/// The blocks that a grid is written in: the header, the player lines in
/// order, `lines_per_block` to a block, and the footer at the end.
pub open spec fn grid_blocks(
    users: Seq<Participant>,
    table: Seq<MatchResult>,
    muted: Set<u64>,
    header: Seq<char>,
    count: nat,
) -> Seq<Seq<char>> {
    Seq::new(
        full_blocks(users.len(), count) + 1,
        |j: int| grid_block(users, table, muted, header, count, j),
    )
}

/// Whether the grid of `n` players splits into exactly `count` blocks.
pub open spec fn splits_into(n: nat, count: nat) -> bool {
    full_blocks(n, count) + 1 == count
}

/// Why a grid could not be written.
#[derive(Debug, Clone, Copy, PartialEq, Eq, Structural)]
pub enum RenderError {
    /// The lines did not split into the number of blocks asked for.
    BlockMismatch { made: usize, requested: usize },
}

/// The character of a decimal digit.
pub fn digit(d: usize) -> (c: char)
    requires
        d < 10,
    ensures
        c == digit_char(d as nat),
{
    match d {
        0 => '0',
        1 => '1',
        2 => '2',
        3 => '3',
        4 => '4',
        5 => '5',
        6 => '6',
        7 => '7',
        8 => '8',
        _ => '9',
    }
}

/// Appends a number in decimal.
pub fn push_decimal(out: &mut Vec<char>, v: usize)
    ensures
        final(out)@ == old(out)@ + decimal(v as nat),
    decreases v,
{
    if v >= 10 {
        push_decimal(out, v / 10);
    }
    out.push(digit(v % 10));
    proof {
        if v < 10 {
            assert(v % 10 == v);
        }
    }
}

/// Appends all of `s`.
pub fn push_all(out: &mut Vec<char>, s: &Vec<char>)
    ensures
        final(out)@ == old(out)@ + s@,
{
    let mut k: usize = 0;
    while k < s.len()
        invariant
            k <= s.len(),
            out@ == old(out)@ + s@.take(k as int),
        decreases s.len() - k,
    {
        out.push(s[k]);
        k = k + 1;
        assert(s@.take(k as int) =~= s@.take(k - 1) + seq![s@[k - 1]]);
    }
    assert(s@.take(k as int) =~= s@);
}

/// The mute mark, as characters.
pub fn muted_marker_chars() -> (r: Vec<char>)
    ensures
        r@ == muted_marker(),
{
    vec![':', 'n', 'o', '_', 'b', 'e', 'l', 'l', ':']
}

/// The lower case of an ASCII capital; any other character as it is.
pub fn lower_ascii(c: char) -> (r: char)
    ensures
        r == ascii_lower(c),
{
    if 'A' <= c && c <= 'Z' {
        ((c as u8) + 32) as char
    } else {
        c
    }
}

/// Appends the index glyph of a name.
pub fn push_index_glyph(out: &mut Vec<char>, name: &Vec<char>)
    ensures
        final(out)@ == old(out)@ + index_glyph(name@),
{
    let mut k: usize = 0;
    let mut found: Option<char> = None;
    assert(name@.skip(0) =~= name@);
    while k < name.len() && found.is_none()
        invariant
            k <= name.len(),
            found is None ==> first_alnum(name@) == first_alnum(name@.skip(k as int)),
            found is Some ==> first_alnum(name@) == found,
        decreases name.len() - k,
    {
        let c = name[k];
        assert(name@.skip(k as int)[0] == c);
        if ('a' <= c && c <= 'z') || ('A' <= c && c <= 'Z') || ('0' <= c && c <= '9') {
            found = Some(lower_ascii(c));
            k = k + 1;
        } else {
            proof {
                assert(name@.skip(k as int).skip(1) =~= name@.skip(k + 1));
            }
            k = k + 1;
        }
    }
    let ghost before = out@;
    match found {
        Some(c) => {
            if '0' <= c && c <= '9' {
                push_all(out, &vec![':', 'n', 'u', 'm', 'b', 'e', 'r', '_', c, ':']);
            } else {
                push_all(
                    out,
                    &vec![
                        ':', 'r', 'e', 'g', 'i', 'o', 'n', 'a', 'l', '_', 'i', 'n', 'd', 'i', 'c',
                        'a', 't', 'o', 'r', '_', c, ':',
                    ],
                );
            }
        },
        None => {
            proof {
                assert(name@.skip(k as int).len() == 0);
            }
            push_all(out, &vec![':', 'a', 's', 't', 'e', 'r', 'i', 's', 'k', ':']);
        },
    }
}

/// The cell of column `x` in row `y` lies inside the table.
pub proof fn lemma_cell_index(n: nat, x: int, y: int)
    requires
        0 <= x < n,
        0 <= y < n,
    ensures
        0 <= y * n + x < n * n,
{
    assert(0 <= y * n + x < n * n) by (nonlinear_arith)
        requires
            0 <= x < n,
            0 <= y < n,
    ;
}

/// A row counts no more wins than matches played, and no more of those than cells.
pub proof fn lemma_row_counts_bounded(table: Seq<MatchResult>, n: nat, y: int, k: nat)
    ensures
        wins_in_row(table, n, y, k) <= played_in_row(table, n, y, k) <= k,
    decreases k,
{
    if k > 0 {
        lemma_row_counts_bounded(table, n, y, (k - 1) as nat);
    }
}

/// Appends the line of player `y`.
pub fn push_row(
    out: &mut Vec<char>,
    users: &Vec<Participant>,
    results: &Vec<MatchResult>,
    muted: &HashSet<u64>,
    y: usize,
)
    requires
        results@.len() == users@.len() * users@.len(),
        y < users@.len(),
    ensures
        final(out)@ == old(out)@ + row_text(users@, results@, muted@, y as int),
{
    let n = users.len();
    let ghost start = out@;
    let mut wins: usize = 0;
    let mut played: usize = 0;
    let total = results.len();
    proof {
        lemma_cell_index(n as nat, 0, y as int);
        lemma_cell_index(n as nat, (n - 1) as int, y as int);
    }
    let row_start = y * n;
    let mut x: usize = 0;
    while x < n
        invariant
            row_start == y * n,
            total == results@.len(),
            n == users@.len(),
            results@.len() == n * n,
            y < n,
            x <= n,
            out@ == start + cells_text(results@, n as nat, y as int, x as nat),
            wins == wins_in_row(results@, n as nat, y as int, x as nat),
            played == played_in_row(results@, n as nat, y as int, x as nat),
        decreases n - x,
    {
        proof {
            lemma_cell_index(n as nat, x as int, y as int);
            lemma_row_counts_bounded(results@, n as nat, y as int, x as nat);
        }
        let r = results[row_start + x];
        push_all(out, &r.symbol_chars());
        out.push(' ');
        if r == MatchResult::TwoZero || r == MatchResult::TwoOne {
            wins = wins + 1;
        }
        if r == MatchResult::TwoZero || r == MatchResult::TwoOne || r == MatchResult::OneTwo
            || r == MatchResult::ZeroTwo {
            played = played + 1;
        }
        x = x + 1;
    }
    push_decimal(out, wins);
    out.push('/');
    push_decimal(out, played);
    out.push(' ');
    push_all(out, &chars_of(users[y].name.as_str()));
    if muted.contains(&users[y].id) {
        push_all(out, &muted_marker_chars());
    }
    out.push('\n');
    proof {
        let tail = row_tail(users@, results@, muted@, y as int);
        assert(out@ =~= start + cells_text(results@, n as nat, y as int, n as nat) + tail
            + seq!['\n']);
    }
}

proof fn lemma_quotient_at_least(n: int, per: int, q: int)
    requires
        per > 0,
        q >= 0,
        q * per <= n,
    ensures
        q <= n / per,
{
    let d = n / per;
    let m = n % per;
    vstd::arithmetic::div_mod::lemma_fundamental_div_mod(n, per);
    assert(q <= d) by (nonlinear_arith)
        requires
            n == per * d + m,
            0 <= m < per,
            q * per <= n,
            per > 0,
    ;
}

proof fn lemma_quotient_exact(n: int, per: int, q: int, i: int)
    requires
        per > 0,
        0 <= i < per,
        n == q * per + i,
    ensures
        q == n / per,
{
    vstd::arithmetic::div_mod::lemma_fundamental_div_mod_converse(n, per, q, i);
}

proof fn lemma_rows_step(
    users: Seq<Participant>,
    table: Seq<MatchResult>,
    muted: Set<u64>,
    lo: int,
    hi: int,
)
    requires
        lo <= hi,
    ensures
        rows_text(users, table, muted, lo, hi + 1) == rows_text(users, table, muted, lo, hi)
            + row_text(users, table, muted, hi),
{
}

/// Writes a grid in `message_count` blocks: the header line, one line per
/// player with their results, wins and matches played, and the index row.
pub fn render_grid(
    users: &Vec<Participant>,
    results: &Vec<MatchResult>,
    muted: &HashSet<u64>,
    header: &str,
    message_count: usize,
) -> (r: Result<Vec<String>, RenderError>)
    requires
        results@.len() == users@.len() * users@.len(),
        message_count >= 1,
    ensures
        match r {
            Ok(blocks) => {
                &&& splits_into(users@.len(), message_count as nat)
                &&& blocks@.len() == message_count
                &&& forall|j: int|
                    0 <= j < blocks@.len() ==> (#[trigger] blocks@[j])@ == grid_blocks(
                        users@,
                        results@,
                        muted@,
                        header@,
                        message_count as nat,
                    )[j]
            },
            Err(RenderError::BlockMismatch { made, requested }) => {
                &&& !splits_into(users@.len(), message_count as nat)
                &&& made == full_blocks(users@.len(), message_count as nat) + 1
                &&& requested == message_count
            },
        },
{
    let n = users.len();
    let cells = results.len();
    proof {
        // The table's length, a usize, bounds n * n and so n + 1.
        assert(n * n == cells);
        if n >= 2 {
            assert(n * n >= 2 * n) by (nonlinear_arith)
                requires
                    n >= 2,
            ;
        }
    }
    let per = n / message_count + 1;
    let ghost count = message_count as nat;
    let ghost blocks = grid_blocks(users@, results@, muted@, header@, count);
    let mut messages: Vec<String> = Vec::new();
    let mut cur = chars_of(header);
    cur.push('\n');
    let mut done: usize = 0;
    let mut i: usize = 0;
    let mut y: usize = 0;
    while y < n
        invariant
            n == users@.len(),
            results@.len() == n * n,
            message_count >= 1,
            per == lines_per_block(n as nat, count),
            count == message_count,
            blocks == grid_blocks(users@, results@, muted@, header@, count),
            y <= n,
            i < per,
            y == done * per + i,
            messages@.len() == done,
            forall|j: int| 0 <= j < done ==> (#[trigger] messages@[j])@ == blocks[j],
            cur@ == (if done == 0 {
                header@ + seq!['\n']
            } else {
                Seq::empty()
            }) + rows_text(users@, results@, muted@, done * per, y as int),
        decreases n - y,
    {
        proof {
            lemma_rows_step(users@, results@, muted@, done * per, y as int);
        }
        push_row(&mut cur, users, results, muted, y);
        i = i + 1;
        y = y + 1;
        if i >= per {
            proof {
                assert(y == (done + 1) * per) by (nonlinear_arith)
                    requires
                        y == done * per + i,
                        i == per,
                ;
                lemma_quotient_at_least(n as int, per as int, (done + 1) as int);
                assert(done < full_blocks(n as nat, count));
                assert(cur@ == grid_block(users@, results@, muted@, header@, count, done as int));
            }
            messages.push(string_of(&cur));
            cur = Vec::new();
            i = 0;
            done = done + 1;
            proof {
                assert(y == done * per + i);
                assert(rows_text(users@, results@, muted@, done * per, y as int) =~= Seq::empty());
                assert(cur@ =~= Seq::<char>::empty() + Seq::<char>::empty());
            }
        }
    }
    proof {
        lemma_quotient_exact(n as int, per as int, done as int, i as int);
        assert(done == full_blocks(n as nat, count));
    }
    let mut k: usize = 0;
    while k < n
        invariant
            k <= n,
            n == users@.len(),
            cur@ == (if done == 0 {
                header@ + seq!['\n']
            } else {
                Seq::empty()
            }) + rows_text(users@, results@, muted@, done * per, n as int) + index_row(
                users@,
                k as nat,
            ),
        decreases n - k,
    {
        push_index_glyph(&mut cur, &chars_of(users[k].name.as_str()));
        cur.push(' ');
        k = k + 1;
        proof {
            assert(index_row(users@, k as nat) == index_row(users@, (k - 1) as nat)
                + index_glyph(users@[k - 1].name@) + seq![' ']);
        }
    }
    cur.push('\n');
    cur.push('_');
    cur.push(' ');
    cur.push('_');
    proof {
        assert(cur@ =~= grid_block(users@, results@, muted@, header@, count, done as int));
    }
    messages.push(string_of(&cur));
    if messages.len() != message_count {
        return Err(RenderError::BlockMismatch { made: messages.len(), requested: message_count });
    }
    proof {
        assert forall|j: int| 0 <= j < messages@.len() implies (#[trigger] messages@[j])@
            == blocks[j] by {}
    }
    Ok(messages)
}

/// The text up to the first line break.
pub open spec fn line_of(s: Seq<char>) -> Seq<char>
    decreases s.len(),
{
    if s.len() == 0 || s[0] == '\n' {
        Seq::empty()
    } else {
        seq![s[0]] + line_of(s.skip(1))
    }
}

/// Whether the line of player `y` in `text`, after its last glyph token, shows
/// the player's name with the mute mark right after it.
pub open spec fn row_muted(text: Seq<char>, users: Seq<Participant>, y: int) -> bool {
    let n = users.len();
    contains(
        line_of(symbols_in(text)[y * n + n - 1].1),
        users[y].name@ + muted_marker(),
    )
}

/// The ids of the players whose lines in `text` carry the mute mark.
pub open spec fn decoded_muted(text: Seq<char>, users: Seq<Participant>) -> Set<u64> {
    Set::new(
        |id: u64|
            exists|y: int| 0 <= y < users.len() && users[y].id == id && row_muted(text, users, y),
    )
}

/// How many glyph tokens the legend message holds: one of each.
pub open spec fn legend_symbol_count() -> nat {
    6
}

/// What a grid's text reads back as.
#[derive(Debug)]
pub struct DecodedGrid {
    pub results: Vec<MatchResult>,
    pub muted: HashSet<u64>,
    /// Whether the glyph tokens of the legend message followed the grid.
    pub legend_found: bool,
}

/// Why a grid's text could not be read back.
#[derive(Debug, Clone, Copy, PartialEq, Eq, Structural)]
pub enum DecodeError {
    /// Fewer glyph tokens than the grid has cells.
    InsufficientSymbols { found: usize },
    /// After the grid, neither no token nor the legend's tokens.
    UnexpectedSymbolCount { excess: usize },
}

/// The text of `text` from position `e` up to the next line break.
pub fn line_from(text: &Vec<char>, e: usize) -> (r: Vec<char>)
    requires
        e <= text.len(),
    ensures
        r@ == line_of(text@.skip(e as int)),
{
    let mut out: Vec<char> = Vec::new();
    let mut i: usize = e;
    while i < text.len() && text[i] != '\n'
        invariant
            e <= i <= text.len(),
            out@ + line_of(text@.skip(i as int)) == line_of(text@.skip(e as int)),
        decreases text.len() - i,
    {
        proof {
            let s = text@.skip(i as int);
            assert(s.skip(1) =~= text@.skip(i + 1));
            assert(line_of(s) == seq![s[0]] + line_of(s.skip(1)));
            assert(out@.push(text@[i as int]) + line_of(text@.skip(i + 1)) =~= out@ + line_of(s));
        }
        out.push(text[i]);
        i = i + 1;
    }
    proof {
        let s = text@.skip(i as int);
        assert(line_of(s) =~= Seq::empty());
        assert(out@ + Seq::<char>::empty() =~= out@);
    }
    out
}

/// Reads a grid back from the text of its blocks, given its players in
/// order: the results from the glyph tokens, row after row, and the muted
/// players from the mark after their names.
pub fn decode_grid(text: &str, users: &Vec<Participant>) -> (r: Result<DecodedGrid, DecodeError>)
    ensures
        ({
            let toks = symbols_in(text@);
            let cells = users@.len() * users@.len();
            match r {
                Ok(d) => {
                    &&& toks.len() >= cells
                    &&& (toks.len() - cells == 0 || toks.len() - cells == legend_symbol_count())
                    &&& d.results@ == toks.take(cells as int).map_values(
                        |t: (MatchResult, Seq<char>)| t.0,
                    )
                    &&& d.muted@ == decoded_muted(text@, users@)
                    &&& d.legend_found == (toks.len() - cells == legend_symbol_count())
                },
                Err(DecodeError::InsufficientSymbols { found }) => {
                    &&& toks.len() < cells
                    &&& found == toks.len()
                },
                Err(DecodeError::UnexpectedSymbolCount { excess }) => {
                    &&& toks.len() >= cells
                    &&& excess == toks.len() - cells
                    &&& excess != 0
                    &&& excess != legend_symbol_count()
                },
            }
        }),
{
    let chars = chars_of(text);
    let toks = find_symbols(&chars);
    let ghost spec_toks = symbols_in(text@);
    let n = users.len();
    let found = toks.len();
    if n > 0 && found / n < n {
        proof {
            assert(found < n * n) by (nonlinear_arith)
                requires
                    n > 0,
                    found / n < n,
            ;
        }
        return Err(DecodeError::InsufficientSymbols { found: toks.len() });
    }
    proof {
        if n > 0 {
            assert(n * n <= found) by (nonlinear_arith)
                requires
                    n > 0,
                    found / n >= n,
            ;
        }
    }
    let cells = n * n;
    let excess = toks.len() - cells;
    if excess != 0 && excess != 6 {
        return Err(DecodeError::UnexpectedSymbolCount { excess });
    }
    let mut results: Vec<MatchResult> = Vec::new();
    let mut k: usize = 0;
    while k < cells
        invariant
            k <= cells,
            cells == n * n,
            cells <= toks@.len(),
            toks@.len() == spec_toks.len(),
            forall|j: int| 0 <= j < toks@.len() ==> (#[trigger] toks@[j]).0 == spec_toks[j].0,
            results@ == spec_toks.take(k as int).map_values(|t: (MatchResult, Seq<char>)| t.0),
        decreases cells - k,
    {
        results.push(toks[k].0);
        k = k + 1;
        proof {
            assert(results@ =~= spec_toks.take(k as int).map_values(
                |t: (MatchResult, Seq<char>)| t.0,
            ));
        }
    }
    let mut muted: HashSet<u64> = HashSet::new();
    let mut y: usize = 0;
    while y < n
        invariant
            y <= n,
            n == users@.len(),
            cells == n * n,
            cells <= toks@.len(),
            toks@.len() == spec_toks.len(),
            spec_toks == symbols_in(chars@),
            chars@ == text@,
            forall|j: int|
                0 <= j < toks@.len() ==> {
                    &&& (#[trigger] toks@[j]).1 <= chars@.len()
                    &&& chars@.skip(toks@[j].1 as int) == spec_toks[j].1
                },
            muted@ == Set::new(
                |id: u64|
                    exists|z: int|
                        0 <= z < y && users@[z].id == id && row_muted(text@, users@, z),
            ),
        decreases n - y,
    {
        proof {
            lemma_cell_index(n as nat, (n - 1) as int, y as int);
        }
        let last = toks[y * n + n - 1].1;
        let line = line_from(&chars, last);
        let mut pattern = chars_of(users[y].name.as_str());
        push_all(&mut pattern, &muted_marker_chars());
        let ghost before = muted@;
        if find_in(&line, &pattern) {
            muted.insert(users[y].id);
        }
        y = y + 1;
        proof {
            assert(muted@ =~= Set::new(
                |id: u64|
                    exists|z: int|
                        0 <= z < y && users@[z].id == id && row_muted(text@, users@, z),
            )) by {
                assert forall|id: u64| muted@.contains(id) implies exists|z: int|
                    0 <= z < y && users@[z].id == id && row_muted(text@, users@, z) by {
                    if !before.contains(id) {
                        assert(0 <= y - 1 < y && users@[y - 1].id == id && row_muted(
                            text@,
                            users@,
                            y - 1,
                        ));
                    }
                }
                assert forall|id: u64|
                    (exists|z: int|
                        0 <= z < y && users@[z].id == id && row_muted(
                            text@,
                            users@,
                            z,
                        )) implies muted@.contains(id) by {
                    let z = choose|z: int|
                        0 <= z < y && users@[z].id == id && row_muted(text@, users@, z);
                    if z < y - 1 {
                        assert(before.contains(id));
                    }
                }
            }
        }
    }
    proof {
        assert(muted@ =~= decoded_muted(text@, users@));
    }
    Ok(DecodedGrid { results, muted, legend_found: excess == 6 })
}

/// The post under a grid that explains its glyphs, each of the six once.
pub open spec fn legend() -> Seq<char> {
    symbol(MatchResult::NotPlayed) + seq![' ', 'm', 'a', 't', 'c', 'h', ' ', 'a', 'v', 'a', 'i', 'l', 'a', 'b', 'l', 'e', '\n'] + symbol(MatchResult::TwoZero) + seq![' ', 'm', 'a', 't', 'c', 'h', ' ', 'w', 'o', 'n', ' ', '2', '-', '0', '\n'] + symbol(MatchResult::TwoOne) + seq![' ', 'm', 'a', 't', 'c', 'h', ' ', 'w', 'o', 'n', ' ', '2', '-', '1', '\n'] + symbol(MatchResult::OneTwo) + seq![' ', 'm', 'a', 't', 'c', 'h', ' ', 'l', 'o', 's', 't', ' ', '1', '-', '2', '\n'] + symbol(MatchResult::ZeroTwo) + seq![' ', 'm', 'a', 't', 'c', 'h', ' ', 'l', 'o', 's', 't', ' ', '0', '-', '2', '\n'] + symbol(MatchResult::Unplayable) + seq![' ', 'c', 'a', 'n', 'n', 'o', 't', ' ', 'p', 'l', 'a', 'y', ' ', 'y', 'o', 'u', 'r', 's', 'e', 'l', 'f']
}

/// The post under a grid that explains its glyphs.
pub fn legend_text() -> (r: String)
    ensures
        r@ == legend(),
{
    let mut out: Vec<char> = Vec::new();
    push_all(&mut out, &MatchResult::NotPlayed.symbol_chars());
    push_all(&mut out, &vec![' ', 'm', 'a', 't', 'c', 'h', ' ', 'a', 'v', 'a', 'i', 'l', 'a', 'b', 'l', 'e', '\n']);
    push_all(&mut out, &MatchResult::TwoZero.symbol_chars());
    push_all(&mut out, &vec![' ', 'm', 'a', 't', 'c', 'h', ' ', 'w', 'o', 'n', ' ', '2', '-', '0', '\n']);
    push_all(&mut out, &MatchResult::TwoOne.symbol_chars());
    push_all(&mut out, &vec![' ', 'm', 'a', 't', 'c', 'h', ' ', 'w', 'o', 'n', ' ', '2', '-', '1', '\n']);
    push_all(&mut out, &MatchResult::OneTwo.symbol_chars());
    push_all(&mut out, &vec![' ', 'm', 'a', 't', 'c', 'h', ' ', 'l', 'o', 's', 't', ' ', '1', '-', '2', '\n']);
    push_all(&mut out, &MatchResult::ZeroTwo.symbol_chars());
    push_all(&mut out, &vec![' ', 'm', 'a', 't', 'c', 'h', ' ', 'l', 'o', 's', 't', ' ', '0', '-', '2', '\n']);
    push_all(&mut out, &MatchResult::Unplayable.symbol_chars());
    push_all(&mut out, &vec![' ', 'c', 'a', 'n', 'n', 'o', 't', ' ', 'p', 'l', 'a', 'y', ' ', 'y', 'o', 'u', 'r', 's', 'e', 'l', 'f']);
    assert(out@ =~= legend());
    string_of(&out)
}

} // verus!
