use vstd::prelude::*;

use crate::grid::{
    cells_text, cell, decimal, decoded_muted, first_alnum, footer, full_blocks, grid_block,
    grid_blocks, index_glyph, index_row, is_ascii_digit, is_ascii_letter, line_of,
    legend, lines_per_block, muted_marker, played_in_row, row_muted, row_tail, row_text, rows_text,
    wins_in_row, digit_char, Participant,
};
use crate::outcome::{symbol, MatchResult};
use crate::scan::{inert, lemma_inert_prefix, lemma_symbol_prefix, symbols_in};
use crate::text::{contains, occurs_at};

verus! {

/// Text without a `:`.
pub open spec fn no_colon(s: Seq<char>) -> bool {
    forall|i: int| 0 <= i < s.len() ==> s[i] != ':'
}

/// Text without a line break.
pub open spec fn no_newline(s: Seq<char>) -> bool {
    forall|i: int| 0 <= i < s.len() ==> s[i] != '\n'
}

/// The blocks of a grid put back together, in order.
pub open spec fn concat_blocks(bs: Seq<Seq<char>>) -> Seq<char>
    decreases bs.len(),
{
    if bs.len() == 0 {
        Seq::empty()
    } else {
        concat_blocks(bs.drop_last()) + bs.last()
    }
}

proof fn lemma_inert_concat(a: Seq<char>, b: Seq<char>)
    requires
        inert(a),
        inert(b),
    ensures
        inert(a + b),
{
    let s = a + b;
    assert forall|i: int| 0 <= i < s.len() && #[trigger] s[i] == ':' implies crate::scan::colon_is_inert(s, i) by {
        if i < a.len() {
            assert(a[i] == ':');
            assert(crate::scan::colon_is_inert(a, i));
            assert(s[i + 1] == a[i + 1]);
            if a[i + 1] == 'n' {
                assert(s[i + 2] == a[i + 2]);
            }
        } else {
            assert(b[i - a.len()] == ':');
            assert(crate::scan::colon_is_inert(b, i - a.len()));
            assert(s[i + 1] == b[i - a.len() + 1]);
            if b[i - a.len() + 1] == 'n' {
                assert(s[i + 2] == b[i - a.len() + 2]);
            }
        }
    }
}

proof fn lemma_no_colon_inert(s: Seq<char>)
    requires
        no_colon(s),
    ensures
        inert(s),
{
}

proof fn lemma_decimal_plain(v: nat)
    ensures
        no_colon(decimal(v)),
        no_newline(decimal(v)),
    decreases v,
{
    let digits = seq!['0', '1', '2', '3', '4', '5', '6', '7', '8', '9'];
    assert forall|d: nat| d < 10 implies digit_char(d) != ':' && digit_char(d) != '\n' by {
        assert(digits[d as int] == digit_char(d));
    }
    if v >= 10 {
        lemma_decimal_plain(v / 10);
    }
}

proof fn lemma_no_colon_concat(a: Seq<char>, b: Seq<char>)
    requires
        no_colon(a),
        no_colon(b),
    ensures
        no_colon(a + b),
{
    assert forall|i: int| 0 <= i < (a + b).len() implies (a + b)[i] != ':' by {
        if i >= a.len() {
            assert((a + b)[i] == b[i - a.len()]);
        }
    }
}

proof fn lemma_no_newline_concat(a: Seq<char>, b: Seq<char>)
    requires
        no_newline(a),
        no_newline(b),
    ensures
        no_newline(a + b),
{
    assert forall|i: int| 0 <= i < (a + b).len() implies (a + b)[i] != '\n' by {
        if i >= a.len() {
            assert((a + b)[i] == b[i - a.len()]);
        }
    }
}

/// The part of row `y` after the glyph tokens, but for the mark.
pub open spec fn row_plain(users: Seq<Participant>, table: Seq<MatchResult>, y: int) -> Seq<char> {
    let n = users.len();
    decimal(wins_in_row(table, n, y, n)) + seq!['/'] + decimal(played_in_row(table, n, y, n))
        + seq![' '] + users[y].name@
}

proof fn lemma_row_plain(users: Seq<Participant>, table: Seq<MatchResult>, y: int)
    requires
        no_colon(users[y].name@),
        no_newline(users[y].name@),
    ensures
        no_colon(row_plain(users, table, y)),
        no_newline(row_plain(users, table, y)),
{
    let n = users.len();
    let a = decimal(wins_in_row(table, n, y, n));
    let b = decimal(played_in_row(table, n, y, n));
    lemma_decimal_plain(wins_in_row(table, n, y, n));
    lemma_decimal_plain(played_in_row(table, n, y, n));
    lemma_no_colon_concat(a, seq!['/']);
    lemma_no_colon_concat(a + seq!['/'], b);
    lemma_no_colon_concat(a + seq!['/'] + b, seq![' ']);
    lemma_no_colon_concat(a + seq!['/'] + b + seq![' '], users[y].name@);
    lemma_no_newline_concat(a, seq!['/']);
    lemma_no_newline_concat(a + seq!['/'], b);
    lemma_no_newline_concat(a + seq!['/'] + b, seq![' ']);
    lemma_no_newline_concat(a + seq!['/'] + b + seq![' '], users[y].name@);
}

proof fn lemma_marker_line_inert()
    ensures
        inert(muted_marker() + seq!['\n']),
{
    let s = muted_marker() + seq!['\n'];
    assert forall|i: int| 0 <= i < s.len() && #[trigger] s[i] == ':' implies crate::scan::colon_is_inert(s, i) by {
        assert(s[0] == ':' && s[1] == 'n' && s[2] == 'o' && s[3] == '_' && s[4] == 'b' && s[5]
            == 'e' && s[6] == 'l' && s[7] == 'l' && s[8] == ':' && s[9] == '\n');
    }
}

proof fn lemma_tail_inert(users: Seq<Participant>, table: Seq<MatchResult>, muted: Set<u64>, y: int)
    requires
        no_colon(users[y].name@),
        no_newline(users[y].name@),
    ensures
        inert(row_tail(users, table, muted, y) + seq!['\n']),
        row_tail(users, table, muted, y) == row_plain(users, table, y) + if muted.contains(
            users[y].id,
        ) {
            muted_marker()
        } else {
            Seq::empty()
        },
{
    let p = row_plain(users, table, y);
    lemma_row_plain(users, table, y);
    lemma_no_colon_inert(p);
    if muted.contains(users[y].id) {
        lemma_marker_line_inert();
        lemma_inert_concat(p, muted_marker() + seq!['\n']);
        assert(row_tail(users, table, muted, y) + seq!['\n'] =~= p + (muted_marker() + seq!['\n']));
    } else {
        lemma_no_colon_concat(p, seq!['\n']);
        lemma_no_colon_inert(p + seq!['\n']);
        assert(row_tail(users, table, muted, y) =~= p);
    }
}

proof fn lemma_glyph_inert(name: Seq<char>)
    ensures
        inert(index_glyph(name) + seq![' ']),
    decreases name.len(),
{
    let s = index_glyph(name) + seq![' '];
    match first_alnum(name) {
        Some(c) => {
            lemma_first_alnum_plain(name);
            if is_ascii_digit(c) {
                assert forall|i: int| 0 <= i < s.len() && #[trigger] s[i] == ':' implies crate::scan::colon_is_inert(s, i) by {
                    assert(s[1] == 'n' && s[2] == 'u' && s[8] == c && s[9] == ':' && s[10] == ' ');
                    assert(s[3] == 'm' && s[4] == 'b' && s[5] == 'e' && s[6] == 'r' && s[7] == '_');
                }
            } else {
                assert forall|i: int| 0 <= i < s.len() && #[trigger] s[i] == ':' implies crate::scan::colon_is_inert(s, i) by {
                    assert(s[1] == 'r' && s[20] == c && s[21] == ':' && s[22] == ' ');
                    assert(s[2] == 'e' && s[3] == 'g' && s[4] == 'i' && s[5] == 'o' && s[6] == 'n');
                    assert(s[7] == 'a' && s[8] == 'l' && s[9] == '_' && s[10] == 'i' && s[11] == 'n');
                    assert(s[12] == 'd' && s[13] == 'i' && s[14] == 'c' && s[15] == 'a' && s[16] == 't');
                    assert(s[17] == 'o' && s[18] == 'r' && s[19] == '_');
                }
            }
        },
        None => {
            assert forall|i: int| 0 <= i < s.len() && #[trigger] s[i] == ':' implies crate::scan::colon_is_inert(s, i) by {
                assert(s[1] == 'a' && s[2] == 's' && s[3] == 't' && s[4] == 'e' && s[5] == 'r');
                assert(s[6] == 'i' && s[7] == 's' && s[8] == 'k' && s[9] == ':' && s[10] == ' ');
            }
        },
    }
}

proof fn lemma_first_alnum_plain(name: Seq<char>)
    ensures
        first_alnum(name) matches Some(c) ==> c != ':' && c != ' ',
    decreases name.len(),
{
    if name.len() > 0 && !(is_ascii_letter(name[0]) || is_ascii_digit(name[0])) {
        lemma_first_alnum_plain(name.skip(1));
    }
}

proof fn lemma_footer_inert(users: Seq<Participant>, k: nat)
    requires
        k <= users.len(),
    ensures
        inert(index_row(users, k)),
    decreases k,
{
    if k > 0 {
        lemma_footer_inert(users, (k - 1) as nat);
        lemma_glyph_inert(users[k - 1].name@);
        lemma_inert_concat(index_row(users, (k - 1) as nat), index_glyph(users[k - 1].name@) + seq![' ']);
        assert(index_row(users, k) =~= index_row(users, (k - 1) as nat) + (index_glyph(
            users[k - 1].name@,
        ) + seq![' ']));
    } else {
        assert(index_row(users, 0) =~= Seq::<char>::empty());
    }
}

/// The glyph tokens of the first `k` cells of row `y`, followed by `x`.
proof fn lemma_cells_scan(table: Seq<MatchResult>, n: nat, y: int, k: nat, x: Seq<char>)
    ensures
        ({
            let toks = symbols_in(cells_text(table, n, y, k) + x);
            let after = symbols_in(x);
            &&& toks.len() == k + after.len()
            &&& forall|c: int| 0 <= c < k ==> (#[trigger] toks[c]).0 == cell(table, n, c, y)
            &&& k > 0 ==> toks[k - 1].1 == seq![' '] + x
            &&& forall|j: int| 0 <= j < after.len() ==> toks[k + j] == #[trigger] after[j]
        }),
    decreases k,
{
    if k == 0 {
        assert(cells_text(table, n, y, 0) + x =~= x);
    } else {
        let r = cell(table, n, k - 1, y);
        let x2 = symbol(r) + (seq![' '] + x);
        assert(cells_text(table, n, y, k) + x =~= cells_text(table, n, y, (k - 1) as nat) + x2);
        lemma_cells_scan(table, n, y, (k - 1) as nat, x2);
        lemma_symbol_prefix(r, seq![' '] + x);
        assert(seq![' '] + x == seq![' '] + x);
        assert(inert(seq![' '])) by {
            assert(no_colon(seq![' ']));
        }
        lemma_inert_prefix(seq![' '], x);
        let toks = symbols_in(cells_text(table, n, y, k) + x);
        let after2 = symbols_in(x2);
        assert(after2 == seq![(r, seq![' '] + x)] + symbols_in(x));
        assert(toks[k - 1] == after2[0]);
        assert forall|j: int| 0 <= j < symbols_in(x).len() implies toks[k + j] == #[trigger] symbols_in(x)[j] by {
            assert(toks[(k - 1) + (j + 1)] == after2[j + 1]);
        }
    }
}

proof fn lemma_rows_front(
    users: Seq<Participant>,
    table: Seq<MatchResult>,
    muted: Set<u64>,
    lo: int,
    hi: int,
)
    requires
        lo < hi,
    ensures
        rows_text(users, table, muted, lo, hi) == row_text(users, table, muted, lo) + rows_text(
            users,
            table,
            muted,
            lo + 1,
            hi,
        ),
    decreases hi - lo,
{
    if lo + 1 < hi {
        lemma_rows_front(users, table, muted, lo, hi - 1);
        assert(rows_text(users, table, muted, lo, hi) =~= row_text(users, table, muted, lo)
            + rows_text(users, table, muted, lo + 1, hi));
    } else {
        assert(rows_text(users, table, muted, lo + 1, hi) =~= Seq::<char>::empty());
        assert(rows_text(users, table, muted, lo, hi - 1) =~= Seq::<char>::empty());
        assert(rows_text(users, table, muted, lo, hi) =~= row_text(users, table, muted, lo)
            + rows_text(users, table, muted, lo + 1, hi));
    }
}

proof fn lemma_rows_join(
    users: Seq<Participant>,
    table: Seq<MatchResult>,
    muted: Set<u64>,
    a: int,
    b: int,
    c: int,
)
    requires
        a <= b <= c,
    ensures
        rows_text(users, table, muted, a, b) + rows_text(users, table, muted, b, c) == rows_text(
            users,
            table,
            muted,
            a,
            c,
        ),
    decreases c - b,
{
    if b == c {
        assert(rows_text(users, table, muted, a, b) + rows_text(users, table, muted, b, c)
            =~= rows_text(users, table, muted, a, c));
    } else {
        lemma_rows_join(users, table, muted, a, b, c - 1);
        assert(rows_text(users, table, muted, a, b) + rows_text(users, table, muted, b, c)
            =~= rows_text(users, table, muted, a, c));
    }
}

/// What every player name and the header must avoid for the grid to read back.
pub open spec fn names_plain(users: Seq<Participant>) -> bool {
    forall|y: int| 0 <= y < users.len() ==> no_colon(#[trigger] users[y].name@) && no_newline(users[y].name@)
}

/// The glyph tokens of the lines of players `lo` up to `hi`, followed by `x`.
proof fn lemma_rows_scan(
    users: Seq<Participant>,
    table: Seq<MatchResult>,
    muted: Set<u64>,
    lo: int,
    hi: int,
    x: Seq<char>,
)
    requires
        0 <= lo <= hi <= users.len(),
        users.len() >= 1,
        table.len() == users.len() * users.len(),
        names_plain(users),
    ensures
        ({
            let n = users.len() as int;
            let toks = symbols_in(rows_text(users, table, muted, lo, hi) + x);
            let after = symbols_in(x);
            &&& toks.len() == (hi - lo) * n + after.len()
            &&& forall|k: int| 0 <= k < (hi - lo) * n ==> (#[trigger] toks[k]).0 == table[lo * n + k]
            &&& forall|y: int| lo <= y < hi ==> (#[trigger] toks[(y - lo) * n + n - 1]).1 == seq![' ']
                + row_tail(users, table, muted, y) + seq!['\n'] + rows_text(users, table, muted, y + 1, hi) + x
            &&& forall|j: int| 0 <= j < after.len() ==> toks[(hi - lo) * n + j] == #[trigger] after[j]
        }),
    decreases hi - lo,
{
    let n = users.len() as int;
    if lo == hi {
        assert(rows_text(users, table, muted, lo, hi) + x =~= x);
        assert((hi - lo) * n == 0);
        let toks = symbols_in(rows_text(users, table, muted, lo, hi) + x);
        assert(toks == symbols_in(x));
        assert forall|j: int| 0 <= j < symbols_in(x).len() implies toks[(hi - lo) * n + j] == #[trigger] symbols_in(x)[j] by {
            assert((hi - lo) * n + j == j);
        }
    } else {
        let rest = rows_text(users, table, muted, lo + 1, hi) + x;
        let tail = row_tail(users, table, muted, lo);
        lemma_rows_front(users, table, muted, lo, hi);
        lemma_rows_scan(users, table, muted, lo + 1, hi, x);
        lemma_tail_inert(users, table, muted, lo);
        lemma_inert_prefix(tail + seq!['\n'], rest);
        let x1 = tail + seq!['\n'] + rest;
        assert(rows_text(users, table, muted, lo, hi) + x =~= cells_text(table, n as nat, lo, n as nat) + x1);
        assert(x1 =~= (tail + seq!['\n']) + rest);
        lemma_cells_scan(table, n as nat, lo, n as nat, x1);
        let toks = symbols_in(rows_text(users, table, muted, lo, hi) + x);
        let inner = symbols_in(rest);
        assert(symbols_in(x1) == inner);
        assert(toks.len() == (hi - lo) * n + symbols_in(x).len()) by (nonlinear_arith)
            requires
                toks.len() == n + inner.len(),
                inner.len() == (hi - (lo + 1)) * n + symbols_in(x).len(),
        ;
        assert forall|k: int| 0 <= k < (hi - lo) * n implies (#[trigger] toks[k]).0 == table[lo * n + k] by {
            if k < n {
                assert(toks[k].0 == cell(table, n as nat, k, lo));
            } else {
                assert(toks[n + (k - n)] == inner[k - n]);
                assert(0 <= k - n < (hi - (lo + 1)) * n) by (nonlinear_arith)
                    requires
                        n <= k < (hi - lo) * n,
                ;
                assert(inner[k - n].0 == table[(lo + 1) * n + (k - n)]);
                assert((lo + 1) * n + (k - n) == lo * n + k) by (nonlinear_arith);
            }
        }
        assert forall|y: int| lo <= y < hi implies (#[trigger] toks[(y - lo) * n + n - 1]).1 == seq![' ']
            + row_tail(users, table, muted, y) + seq!['\n'] + rows_text(users, table, muted, y + 1, hi) + x by {
            if y == lo {
                assert((y - lo) * n + n - 1 == n - 1) by (nonlinear_arith)
                    requires
                        y == lo,
                ;
                assert(seq![' '] + x1 =~= seq![' '] + row_tail(users, table, muted, y) + seq!['\n']
                    + rows_text(users, table, muted, y + 1, hi) + x);
            } else {
                let j = (y - (lo + 1)) * n + n - 1;
                assert((y - lo) * n + n - 1 == n + j) by (nonlinear_arith)
                    requires
                        j == (y - (lo + 1)) * n + n - 1,
                ;
                assert(0 <= j < inner.len()) by (nonlinear_arith)
                    requires
                        j == (y - (lo + 1)) * n + n - 1,
                        lo + 1 <= y < hi,
                        n >= 1,
                        inner.len() >= (hi - (lo + 1)) * n,
                ;
                assert(toks[n + j] == inner[j]);
                assert(inner[(y - (lo + 1)) * n + n - 1] == inner[j]);
            }
        }
        assert forall|j: int| 0 <= j < symbols_in(x).len() implies toks[(hi - lo) * n + j] == #[trigger] symbols_in(x)[j] by {
            let i = (hi - (lo + 1)) * n + j;
            assert((hi - lo) * n + j == n + i) by (nonlinear_arith)
                requires
                    i == (hi - (lo + 1)) * n + j,
            ;
            assert(toks[n + i] == inner[i]);
        }
    }
}

proof fn lemma_blocks_prefix(
    users: Seq<Participant>,
    table: Seq<MatchResult>,
    muted: Set<u64>,
    header: Seq<char>,
    count: nat,
    j: nat,
)
    requires
        count >= 1,
        j <= full_blocks(users.len(), count),
    ensures
        concat_blocks(grid_blocks(users, table, muted, header, count).take(j as int)) == if j == 0 {
            Seq::empty()
        } else {
            header + seq!['\n'] + rows_text(
                users,
                table,
                muted,
                0,
                (j * lines_per_block(users.len(), count)) as int,
            )
        },
    decreases j,
{
    let bs = grid_blocks(users, table, muted, header, count);
    let per = lines_per_block(users.len(), count);
    if j == 0 {
        assert(bs.take(0).len() == 0);
    } else {
        lemma_blocks_prefix(users, table, muted, header, count, (j - 1) as nat);
        assert(bs.take(j as int).drop_last() =~= bs.take(j - 1));
        assert(bs.take(j as int).last() == grid_block(users, table, muted, header, count, j - 1));
        assert((j - 1) * per <= j * per) by (nonlinear_arith)
            requires
                j >= 1,
        ;
        assert(0 <= (j - 1) * per) by (nonlinear_arith)
            requires
                j >= 1,
        ;
        assert(j * per == (j - 1) * per + per) by (nonlinear_arith);
        lemma_rows_join(users, table, muted, 0, (j - 1) * per, (j * per) as int);
        if j == 1 {
            assert(rows_text(users, table, muted, 0, 0) =~= Seq::<char>::empty());
            assert(concat_blocks(bs.take(1)) =~= header + seq!['\n'] + rows_text(
                users,
                table,
                muted,
                0,
                (j * per) as int,
            ));
        } else {
            assert(concat_blocks(bs.take(j as int)) =~= header + seq!['\n'] + rows_text(
                users,
                table,
                muted,
                0,
                (j * per) as int,
            ));
        }
    }
}

/// The blocks of a grid, put back together, are the header line, the player
/// lines and the footer.
pub proof fn lemma_blocks_join(
    users: Seq<Participant>,
    table: Seq<MatchResult>,
    muted: Set<u64>,
    header: Seq<char>,
    count: nat,
)
    requires
        count >= 1,
    ensures
        concat_blocks(grid_blocks(users, table, muted, header, count)) == header + seq!['\n']
            + rows_text(users, table, muted, 0, users.len() as int) + footer(users),
{
    let n = users.len() as int;
    let bs = grid_blocks(users, table, muted, header, count);
    let per = lines_per_block(users.len(), count) as int;
    let k = full_blocks(users.len(), count) as int;
    lemma_blocks_prefix(users, table, muted, header, count, k as nat);
    assert(bs.drop_last() =~= bs.take(k));
    vstd::arithmetic::div_mod::lemma_fundamental_div_mod(n, per);
    assert(0 <= k * per <= n) by (nonlinear_arith)
        requires
            n == per * k + n % per,
            0 <= n % per,
            per >= 1,
            k >= 0,
    ;
    lemma_rows_join(users, table, muted, 0, k * per, n);
    if k == 0 {
        assert(rows_text(users, table, muted, 0, 0) =~= Seq::<char>::empty());
    }
    assert(concat_blocks(bs) =~= header + seq!['\n'] + rows_text(users, table, muted, 0, n)
        + footer(users));
}

proof fn lemma_line_of_prefix(a: Seq<char>, b: Seq<char>)
    requires
        no_newline(a),
    ensures
        line_of(a + seq!['\n'] + b) == a,
    decreases a.len(),
{
    let s = a + seq!['\n'] + b;
    if a.len() == 0 {
        assert(s[0] == '\n');
    } else {
        assert(s[0] == a[0]);
        assert(s.skip(1) =~= a.skip(1) + seq!['\n'] + b);
        lemma_line_of_prefix(a.skip(1), b);
        assert(a =~= seq![a[0]] + a.skip(1));
    }
}

/// The grid's text followed by any `after` reads back as the grid's results and
/// mutes, with the tokens of `after` left over.
proof fn lemma_grid_followed_by(
    users: Seq<Participant>,
    table: Seq<MatchResult>,
    muted: Set<u64>,
    header: Seq<char>,
    count: nat,
    after: Seq<char>,
)
    requires
        users.len() >= 1,
        table.len() == users.len() * users.len(),
        count >= 1,
        no_colon(header),
        names_plain(users),
        forall|id: u64| #[trigger] muted.contains(id) ==> exists|y: int| 0 <= y < users.len() && users[y].id == id,
    ensures
        ({
            let text = concat_blocks(grid_blocks(users, table, muted, header, count)) + after;
            let toks = symbols_in(text);
            let cells = users.len() * users.len();
            &&& toks.len() == cells + symbols_in(after).len()
            &&& toks.take(cells as int).map_values(|t: (MatchResult, Seq<char>)| t.0) == table
            &&& decoded_muted(text, users) == muted
        }),
{
    let n = users.len() as int;
    let text = concat_blocks(grid_blocks(users, table, muted, header, count)) + after;
    let rows = rows_text(users, table, muted, 0, n);
    let foot = footer(users) + after;
    lemma_blocks_join(users, table, muted, header, count);
    assert(text =~= (header + seq!['\n']) + (rows + foot));
    lemma_no_colon_concat(header, seq!['\n']);
    lemma_inert_prefix(header + seq!['\n'], rows + foot);
    lemma_footer_inert(users, users.len());
    assert(inert(seq!['\n', '_', ' ', '_'])) by {
        assert(no_colon(seq!['\n', '_', ' ', '_']));
    }
    lemma_inert_concat(index_row(users, users.len()), seq!['\n', '_', ' ', '_']);
    lemma_inert_prefix(footer(users), after);
    lemma_rows_scan(users, table, muted, 0, n, foot);
    let toks = symbols_in(text);
    assert(toks == symbols_in(rows + foot));
    assert(toks.take(n * n).map_values(|t: (MatchResult, Seq<char>)| t.0) =~= table);
    assert forall|y: int| 0 <= y < n implies (#[trigger] row_muted(text, users, y)) == muted.contains(users[y].id) by {
        let tail = row_tail(users, table, muted, y);
        let plain = row_plain(users, table, y);
        let name = users[y].name@;
        let pat = name + muted_marker();
        lemma_tail_inert(users, table, muted, y);
        lemma_row_plain(users, table, y);
        assert(toks[(y - 0) * n + n - 1] == toks[y * n + n - 1]);
        let after = toks[y * n + n - 1].1;
        assert(after == seq![' '] + tail + seq!['\n'] + rows_text(users, table, muted, y + 1, n) + foot);
        let line = seq![' '] + tail;
        assert(no_newline(muted_marker())) by {
            let m = muted_marker();
            assert(m[0] == ':' && m[1] == 'n' && m[2] == 'o' && m[3] == '_' && m[4] == 'b'
                && m[5] == 'e' && m[6] == 'l' && m[7] == 'l' && m[8] == ':');
        }
        assert(no_newline(seq![' ']));
        lemma_no_newline_concat(seq![' '], plain);
        if muted.contains(users[y].id) {
            lemma_no_newline_concat(seq![' '] + plain, muted_marker());
            assert(line =~= seq![' '] + plain + muted_marker());
        } else {
            assert(line =~= seq![' '] + plain);
        }
        assert(after =~= line + seq!['\n'] + (rows_text(users, table, muted, y + 1, n) + foot));
        lemma_line_of_prefix(line, rows_text(users, table, muted, y + 1, n) + foot);
        let front = seq![' '] + decimal(wins_in_row(table, n as nat, y, n as nat)) + seq!['/']
            + decimal(played_in_row(table, n as nat, y, n as nat)) + seq![' '];
        if muted.contains(users[y].id) {
            assert(line =~= front + pat);
            assert(line.subrange(front.len() as int, (front.len() + pat.len()) as int) =~= pat);
            assert(occurs_at(line, front.len() as int, pat));
        } else {
            lemma_no_colon_concat(seq![' '], plain);
            assert(no_colon(line));
            assert(pat[name.len() as int] == ':');
            if contains(line, pat) {
                let i = choose|i: int| occurs_at(line, i, pat);
                assert(line.subrange(i, i + pat.len())[name.len() as int] == ':');
            }
        }
    }
    assert forall|id: u64| decoded_muted(text, users).contains(id) == muted.contains(id) by {
        if muted.contains(id) {
            let y = choose|y: int| 0 <= y < users.len() && users[y].id == id;
            assert(row_muted(text, users, y));
        }
        if decoded_muted(text, users).contains(id) {
            let y = choose|y: int|
                0 <= y < users.len() && users[y].id == id && row_muted(text, users, y);
            assert(row_muted(text, users, y) == muted.contains(users[y].id));
        }
    }
    assert(decoded_muted(text, users) =~= muted);
}

/// Writing a grid and reading its text back gives the same results and the
/// same muted players, for at least one player, a header and names without
/// `:`, and names without line breaks.
pub proof fn lemma_grid_round_trip(
    users: Seq<Participant>,
    table: Seq<MatchResult>,
    muted: Set<u64>,
    header: Seq<char>,
    count: nat,
)
    requires
        users.len() >= 1,
        table.len() == users.len() * users.len(),
        count >= 1,
        no_colon(header),
        names_plain(users),
        forall|id: u64| #[trigger] muted.contains(id) ==> exists|y: int| 0 <= y < users.len() && users[y].id == id,
    ensures
        ({
            let text = concat_blocks(grid_blocks(users, table, muted, header, count));
            let toks = symbols_in(text);
            &&& toks.len() == users.len() * users.len()
            &&& toks.take(toks.len() as int).map_values(|t: (MatchResult, Seq<char>)| t.0) == table
            &&& decoded_muted(text, users) == muted
        }),
{
    let text = concat_blocks(grid_blocks(users, table, muted, header, count));
    lemma_grid_followed_by(users, table, muted, header, count, Seq::empty());
    assert(text + Seq::<char>::empty() =~= text);
    assert(symbols_in(Seq::<char>::empty()) =~= Seq::empty());
}

/// A grid's text followed by the legend post reads back as the grid, with
/// exactly the legend's six tokens left over.
pub proof fn lemma_grid_with_legend(
    users: Seq<Participant>,
    table: Seq<MatchResult>,
    muted: Set<u64>,
    header: Seq<char>,
    count: nat,
)
    requires
        users.len() >= 1,
        table.len() == users.len() * users.len(),
        count >= 1,
        no_colon(header),
        names_plain(users),
        forall|id: u64| #[trigger] muted.contains(id) ==> exists|y: int| 0 <= y < users.len() && users[y].id == id,
    ensures
        ({
            let text = concat_blocks(grid_blocks(users, table, muted, header, count)) + legend();
            let toks = symbols_in(text);
            let cells = users.len() * users.len();
            &&& toks.len() == cells + 6
            &&& toks.take(cells as int).map_values(|t: (MatchResult, Seq<char>)| t.0) == table
            &&& decoded_muted(text, users) == muted
        }),
{
    lemma_grid_followed_by(users, table, muted, header, count, legend());
    lemma_legend_symbols();
}

proof fn lemma_symbol_then_plain(r: MatchResult, plain: Seq<char>, rest: Seq<char>)
    requires
        no_colon(plain),
    ensures
        symbols_in(symbol(r) + plain + rest) == seq![(r, plain + rest)] + symbols_in(rest),
{
    assert(symbol(r) + plain + rest =~= symbol(r) + (plain + rest));
    lemma_symbol_prefix(r, plain + rest);
    lemma_inert_prefix(plain, rest);
}

/// The legend post holds exactly the six glyph tokens, once each.
pub proof fn lemma_legend_symbols()
    ensures
        symbols_in(legend()).len() == 6,
{
    let e = Seq::<char>::empty();
    let t6 = e;
    let words5 = seq![' ', 'c', 'a', 'n', 'n', 'o', 't', ' ', 'p', 'l', 'a', 'y', ' ', 'y', 'o', 'u', 'r', 's', 'e', 'l', 'f'];
    assert(no_colon(words5)) by {
        assert forall|i: int| 0 <= i < words5.len() implies words5[i] != ':' by {}
    }
    let t5 = symbol(MatchResult::Unplayable) + words5 + t6;
    lemma_symbol_then_plain(MatchResult::Unplayable, words5, t6);
    let words4 = seq![' ', 'm', 'a', 't', 'c', 'h', ' ', 'l', 'o', 's', 't', ' ', '0', '-', '2', '\n'];
    assert(no_colon(words4)) by {
        assert forall|i: int| 0 <= i < words4.len() implies words4[i] != ':' by {}
    }
    let t4 = symbol(MatchResult::ZeroTwo) + words4 + t5;
    lemma_symbol_then_plain(MatchResult::ZeroTwo, words4, t5);
    let words3 = seq![' ', 'm', 'a', 't', 'c', 'h', ' ', 'l', 'o', 's', 't', ' ', '1', '-', '2', '\n'];
    assert(no_colon(words3)) by {
        assert forall|i: int| 0 <= i < words3.len() implies words3[i] != ':' by {}
    }
    let t3 = symbol(MatchResult::OneTwo) + words3 + t4;
    lemma_symbol_then_plain(MatchResult::OneTwo, words3, t4);
    let words2 = seq![' ', 'm', 'a', 't', 'c', 'h', ' ', 'w', 'o', 'n', ' ', '2', '-', '1', '\n'];
    assert(no_colon(words2)) by {
        assert forall|i: int| 0 <= i < words2.len() implies words2[i] != ':' by {}
    }
    let t2 = symbol(MatchResult::TwoOne) + words2 + t3;
    lemma_symbol_then_plain(MatchResult::TwoOne, words2, t3);
    let words1 = seq![' ', 'm', 'a', 't', 'c', 'h', ' ', 'w', 'o', 'n', ' ', '2', '-', '0', '\n'];
    assert(no_colon(words1)) by {
        assert forall|i: int| 0 <= i < words1.len() implies words1[i] != ':' by {}
    }
    let t1 = symbol(MatchResult::TwoZero) + words1 + t2;
    lemma_symbol_then_plain(MatchResult::TwoZero, words1, t2);
    let words0 = seq![' ', 'm', 'a', 't', 'c', 'h', ' ', 'a', 'v', 'a', 'i', 'l', 'a', 'b', 'l', 'e', '\n'];
    assert(no_colon(words0)) by {
        assert forall|i: int| 0 <= i < words0.len() implies words0[i] != ':' by {}
    }
    let t0 = symbol(MatchResult::NotPlayed) + words0 + t1;
    lemma_symbol_then_plain(MatchResult::NotPlayed, words0, t1);
    assert(legend() =~= t0);
    assert(symbols_in(e) =~= Seq::empty());
}

proof fn lemma_cells_start_with_colon(table: Seq<MatchResult>, n: nat, y: int, k: nat)
    requires
        k >= 1,
    ensures
        cells_text(table, n, y, k).len() >= 1,
        cells_text(table, n, y, k)[0] == ':',
    decreases k,
{
    let r = cell(table, n, k - 1, y);
    crate::scan::lemma_symbol_len(r);
    let prev = cells_text(table, n, y, (k - 1) as nat);
    assert(cells_text(table, n, y, k) == prev + symbol(r) + seq![' ']);
    if k > 1 {
        lemma_cells_start_with_colon(table, n, y, (k - 1) as nat);
        assert(cells_text(table, n, y, k)[0] == prev[0]);
    } else {
        assert(prev =~= Seq::<char>::empty());
        assert(cells_text(table, n, y, k)[0] == symbol(r)[0]);
    }
}

proof fn lemma_index_row_starts_with_colon(users: Seq<Participant>, k: nat)
    requires
        k >= 1,
    ensures
        index_row(users, k).len() >= 1,
        index_row(users, k)[0] == ':',
    decreases k,
{
    if k > 1 {
        lemma_index_row_starts_with_colon(users, (k - 1) as nat);
    } else {
        assert(index_row(users, 0) =~= Seq::<char>::empty());
        assert(index_glyph(users[0].name@)[0] == ':');
    }
}

/// Every block of a grid of at least one player holds a `:`.
pub proof fn lemma_block_has_colon(
    users: Seq<Participant>,
    table: Seq<MatchResult>,
    muted: Set<u64>,
    header: Seq<char>,
    count: nat,
    j: int,
)
    requires
        users.len() >= 1,
        count >= 1,
        0 <= j <= full_blocks(users.len(), count),
    ensures
        contains(grid_block(users, table, muted, header, count, j), seq![':']),
{
    let n = users.len();
    let per = lines_per_block(n, count) as int;
    let last = j == full_blocks(n, count);
    let pre = if j == 0 {
        header + seq!['\n']
    } else {
        Seq::empty()
    };
    let b = grid_block(users, table, muted, header, count, j);
    if last {
        let hi = n as int;
        let rows = rows_text(users, table, muted, j * per, hi);
        lemma_index_row_starts_with_colon(users, n);
        assert(b =~= pre + rows + (index_row(users, n) + seq!['\n', '_', ' ', '_']));
        let at = (pre.len() + rows.len()) as int;
        assert(b[at] == ':');
        assert(b.subrange(at, at + 1) =~= seq![':']);
        assert(occurs_at(b, at, seq![':']));
    } else {
        let lo = j * per;
        let hi = (j + 1) * per;
        assert(lo < hi) by (nonlinear_arith)
            requires
                lo == j * per,
                hi == (j + 1) * per,
                per >= 1,
        ;
        lemma_rows_front(users, table, muted, lo, hi);
        lemma_cells_start_with_colon(table, n, lo, n);
        let rows = rows_text(users, table, muted, lo, hi);
        assert(rows[0] == ':');
        assert(b =~= pre + rows);
        let at = pre.len() as int;
        assert(b[at] == ':');
        assert(b.subrange(at, at + 1) =~= seq![':']);
        assert(occurs_at(b, at, seq![':']));
    }
}

/// Putting blocks together one at a time from the front.
pub proof fn lemma_concat_front(bs: Seq<Seq<char>>)
    requires
        bs.len() >= 1,
    ensures
        concat_blocks(bs) == bs[0] + concat_blocks(bs.skip(1)),
    decreases bs.len(),
{
    if bs.len() == 1 {
        assert(bs.drop_last() =~= Seq::<Seq<char>>::empty());
        assert(bs.skip(1) =~= Seq::<Seq<char>>::empty());
        assert(concat_blocks(bs) =~= bs[0] + concat_blocks(bs.skip(1)));
    } else {
        lemma_concat_front(bs.drop_last());
        assert(bs.drop_last().skip(1) =~= bs.skip(1).drop_last());
        assert(bs.skip(1).last() == bs.last());
        assert(concat_blocks(bs) =~= bs[0] + concat_blocks(bs.skip(1)));
    }
}

/// The legend post holds a `:`.
pub proof fn lemma_legend_has_colon()
    ensures
        contains(legend(), seq![':']),
{
    let l = legend();
    crate::scan::lemma_symbol_len(MatchResult::NotPlayed);
    assert(l[0] == ':');
    assert(l.subrange(0, 1) =~= seq![':']);
    assert(occurs_at(l, 0, seq![':']));
}

/// The written grid holds the line of each player `y` in its place, and that
/// line prints the player's wins and matches played as counted over the
/// table, then the name, with the mute mark exactly when the player is muted.
pub proof fn lemma_rendered_row(
    users: Seq<Participant>,
    table: Seq<MatchResult>,
    muted: Set<u64>,
    header: Seq<char>,
    count: nat,
    y: int,
)
    requires
        count >= 1,
        0 <= y < users.len(),
    ensures
        concat_blocks(grid_blocks(users, table, muted, header, count)) == header + seq!['\n']
            + rows_text(users, table, muted, 0, y) + row_text(users, table, muted, y) + rows_text(
            users,
            table,
            muted,
            y + 1,
            users.len() as int,
        ) + footer(users),
        row_text(users, table, muted, y) == cells_text(table, users.len(), y, users.len())
            + decimal(wins_in_row(table, users.len(), y, users.len())) + seq!['/'] + decimal(
            played_in_row(table, users.len(), y, users.len()),
        ) + seq![' '] + users[y].name@ + (if muted.contains(users[y].id) {
            muted_marker()
        } else {
            Seq::empty()
        }) + seq!['\n'],
{
    let n = users.len() as int;
    lemma_blocks_join(users, table, muted, header, count);
    lemma_rows_join(users, table, muted, 0, y, n);
    lemma_rows_front(users, table, muted, y, n);
    assert(concat_blocks(grid_blocks(users, table, muted, header, count)) =~= header + seq!['\n']
        + rows_text(users, table, muted, 0, y) + row_text(users, table, muted, y) + rows_text(
        users,
        table,
        muted,
        y + 1,
        n,
    ) + footer(users));
}

} // verus!
