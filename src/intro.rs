use vstd::prelude::*;

use crate::grid::{decimal, digit, push_all, Participant};
use crate::text::{chars_of, occurs_at, string_of};

verus! {

/// The value of a decimal digit.
pub open spec fn digit_value(c: char) -> nat {
    ((c as u32) - ('0' as u32)) as nat
}

/// An ASCII decimal digit.
pub open spec fn is_digit(c: char) -> bool {
    '0' <= c && c <= '9'
}

/// The number that a run of decimal digits stands for.
pub open spec fn digits_value(d: Seq<char>) -> nat
    decreases d.len(),
{
    if d.len() == 0 {
        0
    } else {
        digits_value(d.drop_last()) * 10 + digit_value(d.last())
    }
}

/// Text made of decimal digits only.
pub open spec fn all_digits(d: Seq<char>) -> bool {
    forall|i: int| 0 <= i < d.len() ==> is_digit(#[trigger] d[i])
}

/// A decimal number of the `u64` range, digits only.
pub open spec fn parses_as(s: Seq<char>, v: u64) -> bool {
    s.len() > 0 && all_digits(s) && digits_value(s) == v
}

/// Reads a decimal number, digits only, that fits in a `u64`.
pub fn parse_u64(s: &str) -> (r: Option<u64>)
    ensures
        match r {
            Some(v) => parses_as(s@, v),
            None => !(s@.len() > 0 && all_digits(s@) && digits_value(s@) <= u64::MAX),
        },
{
    let t = chars_of(s);
    assert(t@.subrange(0, t@.len() as int) =~= s@);
    parse_digits(&t, 0, t.len())
}

/// Reads the digits `t[lo..hi]` as a number that fits in a `u64`.
pub fn parse_digits(t: &Vec<char>, lo: usize, hi: usize) -> (r: Option<u64>)
    requires
        lo <= hi <= t@.len(),
    ensures
        ({
            let d = t@.subrange(lo as int, hi as int);
            match r {
                Some(v) => parses_as(d, v),
                None => !(d.len() > 0 && all_digits(d) && digits_value(d) <= u64::MAX),
            }
        }),
{
    if lo == hi {
        return None;
    }
    let mut v: u64 = 0;
    let mut i: usize = lo;
    while i < hi
        invariant
            lo <= i <= hi <= t@.len(),
            all_digits(t@.subrange(lo as int, i as int)),
            v == digits_value(t@.subrange(lo as int, i as int)),
        decreases hi - i,
    {
        let c = t[i];
        let ghost d = t@.subrange(lo as int, i + 1);
        assert(d.drop_last() =~= t@.subrange(lo as int, i as int));
        if !('0' <= c && c <= '9') {
            assert(!is_digit(t@.subrange(lo as int, hi as int)[i - lo]));
            return None;
        }
        let dv = (c as u32 - '0' as u32) as u64;
        if v > (u64::MAX - dv) / 10 {
            proof {
                lemma_digits_prefix_bound(t@.subrange(lo as int, hi as int), (i + 1 - lo) as nat);
                assert(t@.subrange(lo as int, hi as int).subrange(0, i + 1 - lo) =~= d);
            }
            return None;
        }
        v = v * 10 + dv;
        i = i + 1;
    }
    Some(v)
}

/// A longer run of digits is worth at least as much as its beginning.
proof fn lemma_digits_prefix_bound(d: Seq<char>, k: nat)
    requires
        k <= d.len(),
    ensures
        digits_value(d.subrange(0, k as int)) <= digits_value(d),
    decreases d.len(),
{
    if k < d.len() {
        assert(d.drop_last().subrange(0, k as int) =~= d.subrange(0, k as int));
        lemma_digits_prefix_bound(d.drop_last(), k);
    } else {
        assert(d.subrange(0, k as int) =~= d);
    }
}

/// The words of the intro post between the mentions and the command name.
pub open spec fn intro_phrase() -> Seq<char> {
    seq![' ', 'R', 'e', 'p', 'o', 'r', 't', ' ', 'y', 'o', 'u', 'r', ' ', 'r', 'e', 's', 'u', 'l', 't', 's', ' ', 'h', 'e', 'r', 'e', ' ', 'u', 's', 'i', 'n', 'g', ' ', 't', 'h', 'e', ' ', 'c', 'o', 'm', 'm', 'a', 'n', 'd', ' ', '/']
}

/// The words of the intro post after the command name.
pub open spec fn intro_close() -> Seq<char> {
    seq![' ', 'o', 'r', ' ', '/', 'r', 'e', 's', 'u', 'l', 't']
}

/// The command phrase of the intro post, as characters.
pub fn intro_phrase_chars() -> (r: Vec<char>)
    ensures
        r@ == intro_phrase(),
{
    vec![' ', 'R', 'e', 'p', 'o', 'r', 't', ' ', 'y', 'o', 'u', 'r', ' ', 'r', 'e', 's', 'u', 'l', 't', 's', ' ', 'h', 'e', 'r', 'e', ' ', 'u', 's', 'i', 'n', 'g', ' ', 't', 'h', 'e', ' ', 'c', 'o', 'm', 'm', 'a', 'n', 'd', ' ', '/']
}

/// The closing words of the intro post, as characters.
pub fn intro_close_chars() -> (r: Vec<char>)
    ensures
        r@ == intro_close(),
{
    vec![' ', 'o', 'r', ' ', '/', 'r', 'e', 's', 'u', 'l', 't']
}

/// How a post mentions a player.
pub open spec fn mention(id: u64) -> Seq<char> {
    seq!['<', '@'] + crate::grid::decimal(id as nat) + seq!['>']
}

/// Mentions of the players in order, each followed by a space.
pub open spec fn mention_list(ids: Seq<u64>) -> Seq<char>
    decreases ids.len(),
{
    if ids.len() == 0 {
        Seq::empty()
    } else {
        mention_list(ids.drop_last()) + mention(ids.last()) + seq![' ']
    }
}

/// The ids of a list of players, in order.
pub open spec fn ids_of(users: Seq<Participant>) -> Seq<u64> {
    users.map_values(|p: Participant| p.id)
}

/// The first post of a grid's thread: it mentions the players and names the
/// command to report with.
pub open spec fn intro_spec(ids: Seq<u64>, shortname: Seq<char>) -> Seq<char> {
    mention_list(ids) + intro_phrase() + shortname + intro_close()
}

/// Appends a number in decimal.
pub fn push_decimal_u64(out: &mut Vec<char>, v: u64)
    ensures
        final(out)@ == old(out)@ + crate::grid::decimal(v as nat),
    decreases v,
{
    if v >= 10 {
        push_decimal_u64(out, v / 10);
    }
    out.push(digit((v % 10) as usize));
    proof {
        if v < 10 {
            assert(v % 10 == v);
        }
    }
}

/// Appends the mentions of `users`, each followed by a space.
pub fn push_mentions(out: &mut Vec<char>, users: &Vec<Participant>)
    ensures
        final(out)@ == old(out)@ + mention_list(ids_of(users@)),
{
    let mut k: usize = 0;
    while k < users.len()
        invariant
            k <= users@.len(),
            out@ == old(out)@ + mention_list(ids_of(users@).take(k as int)),
        decreases users.len() - k,
    {
        out.push('<');
        out.push('@');
        push_decimal_u64(out, users[k].id);
        out.push('>');
        out.push(' ');
        k = k + 1;
        proof {
            let ids = ids_of(users@).take(k as int);
            assert(ids.drop_last() =~= ids_of(users@).take(k - 1));
            assert(out@ =~= old(out)@ + mention_list(ids));
        }
    }
    assert(ids_of(users@).take(k as int) =~= ids_of(users@));
}

/// The mentions of `users`, each followed by a space.
pub fn mention_text(users: &Vec<Participant>) -> (r: String)
    ensures
        r@ == mention_list(ids_of(users@)),
{
    let mut out: Vec<char> = Vec::new();
    push_mentions(&mut out, users);
    string_of(&out)
}

/// The intro post of a grid of `users` reported with `/shortname`.
pub fn intro_text(users: &Vec<Participant>, shortname: &str) -> (r: String)
    ensures
        r@ == intro_spec(ids_of(users@), shortname@),
{
    let mut out: Vec<char> = Vec::new();
    push_mentions(&mut out, users);
    push_all(&mut out, &intro_phrase_chars());
    push_all(&mut out, &chars_of(shortname));
    push_all(&mut out, &intro_close_chars());
    assert(out@ =~= intro_spec(ids_of(users@), shortname@));
    string_of(&out)
}

/// The length of the run of decimal digits at the front of `s`.
pub open spec fn digit_run(s: Seq<char>) -> nat
    decreases s.len(),
{
    if s.len() > 0 && is_digit(s[0]) {
        1 + digit_run(s.skip(1))
    } else {
        0
    }
}

/// The number of digits of a mention `<@digits>` at the front of `s`.
pub open spec fn mention_at(s: Seq<char>) -> Option<nat> {
    let d = digit_run(s.skip(2));
    if s.len() >= 2 && s[0] == '<' && s[1] == '@' && d >= 1 && 2 + d < s.len() && s[2 + d as int] == '>' {
        Some(d)
    } else {
        None
    }
}

/// The ids that the words of `s` mention, at most one per word; `found` says
/// that the current word already gave one. None if an id does not fit in a
/// `u64`.
pub open spec fn scan_mentions(s: Seq<char>, found: bool) -> Option<Seq<u64>>
    decreases s.len(),
{
    if s.len() == 0 {
        Some(Seq::empty())
    } else if s[0] == ' ' {
        scan_mentions(s.skip(1), false)
    } else if !found && mention_at(s) is Some {
        let d = mention_at(s)->0;
        let v = digits_value(s.subrange(2, 2 + d as int));
        if v > u64::MAX {
            None
        } else {
            match scan_mentions(s.skip(3 + d as int), true) {
                Some(rest) => Some(seq![v as u64] + rest),
                None => None,
            }
        }
    } else {
        scan_mentions(s.skip(1), found)
    }
}

/// Where the first `pat` in `t` starts, if anywhere.
pub open spec fn first_occurrence(t: Seq<char>, pat: Seq<char>, i: int) -> bool {
    occurs_at(t, i, pat) && forall|j: int| 0 <= j < i ==> !occurs_at(t, j, pat)
}

/// What an intro post says, read from its first mention of the command
/// phrase: the ids mentioned before it, and the command name after it, which
/// runs up to the next space and must be followed by the closing words.
pub open spec fn intro_fields(t: Seq<char>, i: int, k: int) -> bool {
    let rest = t.skip(i + intro_phrase().len());
    &&& first_occurrence(t, intro_phrase(), i)
    &&& 1 <= k < rest.len()
    &&& rest[k] == ' '
    &&& forall|j: int| 0 <= j < k ==> rest[j] != ' '
    &&& occurs_at(rest, k, intro_close())
}

/// Whether `t` is an intro post that mentions `ids` and names command `name`.
pub open spec fn reads_intro(t: Seq<char>, ids: Seq<u64>, name: Seq<char>) -> bool {
    exists|i: int, k: int|
        {
            &&& #[trigger] intro_fields(t, i, k)
            &&& name == t.skip(i + intro_phrase().len()).take(k)
            &&& scan_mentions(t.take(i), false) == Some(ids)
        }
}

/// Whether `t` has the shape of an intro post.
pub open spec fn is_intro(t: Seq<char>) -> bool {
    exists|i: int, k: int| #[trigger] intro_fields(t, i, k)
}

/// Whether `t` is an intro post with a mention too large for a `u64`.
pub open spec fn intro_bad_mention(t: Seq<char>) -> bool {
    exists|i: int, k: int|
        {
            &&& #[trigger] intro_fields(t, i, k)
            &&& scan_mentions(t.take(i), false) is None
        }
}

/// Why an intro post could not be read.
#[derive(Debug, Clone, Copy, PartialEq, Eq, Structural)]
pub enum IntroError {
    /// The text does not have the shape of an intro post.
    NotIntro,
    /// A mentioned id does not fit in a `u64`.
    BadMention,
}

/// The number of digits of a mention at position `j` of `t`.
pub fn mention_at_pos(t: &Vec<char>, j: usize) -> (r: Option<usize>)
    requires
        j <= t@.len(),
    ensures
        r == (match mention_at(t@.skip(j as int)) {
            Some(d) => Some(d as usize),
            None => None::<usize>,
        }),
        r matches Some(d) ==> j + 3 + d <= t@.len(),
{
    let ghost s = t@.skip(j as int);
    if t.len() - j < 2 || t[j] != '<' || t[j + 1] != '@' {
        return None;
    }
    let mut k: usize = j + 2;
    assert(s.skip(2) =~= t@.skip(k as int));
    while k < t.len() && '0' <= t[k] && t[k] <= '9'
        invariant
            j + 2 <= k <= t@.len(),
            digit_run(s.skip(2)) == (k - j - 2) + digit_run(t@.skip(k as int)),
        decreases t.len() - k,
    {
        assert(t@.skip(k as int).skip(1) =~= t@.skip(k + 1));
        k = k + 1;
    }
    assert(digit_run(t@.skip(k as int)) == 0);
    let d = k - j - 2;
    if d >= 1 && k < t.len() && t[k] == '>' {
        Some(d)
    } else {
        None
    }
}

/// The ids that the words of `t[..end]` mention, one per word at most.
pub fn read_mentions(t: &Vec<char>, end: usize) -> (r: Option<Vec<u64>>)
    requires
        end <= t@.len(),
    ensures
        match r {
            Some(ids) => scan_mentions(t@.take(end as int), false) == Some(ids@),
            None => scan_mentions(t@.take(end as int), false) is None,
        },
{
    let ghost part = t@.take(end as int);
    let part_v = take_chars(t, end);
    let mut out: Vec<u64> = Vec::new();
    let mut found = false;
    let mut j: usize = 0;
    assert(part.skip(0) =~= part);
    while j < end
        invariant
            end <= t@.len(),
            part == t@.take(end as int),
            part_v@ == part,
            j <= end,
            match scan_mentions(part.skip(j as int), found) {
                Some(rest) => scan_mentions(part, false) == Some(out@ + rest),
                None => scan_mentions(part, false) is None,
            },
        decreases end - j,
    {
        let ghost s = part.skip(j as int);
        assert(s[0] == part_v@[j as int]);
        if part_v[j] == ' ' {
            assert(s.skip(1) =~= part.skip(j + 1));
            found = false;
            j = j + 1;
        } else {
            let m = if found { None } else { mention_at_pos(&part_v, j) };
            match m {
                Some(d) => {
                    let v = parse_digits(&part_v, j + 2, j + 2 + d);
                    proof {
                        assert(s.subrange(2, 2 + d as int) =~= part.subrange(j + 2, j + 2 + d));
                        lemma_digit_run_digits(s.skip(2), d as nat);
                        assert(s.skip(2).subrange(0, d as int) =~= s.subrange(2, 2 + d as int));
                        assert(s.skip(3 + d as int) =~= part.skip(j + 3 + d));
                    }
                    match v {
                        Some(v) => {
                            proof {
                                match scan_mentions(s.skip(3 + d as int), true) {
                                    Some(rest) => {
                                        assert(out@.push(v) + rest =~= out@ + (seq![v] + rest));
                                    },
                                    None => {},
                                }
                            }
                            out.push(v);
                            found = true;
                            j = j + 3 + d;
                        },
                        None => {
                            return None;
                        },
                    }
                },
                None => {
                    assert(s.skip(1) =~= part.skip(j + 1));
                    j = j + 1;
                },
            }
        }
    }
    proof {
        assert(part.skip(j as int).len() == 0);
        assert(out@ + Seq::<u64>::empty() =~= out@);
    }
    Some(out)
}

/// The digits that `digit_run` counts are digits.
proof fn lemma_digit_run_digits(s: Seq<char>, d: nat)
    requires
        d <= digit_run(s),
    ensures
        all_digits(s.subrange(0, d as int)),
    decreases d,
{
    lemma_digit_run_len(s);
    if d > 0 {
        lemma_digit_run_digits(s.skip(1), (d - 1) as nat);
        assert(is_digit(s[0]));
        assert forall|i: int| 0 <= i < d implies is_digit(#[trigger] s.subrange(0, d as int)[i]) by {
            if i > 0 {
                assert(s.subrange(0, d as int)[i] == s.skip(1).subrange(0, d - 1)[i - 1]);
            }
        }
    }
}

proof fn lemma_digit_run_len(s: Seq<char>)
    ensures
        digit_run(s) <= s.len(),
    decreases s.len(),
{
    if s.len() > 0 && is_digit(s[0]) {
        lemma_digit_run_len(s.skip(1));
    }
}

/// The first `end` characters of `t`.
pub fn take_chars(t: &Vec<char>, end: usize) -> (r: Vec<char>)
    requires
        end <= t@.len(),
    ensures
        r@ == t@.take(end as int),
{
    let mut out: Vec<char> = Vec::new();
    let mut i: usize = 0;
    while i < end
        invariant
            i <= end <= t@.len(),
            out@ == t@.take(i as int),
        decreases end - i,
    {
        out.push(t[i]);
        i = i + 1;
        assert(out@ =~= t@.take(i as int));
    }
    out
}

/// Reads the ids of the players and the command name from an intro post.
pub fn parse_intro(text: &str) -> (r: Result<(Vec<u64>, String), IntroError>)
    ensures
        match r {
            Ok((ids, name)) => reads_intro(text@, ids@, name@),
            Err(IntroError::NotIntro) => !is_intro(text@),
            Err(IntroError::BadMention) => intro_bad_mention(text@),
        },
{
    let t = chars_of(text);
    let phrase = intro_phrase_chars();
    let close = intro_close_chars();
    let mut i: usize = 0;
    while i < t.len() && !crate::text::matches_at(&t, i, &phrase)
        invariant
            i <= t@.len(),
            phrase@ == intro_phrase(),
            forall|j: int| 0 <= j < i ==> !occurs_at(t@, j, intro_phrase()),
        decreases t.len() - i,
    {
        i = i + 1;
    }
    if i >= t.len() {
        proof {
            assert forall|a: int, k: int| !#[trigger] intro_fields(text@, a, k) by {
                if intro_fields(text@, a, k) {
                    assert(occurs_at(t@, a, intro_phrase()));
                }
            }
        }
        return Err(IntroError::NotIntro);
    }
    assert(first_occurrence(t@, intro_phrase(), i as int));
    let start = i + phrase.len();
    let ghost rest = t@.skip(start as int);
    let mut k: usize = start;
    while k < t.len() && t[k] != ' '
        invariant
            start <= k <= t@.len(),
            rest == t@.skip(start as int),
            forall|j: int| 0 <= j < k - start ==> rest[j] != ' ',
        decreases t.len() - k,
    {
        k = k + 1;
    }
    proof {
        assert forall|a: int, b: int| #[trigger] intro_fields(text@, a, b) implies a == i && b == k - start by {
            if a < i {
                assert(!occurs_at(t@, a, intro_phrase()));
            }
            if a > i {
                assert(occurs_at(t@, i as int, intro_phrase()));
            }
            if b < k - start {
                assert(rest[b] != ' ');
            }
            if b > k - start {
                assert(rest[k - start] == ' ');
            }
        }
    }
    if k == start || k >= t.len() || !crate::text::matches_at(&t, k, &close) {
        proof {
            assert forall|a: int, b: int| !#[trigger] intro_fields(text@, a, b) by {
                if intro_fields(text@, a, b) {
                    assert(a == i && b == k - start);
                    let r2 = t@.skip(start as int);
                    assert(r2.subrange(b, b + intro_close().len()) =~= t@.subrange(k as int, k + intro_close().len()));
                }
            }
        }
        return Err(IntroError::NotIntro);
    }
    proof {
        assert(rest.subrange(k - start, k - start + intro_close().len()) =~= t@.subrange(k as int, k + intro_close().len()));
        assert(intro_fields(text@, i as int, k - start));
    }
    let name_v = take_from(&t, start, k);
    let name = string_of(&name_v);
    assert(name@ == text@.skip(i + intro_phrase().len()).take(k - start));
    match read_mentions(&t, i) {
        Some(ids) => {
            assert(intro_fields(text@, i as int, k - start));
            Ok((ids, name))
        },
        None => {
            assert(intro_fields(text@, i as int, k - start));
            Err(IntroError::BadMention)
        },
    }
}

/// The characters `t[lo..hi]`.
pub fn take_from(t: &Vec<char>, lo: usize, hi: usize) -> (r: Vec<char>)
    requires
        lo <= hi <= t@.len(),
    ensures
        r@ == t@.subrange(lo as int, hi as int),
        r@ == t@.skip(lo as int).take(hi - lo),
{
    let mut out: Vec<char> = Vec::new();
    let mut i: usize = lo;
    while i < hi
        invariant
            lo <= i <= hi <= t@.len(),
            out@ == t@.subrange(lo as int, i as int),
        decreases hi - i,
    {
        out.push(t[i]);
        i = i + 1;
        assert(out@ =~= t@.subrange(lo as int, i as int));
    }
    assert(t@.skip(lo as int).take(hi - lo) =~= t@.subrange(lo as int, hi as int));
    out
}

proof fn lemma_decimal_digits(v: nat)
    ensures
        decimal(v).len() >= 1,
        all_digits(decimal(v)),
        digits_value(decimal(v)) == v,
    decreases v,
{
    let digits = seq!['0', '1', '2', '3', '4', '5', '6', '7', '8', '9'];
    assert forall|d: nat| d < 10 implies is_digit(crate::grid::digit_char(d)) && digit_value(crate::grid::digit_char(d)) == d by {
        assert(digits[d as int] == crate::grid::digit_char(d));
        assert(digits[0] == '0' && digits[1] == '1' && digits[2] == '2' && digits[3] == '3' && digits[4] == '4');
        assert(digits[5] == '5' && digits[6] == '6' && digits[7] == '7' && digits[8] == '8' && digits[9] == '9');
    }
    let d = decimal(v);
    if v >= 10 {
        lemma_decimal_digits(v / 10);
        assert(d.drop_last() =~= decimal(v / 10));
        assert(d.last() == crate::grid::digit_char(v % 10));
        assert forall|i: int| 0 <= i < d.len() implies is_digit(#[trigger] d[i]) by {
            if i < d.len() - 1 {
                assert(d[i] == decimal(v / 10)[i]);
            }
        }
        assert(digits_value(d) == digits_value(decimal(v / 10)) * 10 + digit_value(d.last()));
        assert((v / 10) * 10 + v % 10 == v);
    } else {
        assert(d.drop_last() =~= Seq::<char>::empty());
        assert(digits_value(d) == digits_value(d.drop_last()) * 10 + digit_value(d.last()));
        assert(d.last() == crate::grid::digit_char(v));
    }
}

proof fn lemma_digit_run_of_digits(d: Seq<char>, rest: Seq<char>)
    requires
        all_digits(d),
        rest.len() > 0,
        !is_digit(rest[0]),
    ensures
        digit_run(d + rest) == d.len(),
    decreases d.len(),
{
    if d.len() == 0 {
        assert(d + rest =~= rest);
    } else {
        assert((d + rest)[0] == d[0]);
        assert((d + rest).skip(1) =~= d.skip(1) + rest);
        assert forall|i: int| 0 <= i < d.skip(1).len() implies is_digit(#[trigger] d.skip(1)[i]) by {
            assert(d.skip(1)[i] == d[i + 1]);
        }
        lemma_digit_run_of_digits(d.skip(1), rest);
    }
}

/// A mention followed by a space is read as its id, whatever comes after.
proof fn lemma_scan_mention(id: u64, rest: Seq<char>)
    ensures
        scan_mentions(mention(id) + seq![' '] + rest, false) == match scan_mentions(rest, false) {
            Some(more) => Some(seq![id] + more),
            None => None::<Seq<u64>>,
        },
{
    let d = decimal(id as nat);
    let s = mention(id) + seq![' '] + rest;
    lemma_decimal_digits(id as nat);
    assert(s =~= seq!['<', '@'] + (d + (seq!['>', ' '] + rest)));
    assert(s.skip(2) =~= d + (seq!['>', ' '] + rest));
    lemma_digit_run_of_digits(d, seq!['>', ' '] + rest);
    assert(s[0] == '<' && s[1] == '@');
    assert(s[2 + d.len() as int] == '>');
    assert(mention_at(s) == Some(d.len()));
    assert(s.subrange(2, 2 + d.len() as int) =~= d);
    let after = s.skip(3 + d.len() as int);
    assert(after =~= seq![' '] + rest);
    assert(after.skip(1) =~= rest);
    assert(after[0] == ' ');
    assert(scan_mentions(after, true) == scan_mentions(rest, false));
    assert(digits_value(s.subrange(2, 2 + d.len() as int)) == id);
    assert(s[0] != ' ');
}

proof fn lemma_mention_list_front(ids: Seq<u64>)
    requires
        ids.len() > 0,
    ensures
        mention_list(ids) == mention(ids[0]) + seq![' '] + mention_list(ids.skip(1)),
    decreases ids.len(),
{
    if ids.len() == 1 {
        assert(ids.drop_last() =~= Seq::<u64>::empty());
        assert(ids.skip(1) =~= Seq::<u64>::empty());
        assert(mention_list(ids) =~= mention(ids[0]) + seq![' '] + mention_list(ids.skip(1)));
    } else {
        lemma_mention_list_front(ids.drop_last());
        assert(ids.drop_last().skip(1) =~= ids.skip(1).drop_last());
        assert(ids.skip(1).last() == ids.last());
        assert(mention_list(ids) =~= mention(ids[0]) + seq![' '] + mention_list(ids.skip(1)));
    }
}

proof fn lemma_scan_mention_list(ids: Seq<u64>, rest: Seq<char>)
    requires
        scan_mentions(rest, false) == Some(Seq::<u64>::empty()),
    ensures
        scan_mentions(mention_list(ids) + rest, false) == Some(ids),
    decreases ids.len(),
{
    if ids.len() == 0 {
        assert(mention_list(ids) + rest =~= rest);
    } else {
        lemma_mention_list_front(ids);
        lemma_scan_mention_list(ids.skip(1), rest);
        assert(mention_list(ids) + rest =~= mention(ids[0]) + seq![' '] + (mention_list(ids.skip(1)) + rest));
        lemma_scan_mention(ids[0], mention_list(ids.skip(1)) + rest);
        assert(seq![ids[0]] + ids.skip(1) =~= ids);
    }
}

/// The characters that a mention list is made of.
proof fn lemma_mention_list_chars(ids: Seq<u64>)
    ensures
        forall|i: int| 0 <= i < mention_list(ids).len() ==> {
            let c = #[trigger] mention_list(ids)[i];
            c == '<' || c == '@' || c == '>' || c == ' ' || is_digit(c)
        },
        mention_list(ids).len() > 0 ==> mention_list(ids).last() == ' ',
    decreases ids.len(),
{
    if ids.len() > 0 {
        lemma_mention_list_chars(ids.drop_last());
        let id = ids.last();
        lemma_decimal_digits(id as nat);
        let head = mention_list(ids.drop_last());
        let d = decimal(id as nat);
        let m = mention_list(ids);
        assert(m =~= head + seq!['<', '@'] + d + seq!['>', ' ']);
        assert forall|i: int| 0 <= i < m.len() implies {
            let c = #[trigger] m[i];
            c == '<' || c == '@' || c == '>' || c == ' ' || is_digit(c)
        } by {
            if i < head.len() {
                assert(m[i] == head[i]);
            } else if i >= head.len() + 2 && i < head.len() + 2 + d.len() {
                assert(m[i] == d[i - head.len() - 2]);
            }
        }
    }
}

/// No phrase that starts with a space and then `R` starts inside a mention
/// list, or at its last space.
proof fn lemma_no_early_phrase(ids: Seq<u64>, ph: Seq<char>, tail: Seq<char>)
    requires
        ph.len() >= 2,
        ph[0] == ' ',
        ph[1] == 'R',
        occurs_at(tail, 0, ph),
    ensures
        forall|j: int| 0 <= j < mention_list(ids).len() ==> !occurs_at(mention_list(ids) + tail, j, ph),
{
    let ml = mention_list(ids);
    let t = ml + tail;
    lemma_mention_list_chars(ids);
    assert(tail.subrange(0, ph.len() as int)[0] == ph[0]);
    assert forall|j: int| 0 <= j < ml.len() implies !occurs_at(t, j, ph) by {
        if occurs_at(t, j, ph) {
            assert(t.subrange(j, j + ph.len())[1] == ph[1]);
            if j + 1 < ml.len() {
                assert(t[j + 1] == ml[j + 1]);
            } else {
                assert(t[j + 1] == tail[0]);
            }
        }
    }
}

/// The text after the command phrase: the command name, then the closing words.
proof fn lemma_name_then_close(shortname: Seq<char>, cl: Seq<char>)
    requires
        shortname.len() >= 1,
        forall|i: int| 0 <= i < shortname.len() ==> shortname[i] != ' ',
        cl.len() >= 1,
        cl[0] == ' ',
    ensures
        ({
            let rest = shortname + cl;
            let k = shortname.len() as int;
            &&& 1 <= k < rest.len()
            &&& rest[k] == ' '
            &&& forall|j: int| 0 <= j < k ==> rest[j] != ' '
            &&& occurs_at(rest, k, cl)
            &&& rest.take(k) == shortname
        }),
{
    let rest = shortname + cl;
    let k = shortname.len() as int;
    assert(rest.subrange(k, k + cl.len()) =~= cl);
    assert(rest.take(k) =~= shortname);
    assert forall|j: int| 0 <= j < k implies rest[j] != ' ' by {
        assert(rest[j] == shortname[j]);
    }
}

/// The intro post that a grid is created with reads back as its players' ids
/// and its command name, for a command name without spaces.
pub proof fn lemma_intro_round_trip(ids: Seq<u64>, shortname: Seq<char>)
    requires
        shortname.len() >= 1,
        forall|i: int| 0 <= i < shortname.len() ==> shortname[i] != ' ',
    ensures
        reads_intro(intro_spec(ids, shortname), ids, shortname),
{
    let ml = mention_list(ids);
    let t = intro_spec(ids, shortname);
    let ph = intro_phrase();
    let cl = intro_close();
    let i = ml.len() as int;
    let k = shortname.len() as int;
    let tail = ph + (shortname + cl);
    assert(ph[0] == ' ' && ph[1] == 'R' && ph.len() >= 2);
    assert(cl[0] == ' ' && cl.len() >= 1);
    assert(t =~= ml + tail);
    assert(tail.subrange(0, ph.len() as int) =~= ph);
    lemma_no_early_phrase(ids, ph, tail);
    assert(t.subrange(i, i + ph.len()) =~= ph);
    assert(first_occurrence(t, ph, i));
    assert(t.skip(i + ph.len()) =~= shortname + cl);
    lemma_name_then_close(shortname, cl);
    assert(intro_fields(t, i, k));
    assert(t.take(i) =~= ml + Seq::<char>::empty());
    assert(scan_mentions(Seq::<char>::empty(), false) == Some(Seq::<u64>::empty()));
    lemma_scan_mention_list(ids, Seq::empty());
}

} // verus!
