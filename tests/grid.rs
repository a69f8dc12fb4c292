use std::collections::HashSet;

use match_matrix::grid::{decode_grid, legend_text, render_grid, DecodeError, Participant, RenderError};
use match_matrix::matrix::{MatchMatrix, MatrixError};
use match_matrix::outcome::MatchResult;

fn players(names: &[(u64, &str)]) -> Vec<Participant> {
    names.iter().map(|(id, name)| Participant { id: *id, name: name.to_string() }).collect()
}

fn new_matrix(names: &[(u64, &str)], posts: usize) -> MatchMatrix {
    MatchMatrix::initialize(99, "Cup".to_string(), players(names), (1..=posts as u64).collect()).unwrap()
}

#[test]
fn two_players_initial_render() {
    let m = new_matrix(&[(1, "Alice"), (2, "Bob")], 1);
    let n = 2;
    for a in 0..n {
        for b in 0..n {
            let expected = if a == b { MatchResult::Unplayable } else { MatchResult::NotPlayed };
            assert_eq!(m.results[b * n + a], expected);
        }
    }
    let blocks = m.render().unwrap();
    assert_eq!(blocks.len(), 1);
    assert_eq!(
        blocks[0],
        "Cup\n:black_small_square: :cloud: 0/0 Alice\n:cloud: :black_small_square: 0/0 Bob\n\
         :regional_indicator_a: :regional_indicator_b: \n_ _"
    );
}

#[test]
fn three_players_report() {
    let mut m = new_matrix(&[(1, "P1"), (2, "P2"), (3, "P3")], 1);
    m.report(1, 2, MatchResult::get("2-1")).unwrap();
    let n = 3;
    // The cell (a, b) sits at b * n + a.
    assert_eq!(m.results[1 * n + 0], MatchResult::OneTwo);
    assert_eq!(m.results[0 * n + 1], MatchResult::TwoOne);
    // Each line counts the results shown on it: the reporter's line shows
    // the win.
    assert_eq!(m.summary(1), Some((1, 1)));
    assert_eq!(m.summary(2), Some((0, 1)));
    assert_eq!(m.summary(3), Some((0, 0)));
    let blocks = m.render().unwrap();
    assert!(blocks[0].contains(":black_small_square: :waning_gibbous_moon: :cloud: 1/1 P1\n"));
    assert!(blocks[0].contains(":waxing_crescent_moon: :black_small_square: :cloud: 0/1 P2\n"));
}

#[test]
fn four_players_one_and_two_blocks() {
    let users = players(&[(1, "Ann"), (2, "Ben"), (3, "Cy"), (4, "Dee")]);
    let results = MatchMatrix::initial_results(4);
    let none = HashSet::new();
    let one = render_grid(&users, &results, &none, "Cup", 1).unwrap();
    assert_eq!(one.len(), 1);
    assert!(one[0].starts_with("Cup\n"));
    assert_eq!(one[0].matches(" Ann\n").count() + one[0].matches(" Ben\n").count(), 2);
    assert!(one[0].contains(" Cy\n") && one[0].contains(" Dee\n"));
    assert!(one[0].ends_with(
        ":regional_indicator_a: :regional_indicator_b: :regional_indicator_c: :regional_indicator_d: \n_ _"
    ));
    let two = render_grid(&users, &results, &none, "Cup", 2).unwrap();
    assert_eq!(two.len(), 2);
    assert!(two[0].starts_with("Cup\n"));
    assert!(two[0].contains(" Ann\n") && two[0].contains(" Ben\n") && two[0].contains(" Cy\n"));
    assert!(!two[0].contains(":regional_indicator_"));
    assert!(two[1].starts_with(":cloud: :cloud: :cloud: :black_small_square: 0/0 Dee\n"));
    assert!(two[1].contains(":regional_indicator_a:"));
    assert_eq!(format!("{}{}", two[0], two[1]), one[0]);
}

#[test]
fn render_reports_block_mismatch() {
    let users = players(&[(1, "Ann"), (2, "Ben"), (3, "Cy"), (4, "Dee")]);
    let results = MatchMatrix::initial_results(4);
    let r = render_grid(&users, &results, &HashSet::new(), "Cup", 4);
    assert_eq!(r, Err(RenderError::BlockMismatch { made: 3, requested: 4 }));
}

#[test]
fn index_glyphs_follow_first_alphanumeric() {
    let users = players(&[(1, "_Zed"), (2, "7even"), (3, "!!")]);
    let results = MatchMatrix::initial_results(3);
    let b = render_grid(&users, &results, &HashSet::new(), "T", 1).unwrap();
    assert!(b[0].ends_with(":regional_indicator_z: :number_7: :asterisk: \n_ _"));
}

#[test]
fn five_leftover_symbols_fail() {
    let m = new_matrix(&[(1, "Ann"), (2, "Ben")], 1);
    let blocks = m.render().unwrap();
    let text = format!("{}{}", blocks[0], ":cloud: :full_moon: :new_moon: :cloud: :cloud:");
    let r = decode_grid(&text, &m.users);
    assert_eq!(r.unwrap_err(), DecodeError::UnexpectedSymbolCount { excess: 5 });
}

#[test]
fn decode_too_few_symbols() {
    let users = players(&[(1, "Ann"), (2, "Ben")]);
    let r = decode_grid("T\n:cloud: :cloud: :cloud:", &users);
    assert_eq!(r.unwrap_err(), DecodeError::InsufficientSymbols { found: 3 });
}

#[test]
fn render_then_decode_round_trips() {
    let mut m = new_matrix(&[(1, "Ann"), (2, "Ben"), (3, "Cy")], 2);
    m.report(1, 2, MatchResult::TwoZero).unwrap();
    m.report(3, 1, MatchResult::OneTwo).unwrap();
    assert!(m.set_findable(2, false));
    let blocks = m.render().unwrap();
    assert_eq!(blocks.len(), 2);
    let d = decode_grid(&blocks.concat(), &m.users).unwrap();
    assert_eq!(d.results, m.results);
    assert_eq!(d.muted, m.disabled_fam);
    assert!(!d.legend_found);
}

#[test]
fn decode_finds_legend() {
    let m = new_matrix(&[(1, "Ann"), (2, "Ben")], 1);
    let text = format!("{}{}", m.render().unwrap()[0], legend_text());
    let d = decode_grid(&text, &m.users).unwrap();
    assert!(d.legend_found);
    assert_eq!(d.results, m.results);
}

#[test]
fn legend_text_is_exact() {
    assert_eq!(
        legend_text(),
        ":cloud: match available\n:full_moon: match won 2-0\n:waning_gibbous_moon: match won 2-1\n\
         :waxing_crescent_moon: match lost 1-2\n:new_moon: match lost 0-2\n:black_small_square: cannot play yourself"
    );
}

#[test]
fn self_match_is_refused() {
    let mut m = new_matrix(&[(1, "P1"), (2, "P2"), (3, "P3")], 1);
    let before = m.results.clone();
    assert_eq!(m.report(1, 1, MatchResult::get("2-0")), Err(MatrixError::SelfMatch));
    assert_eq!(m.results, before);
}

#[test]
fn report_unknown_participant() {
    let mut m = new_matrix(&[(1, "P1"), (2, "P2")], 1);
    assert_eq!(m.report(1, 7, MatchResult::TwoZero), Err(MatrixError::UnknownParticipant { id: 7 }));
    assert_eq!(m.report(7, 1, MatchResult::TwoZero), Err(MatrixError::UnknownParticipant { id: 7 }));
}

#[test]
fn initialize_refuses_duplicates_and_no_posts() {
    let dup = MatchMatrix::initialize(1, "T".to_string(), players(&[(1, "A"), (1, "B")]), vec![5]);
    assert_eq!(dup.unwrap_err(), MatrixError::DuplicateParticipant { id: 1 });
    let none = MatchMatrix::initialize(1, "T".to_string(), players(&[(1, "A")]), vec![]);
    assert_eq!(none.unwrap_err(), MatrixError::NoPosts);
}

#[test]
fn findable_twice_changes_nothing_the_second_time() {
    let mut m = new_matrix(&[(1, "Ann"), (2, "Ben")], 1);
    assert!(m.set_findable(2, false));
    assert!(m.render().unwrap()[0].contains("Ben:no_bell:\n"));
    assert!(!m.set_findable(2, false));
    assert!(m.set_findable(2, true));
    assert!(!m.set_findable(2, true));
    assert!(!m.render().unwrap()[0].contains(":no_bell:"));
    assert!(!m.set_findable(9, false));
}

#[test]
fn final_render_has_no_mute_marks() {
    let mut m = new_matrix(&[(1, "Ann"), (2, "Ben")], 1);
    m.set_findable(1, false);
    assert!(m.render().unwrap()[0].contains(":no_bell:"));
    assert!(!m.render_final().unwrap()[0].contains(":no_bell:"));
}

#[test]
fn summary_of_absent_player_is_none() {
    let m = new_matrix(&[(1, "Ann")], 1);
    assert_eq!(m.summary(2), None);
    assert_eq!(m.summary(1), Some((0, 0)));
}

#[test]
fn reports_keep_the_table_symmetric() {
    let mut m = new_matrix(&[(1, "A"), (2, "B"), (3, "C"), (4, "D")], 1);
    m.report(1, 2, MatchResult::TwoZero).unwrap();
    m.report(3, 1, MatchResult::OneTwo).unwrap();
    m.report(2, 4, MatchResult::get("0-2")).unwrap();
    m.report(4, 3, MatchResult::get("2-1")).unwrap();
    m.report(1, 2, MatchResult::get("0-0")).unwrap();
    let n = 4;
    for a in 0..n {
        assert_eq!(m.results[a * n + a], MatchResult::Unplayable);
        for b in 0..n {
            assert_eq!(m.results[b * n + a], m.results[a * n + b].invert());
        }
    }
}

#[test]
fn summary_matches_the_printed_line() {
    let mut m = new_matrix(&[(1, "Ann"), (2, "Ben"), (3, "Cy")], 1);
    m.report(1, 2, MatchResult::TwoZero).unwrap();
    m.report(1, 3, MatchResult::OneTwo).unwrap();
    m.report(2, 3, MatchResult::TwoOne).unwrap();
    let text = m.render().unwrap().concat();
    for (id, name) in [(1u64, "Ann"), (2, "Ben"), (3, "Cy")] {
        let (w, p) = m.summary(id).unwrap();
        assert!(text.contains(&format!(" {}/{} {}\n", w, p, name)));
    }
    assert_eq!(m.summary(1), Some((1, 2)));
    assert_eq!(m.summary(2), Some((1, 2)));
    assert_eq!(m.summary(3), Some((1, 2)));
}

#[test]
fn empty_grid_renders_header_and_footer() {
    let users: Vec<Participant> = Vec::new();
    let b = render_grid(&users, &Vec::new(), &HashSet::new(), "Empty", 1).unwrap();
    assert_eq!(b, vec!["Empty\n\n_ _".to_string()]);
    let d = decode_grid(&b[0], &users).unwrap();
    assert!(d.results.is_empty());
}

#[test]
fn many_players_split_into_the_budgeted_blocks() {
    let names: Vec<(u64, String)> = (1..=12u64).map(|i| (i, format!("P{}", i))).collect();
    let users: Vec<Participant> = names.iter().map(|(i, n)| Participant { id: *i, name: n.clone() }).collect();
    let results = MatchMatrix::initial_results(12);
    let count = match_matrix::group::block_count(12).unwrap();
    assert_eq!(count, 3);
    let blocks = render_grid(&users, &results, &HashSet::new(), "Big", count).unwrap();
    assert_eq!(blocks.len(), 3);
    assert!(blocks.iter().all(|b| b.chars().count() < 2000));
    let d = decode_grid(&blocks.concat(), &users).unwrap();
    assert_eq!(d.results, results);
}
