use match_matrix::outcome::MatchResult;

const ALL: [MatchResult; 6] = [
    MatchResult::NotPlayed,
    MatchResult::TwoZero,
    MatchResult::TwoOne,
    MatchResult::OneTwo,
    MatchResult::ZeroTwo,
    MatchResult::Unplayable,
];

#[test]
fn invert_twice_is_identity() {
    for r in ALL {
        assert_eq!(r.invert().invert(), r);
    }
}

#[test]
fn invert_swaps_wins_and_losses() {
    assert_eq!(MatchResult::TwoZero.invert(), MatchResult::ZeroTwo);
    assert_eq!(MatchResult::TwoOne.invert(), MatchResult::OneTwo);
    assert_eq!(MatchResult::OneTwo.invert(), MatchResult::TwoOne);
    assert_eq!(MatchResult::ZeroTwo.invert(), MatchResult::TwoZero);
    assert_eq!(MatchResult::NotPlayed.invert(), MatchResult::NotPlayed);
    assert_eq!(MatchResult::Unplayable.invert(), MatchResult::Unplayable);
}

#[test]
fn get_reads_scores() {
    assert_eq!(MatchResult::get("2-0"), MatchResult::TwoZero);
    assert_eq!(MatchResult::get("2-1"), MatchResult::TwoOne);
    assert_eq!(MatchResult::get("1-2"), MatchResult::OneTwo);
    assert_eq!(MatchResult::get("0-2"), MatchResult::ZeroTwo);
    assert_eq!(MatchResult::get("0-0"), MatchResult::NotPlayed);
}

#[test]
fn get_reads_symbols() {
    assert_eq!(MatchResult::get(":full_moon:"), MatchResult::TwoZero);
    assert_eq!(MatchResult::get(":waning_gibbous_moon:"), MatchResult::TwoOne);
    assert_eq!(MatchResult::get(":waxing_crescent_moon:"), MatchResult::OneTwo);
    assert_eq!(MatchResult::get(":new_moon:"), MatchResult::ZeroTwo);
    assert_eq!(MatchResult::get(":cloud:"), MatchResult::NotPlayed);
}

#[test]
fn get_unknown_text_is_unplayable() {
    assert_eq!(MatchResult::get("3-0"), MatchResult::Unplayable);
    assert_eq!(MatchResult::get(""), MatchResult::Unplayable);
    assert_eq!(MatchResult::get(":black_small_square:"), MatchResult::Unplayable);
    assert_eq!(MatchResult::get("2-0 "), MatchResult::Unplayable);
}

#[test]
fn render_gives_symbols() {
    assert_eq!(MatchResult::NotPlayed.render(), ":cloud:");
    assert_eq!(MatchResult::TwoZero.render(), ":full_moon:");
    assert_eq!(MatchResult::TwoOne.render(), ":waning_gibbous_moon:");
    assert_eq!(MatchResult::OneTwo.render(), ":waxing_crescent_moon:");
    assert_eq!(MatchResult::ZeroTwo.render(), ":new_moon:");
    assert_eq!(MatchResult::Unplayable.render(), ":black_small_square:");
}

#[test]
fn render_then_get_round_trips() {
    for r in ALL {
        if r != MatchResult::Unplayable {
            assert_eq!(MatchResult::get(&r.render()), r);
        }
    }
}
