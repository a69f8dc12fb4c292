use match_matrix::grid::{legend_text, DecodeError, Participant};
use match_matrix::group::GuildState;
use match_matrix::intro::{intro_text, parse_intro, parse_u64, IntroError};
use match_matrix::recovery::{read_intro, rebuild, HistoryPost, RecoverError};

fn p(id: u64, name: &str) -> Participant {
    Participant { id, name: name.to_string() }
}

fn post(id: u64, from_bot: bool, content: &str) -> HistoryPost {
    HistoryPost { id, from_bot, content: content.to_string() }
}

fn running() -> GuildState {
    let mut g = GuildState::new();
    g.begin("Spring Cup".to_string(), "cup").unwrap();
    g.add_participant(p(11, "Ann")).unwrap();
    g.add_participant(p(22, "Ben")).unwrap();
    g.create(5, vec![101]).unwrap();
    g.report_result_command("cup", 11, "22", "2-1").unwrap();
    g.findable("", 22, false).unwrap();
    g
}

#[test]
fn parse_u64_cases() {
    assert_eq!(parse_u64("0"), Some(0));
    assert_eq!(parse_u64("183433751689166850"), Some(183433751689166850));
    assert_eq!(parse_u64("18446744073709551615"), Some(u64::MAX));
    assert_eq!(parse_u64("18446744073709551616"), None);
    assert_eq!(parse_u64(""), None);
    assert_eq!(parse_u64("12a"), None);
    assert_eq!(parse_u64("-1"), None);
}

#[test]
fn intro_round_trips() {
    let users = vec![p(11, "Ann"), p(22, "Ben")];
    let text = intro_text(&users, "cup");
    assert_eq!(text, "<@11> <@22>  Report your results here using the command /cup or /result");
    let (ids, name) = parse_intro(&text).unwrap();
    assert_eq!(ids, vec![11, 22]);
    assert_eq!(name, "cup");
}

#[test]
fn intro_reads_one_mention_per_word() {
    let (ids, name) =
        parse_intro("hi <@1><@2> x<@3>y <@> <@4 Report your results here using the command /abc or /result and more")
            .unwrap();
    assert_eq!(ids, vec![1, 3]);
    assert_eq!(name, "abc");
}

#[test]
fn intro_errors() {
    assert_eq!(parse_intro("hello").unwrap_err(), IntroError::NotIntro);
    assert_eq!(
        parse_intro("<@1> Report your results here using the command /cup and /result").unwrap_err(),
        IntroError::NotIntro
    );
    assert_eq!(
        parse_intro("<@99999999999999999999> Report your results here using the command /cup or /result")
            .unwrap_err(),
        IntroError::BadMention
    );
    assert_eq!(read_intro(&vec![]).unwrap_err(), RecoverError::NoIntro);
}

#[test]
fn rebuild_from_history_with_legend() {
    let g = running();
    let m = &g.tournaments[0].matrix;
    let blocks = m.render().unwrap();
    let intro = intro_text(&m.users, "cup");
    let history = vec![
        post(103, true, &legend_text()),
        post(101, true, &blocks[0]),
        post(100, true, &intro),
    ];
    let (ids, name) = read_intro(&history).unwrap();
    assert_eq!(ids, vec![11, 22]);
    let users = vec![p(11, "Ann"), p(22, "Ben")];
    let rec = rebuild(&history, users, name, 5, "Spring Cup".to_string()).unwrap();
    assert_eq!(rec.legend_fix, None);
    assert_eq!(rec.tournament.shortname, "cup");
    assert_eq!(rec.tournament.matrix.results, m.results);
    assert_eq!(rec.tournament.matrix.disabled_fam, m.disabled_fam);
    assert_eq!(rec.tournament.matrix.mainposts, vec![101]);
    let mut fresh = GuildState::new();
    fresh.register(rec.tournament);
    assert_eq!(fresh.tournaments.len(), 1);
}

#[test]
fn rebuild_restores_a_missing_legend() {
    let g = running();
    let m = &g.tournaments[0].matrix;
    let blocks = m.render().unwrap();
    let intro = intro_text(&m.users, "cup");
    let history = vec![
        post(104, false, "a person: hello"),
        post(103, true, "note: no tokens"),
        post(101, true, &blocks[0]),
        post(100, true, &intro),
    ];
    let users = vec![p(11, "Ann"), p(22, "Ben")];
    let rec = rebuild(&history, users, "cup".to_string(), 5, "Spring Cup".to_string()).unwrap();
    assert_eq!(rec.legend_fix, Some(103));
    assert_eq!(rec.tournament.matrix.mainposts, vec![101]);
    assert_eq!(rec.tournament.matrix.results, m.results);
}

#[test]
fn rebuild_errors() {
    let g = running();
    let m = &g.tournaments[0].matrix;
    let blocks = m.render().unwrap();
    let users = || vec![p(11, "Ann"), p(22, "Ben")];
    let only_grid = vec![post(101, true, &blocks[0]), post(100, true, "intro")];
    assert_eq!(
        rebuild(&only_grid, users(), "cup".to_string(), 5, "T".to_string()).unwrap_err(),
        RecoverError::Decode(DecodeError::UnexpectedSymbolCount { excess: 0 })
    );
    let short = vec![post(101, true, ":cloud: :cloud:"), post(100, true, "intro")];
    assert_eq!(
        rebuild(&short, users(), "cup".to_string(), 5, "T".to_string()).unwrap_err(),
        RecoverError::Decode(DecodeError::InsufficientSymbols { found: 2 })
    );
}

#[test]
fn rebuild_from_several_blocks() {
    let mut g = GuildState::new();
    g.begin("Big Cup".to_string(), "big").unwrap();
    for i in 1..=12u64 {
        g.add_participant(p(i, &format!("P{}", i))).unwrap();
    }
    let plan = g.plan_create().unwrap();
    assert_eq!(plan.blocks.len(), 3);
    g.create(5, vec![201, 202, 203]).unwrap();
    g.report_result_command("big", 3, "9", "1-2").unwrap();
    g.findable("big", 12, false).unwrap();
    let m = &g.tournaments[0].matrix;
    let blocks = m.render().unwrap();
    let history = vec![
        post(204, true, &legend_text()),
        post(203, true, &blocks[2]),
        post(202, true, &blocks[1]),
        post(201, true, &blocks[0]),
        post(200, true, &plan.intro),
    ];
    let (ids, name) = read_intro(&history).unwrap();
    assert_eq!(ids, (1..=12u64).collect::<Vec<_>>());
    let users = (1..=12u64).map(|i| p(i, &format!("P{}", i))).collect();
    let rec = rebuild(&history, users, name, 5, "Big Cup".to_string()).unwrap();
    assert_eq!(rec.legend_fix, None);
    assert_eq!(rec.tournament.matrix.mainposts, vec![201, 202, 203]);
    assert_eq!(rec.tournament.matrix.results, m.results);
    assert_eq!(rec.tournament.matrix.disabled_fam, m.disabled_fam);
    assert_eq!(rec.tournament.matrix.render().unwrap(), blocks);
}
