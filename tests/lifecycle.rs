use match_matrix::fam::{fam_pings, restrict_from, FamError, RestrictValues};
use match_matrix::grid::Participant;
use match_matrix::group::{block_count, CommandError, GuildState, SetupError};
use match_matrix::matrix::MatrixError;
use match_matrix::outcome::MatchResult;

fn p(id: u64, name: &str) -> Participant {
    Participant { id, name: name.to_string() }
}

fn running(names: &[(u64, &str)]) -> GuildState {
    let mut g = GuildState::new();
    g.begin("Spring Cup".to_string(), "Cup").unwrap();
    for (id, name) in names {
        g.add_participant(p(*id, name)).unwrap();
    }
    let plan = g.plan_create().unwrap();
    let posts: Vec<u64> = (100..100 + plan.blocks.len() as u64).collect();
    g.create(7, posts).unwrap();
    g
}

#[test]
fn begin_lowercases_the_command_name() {
    let mut g = GuildState::new();
    assert_eq!(g.begin("Spring Cup".to_string(), "Spring-Cup_2"), Ok(()));
    let s = g.setup.as_ref().unwrap();
    assert_eq!(s.shortname, "spring-cup_2");
    assert_eq!(s.threadname, "Spring Cup");
}

#[test]
fn begin_refuses_invalid_names() {
    let mut g = GuildState::new();
    assert_eq!(g.begin("T".to_string(), "two words"), Err(SetupError::InvalidName));
    assert_eq!(g.begin("T".to_string(), ""), Err(SetupError::InvalidName));
    assert_eq!(g.begin("T".to_string(), &"x".repeat(33)), Err(SetupError::InvalidName));
    assert!(g.setup.is_none());
    assert_eq!(g.begin("T".to_string(), &"x".repeat(32)), Ok(()));
}

#[test]
fn begin_twice_is_refused() {
    let mut g = GuildState::new();
    g.begin("T".to_string(), "a").unwrap();
    assert_eq!(g.begin("U".to_string(), "b"), Err(SetupError::SetupInProgress));
    assert_eq!(g.setup.as_ref().unwrap().shortname, "a");
}

#[test]
fn adding_a_player_twice_is_a_no_op() {
    let mut g = GuildState::new();
    assert_eq!(g.add_participant(p(1, "A")), Err(SetupError::NoSetup));
    g.begin("T".to_string(), "t").unwrap();
    assert_eq!(g.add_participant(p(1, "A")), Ok(true));
    assert_eq!(g.add_participant(p(1, "A again")), Ok(false));
    assert_eq!(g.add_participant(p(2, "B")), Ok(true));
    assert_eq!(g.setup.as_ref().unwrap().users.len(), 2);
}

#[test]
fn cancel_drops_the_setup() {
    let mut g = GuildState::new();
    assert_eq!(g.cancel(), Err(SetupError::NoSetup));
    g.begin("T".to_string(), "t").unwrap();
    assert_eq!(g.cancel(), Ok(()));
    assert!(g.setup.is_none());
}

#[test]
fn plan_create_gives_intro_blocks_and_legend() {
    let mut g = GuildState::new();
    assert_eq!(g.plan_create().unwrap_err(), SetupError::NoSetup);
    g.begin("Spring Cup".to_string(), "cup").unwrap();
    g.add_participant(p(11, "Ann")).unwrap();
    g.add_participant(p(22, "Ben")).unwrap();
    let plan = g.plan_create().unwrap();
    assert_eq!(plan.intro, "<@11> <@22>  Report your results here using the command /cup or /result");
    assert_eq!(plan.blocks.len(), 1);
    assert!(plan.blocks[0].starts_with("Spring Cup\n:black_small_square: :cloud: 0/0 Ann\n"));
    assert!(plan.legend.starts_with(":cloud: match available\n"));
}

#[test]
fn create_without_posts_keeps_the_setup() {
    let mut g = GuildState::new();
    assert_eq!(g.create(1, vec![5]), Err(SetupError::NoSetup));
    g.begin("T".to_string(), "t").unwrap();
    g.add_participant(p(1, "A")).unwrap();
    assert_eq!(g.create(1, vec![]), Err(SetupError::Matrix(MatrixError::NoPosts)));
    assert!(g.setup.is_some());
    assert_eq!(g.create(1, vec![5]), Ok(()));
    assert!(g.setup.is_none());
    assert_eq!(g.tournaments.len(), 1);
    assert_eq!(g.tournaments[0].shortname, "t");
    assert_eq!(g.tournaments[0].matrix.mainposts, vec![5]);
}

#[test]
fn create_replaces_a_grid_of_the_same_name() {
    let mut g = running(&[(1, "A"), (2, "B")]);
    g.begin("Again".to_string(), "CUP").unwrap();
    g.add_participant(p(3, "C")).unwrap();
    g.create(8, vec![1]).unwrap();
    assert_eq!(g.tournaments.len(), 1);
    assert_eq!(g.tournaments[0].matrix.threadname, "Again");
    assert_eq!(g.find_by_thread(8), Some(0));
    assert_eq!(g.find_by_thread(7), None);
}

#[test]
fn block_count_follows_the_budget() {
    assert_eq!(block_count(1), Some(1));
    assert_eq!(block_count(2), Some(1));
    assert_eq!(block_count(8), Some(2));
    assert_eq!(block_count(20), Some(7));
    assert_eq!(block_count(usize::MAX), None);
}

#[test]
fn report_by_command_name() {
    let mut g = running(&[(1, "Ann"), (2, "Ben"), (3, "Cy")]);
    let rep = g.report_result_command("cup", 1, "2", "2-0").unwrap();
    assert_eq!(rep.index, 0);
    assert_eq!(rep.blocks.len(), 1);
    assert!(rep.blocks[0].contains(":black_small_square: :full_moon: :cloud: 1/1 Ann\n"));
    assert_eq!(g.tournaments[0].matrix.summary(2), Some((0, 1)));
}

#[test]
fn report_errors() {
    let mut g = running(&[(1, "Ann"), (2, "Ben")]);
    assert_eq!(g.report_result_command("nope", 1, "2", "2-0").unwrap_err(), CommandError::NotFound);
    assert_eq!(g.report_result_command("cup", 1, "Ben", "2-0").unwrap_err(), CommandError::BadOpponent);
    assert_eq!(
        g.report_result_command("cup", 1, "3", "2-0").unwrap_err(),
        CommandError::Matrix(MatrixError::UnknownParticipant { id: 3 })
    );
    assert_eq!(
        g.report_result_command("cup", 1, "1", "2-0").unwrap_err(),
        CommandError::Matrix(MatrixError::SelfMatch)
    );
    assert_eq!(g.report_result_any(8, 1, 2, "2-0").unwrap_err(), CommandError::NotFound);
}

#[test]
fn report_in_thread() {
    let mut g = running(&[(1, "Ann"), (2, "Ben")]);
    let rep = g.report_result_any(7, 2, 1, "0-2").unwrap();
    assert_eq!(rep.index, 0);
    let m = &g.tournaments[0].matrix;
    assert_eq!(m.results[1 * 2 + 0], MatchResult::ZeroTwo);
    assert_eq!(m.results[0 * 2 + 1], MatchResult::TwoZero);
    assert_eq!(m.summary(1), Some((1, 1)));
}

#[test]
fn end_removes_the_grid() {
    let mut g = running(&[(1, "Ann"), (2, "Ben")]);
    g.findable("", 1, false).unwrap();
    assert_eq!(g.end("other").unwrap_err(), CommandError::NotFound);
    let blocks = g.end("cup").unwrap();
    assert_eq!(blocks.len(), 1);
    assert!(!blocks[0].contains(":no_bell:"));
    assert!(g.tournaments.is_empty());
}

#[test]
fn ping_mentions_everyone() {
    let g = running(&[(1, "Ann"), (22, "Ben")]);
    assert_eq!(g.ping("cup").unwrap(), "<@1> <@22> ");
    assert_eq!(g.ping("x").unwrap_err(), CommandError::NotFound);
}

#[test]
fn findable_reports_changed_grids() {
    let mut g = running(&[(1, "Ann"), (2, "Ben")]);
    let changed = g.findable("", 2, false).unwrap();
    assert_eq!(changed.len(), 1);
    assert!(changed[0].blocks[0].contains("Ben:no_bell:\n"));
    assert_eq!(g.findable("", 2, false).unwrap().len(), 0);
    assert_eq!(g.findable("other", 2, true).unwrap().len(), 0);
    assert_eq!(g.findable("cup", 2, true).unwrap().len(), 1);
    assert_eq!(g.findable("cup", 9, true).unwrap().len(), 0);
}

#[test]
fn restrict_values() {
    assert_eq!(restrict_from(0), Ok(RestrictValues::NoRestriction));
    assert_eq!(restrict_from(1), Ok(RestrictValues::ExcludeDangerous));
    assert_eq!(restrict_from(2), Ok(RestrictValues::ExcludeNormal));
    assert_eq!(restrict_from(3), Err(FamError::UnexpectedRestrict));
}

#[test]
fn fam_lists_open_opponents() {
    let mut g = running(&[(1, "Ann"), (2, "Ben"), (3, "Cy"), (4, "Dee")]);
    g.report_result_command("cup", 1, "4", "2-1").unwrap();
    g.findable("", 3, false).unwrap();
    let out = fam_pings(&g, 1, "", RestrictValues::NoRestriction);
    assert_eq!(out.text, "<@1> is trying to find a match to play, is anyone available?\ncup: <@2> Cy ");
    assert_eq!(out.mentions, vec![2]);
    let none = fam_pings(&g, 9, "", RestrictValues::NoRestriction);
    assert_eq!(none.text, "<@9> is trying to find a match to play, is anyone available?");
    assert!(none.mentions.is_empty());
}

#[test]
fn fam_respects_restrictions() {
    let strong = 183433751689166850u64;
    let mut g = running(&[(1, "Ann"), (strong, "Ace")]);
    let out = fam_pings(&g, 1, "cup", RestrictValues::ExcludeDangerous);
    assert_eq!(out.text, "<@1> is trying to find a match to play, is anyone available?\ncup: All matches complete!");
    let out = fam_pings(&g, 1, "cup", RestrictValues::ExcludeNormal);
    assert_eq!(out.mentions, vec![strong]);
    g.report_result_any(7, 1, strong, "0-2").unwrap();
    let out = fam_pings(&g, 1, "", RestrictValues::NoRestriction);
    assert!(out.text.ends_with("cup: All matches complete!"));
}

fn restored(posts: Vec<u64>, results: Vec<MatchResult>) -> match_matrix::group::Tournament {
    let m = match_matrix::matrix::MatchMatrix::restore(
        9,
        "Old".to_string(),
        vec![p(1, "Ann"), p(2, "Ben")],
        posts,
        results,
        std::collections::HashSet::new(),
    )
    .unwrap();
    match_matrix::group::Tournament { shortname: "old".to_string(), matrix: m }
}

#[test]
fn fam_never_lists_the_player() {
    let mut g = GuildState::new();
    g.register(restored(vec![1], vec![MatchResult::NotPlayed; 4]));
    let out = fam_pings(&g, 1, "", RestrictValues::NoRestriction);
    assert_eq!(out.text, "<@1> is trying to find a match to play, is anyone available?\nold: <@2> ");
    assert_eq!(out.mentions, vec![2]);
}

#[test]
fn end_keeps_a_grid_that_cannot_be_written() {
    let mut g = GuildState::new();
    let table = match_matrix::matrix::MatchMatrix::initial_results(2);
    g.register(restored(vec![1, 2, 3, 4], table));
    assert!(matches!(g.end("old"), Err(CommandError::Render(_))));
    assert_eq!(g.tournaments.len(), 1);
}

#[test]
fn report_stays_when_the_grid_cannot_be_written() {
    let mut g = GuildState::new();
    let table = match_matrix::matrix::MatchMatrix::initial_results(2);
    g.register(restored(vec![1, 2, 3, 4], table));
    assert!(matches!(g.report_result_command("old", 1, "2", "2-0"), Err(CommandError::Render(_))));
    assert_eq!(g.tournaments[0].matrix.summary(1), Some((1, 1)));
    assert!(matches!(g.report_result_any(9, 1, 3, "2-0"), Err(CommandError::Matrix(MatrixError::UnknownParticipant { id: 3 }))));
    assert_eq!(g.tournaments[0].matrix.summary(1), Some((1, 1)));
}

#[test]
fn plan_create_intro_reads_back() {
    let mut g = GuildState::new();
    g.begin("T".to_string(), "Cup").unwrap();
    g.add_participant(p(5, "A")).unwrap();
    g.add_participant(p(6, "B")).unwrap();
    let plan = g.plan_create().unwrap();
    let (ids, name) = match_matrix::intro::parse_intro(&plan.intro).unwrap();
    assert_eq!(ids, vec![5, 6]);
    assert_eq!(name, "cup");
}

#[test]
fn lookup_finds_the_first_match() {
    let users = vec![p(1, "A"), p(2, "B"), p(2, "C")];
    assert_eq!(match_matrix::matrix::lookup_userid(2, &users), Some(1));
    assert_eq!(match_matrix::matrix::lookup_userid(3, &users), None);
}

#[test]
fn restore_names_the_shared_id() {
    let r = match_matrix::matrix::MatchMatrix::restore(
        1,
        "T".to_string(),
        vec![p(4, "A"), p(7, "B"), p(7, "C")],
        vec![1],
        vec![MatchResult::NotPlayed; 9],
        std::collections::HashSet::new(),
    );
    assert_eq!(r.unwrap_err(), MatrixError::DuplicateParticipant { id: 7 });
}
