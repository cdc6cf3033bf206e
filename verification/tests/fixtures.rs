use football_analytics::analytics::FootballAnalytics;
use football_analytics::match_data::MatchData;

fn names(list: &[&str]) -> Vec<String> {
    list.iter().map(|name| name.to_string()).collect()
}

fn fixture(home: &str, away: &str, home_score: u8, away_score: u8, home_scorers: &[&str], away_scorers: &[&str]) -> MatchData {
    MatchData::new(
        home.to_string(),
        away.to_string(),
        home_score,
        away_score,
        names(home_scorers),
        names(away_scorers),
    )
}

fn season() -> FootballAnalytics {
    let mut analytics = FootballAnalytics::new();
    analytics.add_match(fixture(
        "FCBarcelona",
        "RealMadrid",
        3,
        2,
        &["Messi", "Busquets", "Pique"],
        &["Benzema", "Ramos"],
    ));
    analytics.add_match(fixture("RealMadrid", "FCBarcelona", 1, 2, &["Modric"], &["Messi", "Busquets"]));
    analytics.add_match(fixture(
        "FCBarcelona",
        "AtleticoMadrid",
        4,
        0,
        &["Messi", "Messi", "Busquets", "Pique"],
        &[],
    ));
    analytics
}

fn record_of(stats: &Vec<(String, (usize, usize, usize))>, team: &str) -> Option<(usize, usize, usize)> {
    stats.iter().find(|entry| entry.0 == team).map(|entry| entry.1)
}

fn pair(name: &str, goals: usize) -> (String, usize) {
    (name.to_string(), goals)
}

#[test]
fn match_new_keeps_every_field() {
    let m = fixture("A", "B", 3, 2, &["x", "y", "x"], &["z"]);
    assert_eq!(m.home_team, "A");
    assert_eq!(m.away_team, "B");
    assert_eq!(m.home_score, 3);
    assert_eq!(m.away_score, 2);
    assert_eq!(m.home_scorers, names(&["x", "y", "x"]));
    assert_eq!(m.away_scorers, names(&["z"]));
}

#[test]
fn winner_is_the_side_with_more_goals() {
    assert_eq!(fixture("A", "B", 3, 2, &[], &[]).get_winner(), Some("A".to_string()));
    assert_eq!(fixture("A", "B", 0, 1, &[], &[]).get_winner(), Some("B".to_string()));
    assert_eq!(fixture("A", "B", 2, 2, &[], &[]).get_winner(), None);
    assert_eq!(fixture("A", "B", 0, 0, &[], &[]).get_winner(), None);
}

#[test]
fn draw_means_equal_scores() {
    assert!(fixture("A", "B", 2, 2, &[], &[]).is_draw());
    assert!(fixture("A", "B", 0, 0, &[], &[]).is_draw());
    assert!(!fixture("A", "B", 2, 1, &[], &[]).is_draw());
    assert!(!fixture("A", "B", 0, 1, &[], &[]).is_draw());
}

#[test]
fn total_goals_adds_both_scores() {
    assert_eq!(fixture("A", "B", 3, 2, &[], &[]).total_goals(), 5);
    assert_eq!(fixture("A", "B", 0, 0, &[], &[]).total_goals(), 0);
    assert_eq!(fixture("A", "B", 200, 55, &[], &[]).total_goals(), 255);
}

#[test]
fn all_scorers_are_home_then_away() {
    let m = fixture("A", "B", 3, 2, &["x", "y", "x"], &["z", "y"]);
    assert_eq!(m.get_all_scorers(), names(&["x", "y", "x", "z", "y"]));
    assert!(fixture("A", "B", 0, 0, &[], &[]).get_all_scorers().is_empty());
    assert_eq!(fixture("A", "B", 0, 1, &[], &["z"]).get_all_scorers(), names(&["z"]));
}

#[test]
fn scorer_lists_need_not_match_the_scores() {
    let m = fixture("A", "B", 0, 0, &["x", "x"], &["y"]);
    assert_eq!(m.get_all_scorers().len(), 3);
    assert_eq!(m.total_goals(), 0);
    assert!(m.is_draw());
}

#[test]
fn summary_has_the_fixed_layout() {
    assert_eq!(
        fixture("FC Barcelona", "Real Madrid", 3, 2, &[], &[]).match_summary(),
        "FC Barcelona 3 - 2 Real Madrid"
    );
    assert_eq!(fixture("A", "B", 0, 10, &[], &[]).match_summary(), "A 0 - 10 B");
    assert_eq!(fixture("A", "B", 255, 100, &[], &[]).match_summary(), "A 255 - 100 B");
}

#[test]
fn season_top_scorers() {
    let analytics = season();
    assert_eq!(
        analytics.get_top_scorers(3),
        vec![pair("Messi", 4), pair("Busquets", 3), pair("Pique", 2)]
    );
}

#[test]
fn season_team_stats() {
    let stats = season().get_team_stats();
    assert_eq!(stats.len(), 3);
    assert_eq!(record_of(&stats, "RealMadrid"), Some((2, 3, 5)));
    assert_eq!(record_of(&stats, "AtleticoMadrid"), Some((1, 0, 4)));
    assert_eq!(record_of(&stats, "FCBarcelona"), Some((3, 9, 3)));
    assert_eq!(record_of(&stats, "Valencia"), None);
}

#[test]
fn season_head_to_head() {
    assert_eq!(season().head_to_head("FCBarcelona", "RealMadrid"), Some((2, 0, 0)));
}

#[test]
fn head_to_head_of_strangers_is_present_and_zero() {
    let analytics = season();
    assert_eq!(analytics.head_to_head("RealMadrid", "AtleticoMadrid"), Some((0, 0, 0)));
    assert_eq!(analytics.head_to_head("Valencia", "Sevilla"), Some((0, 0, 0)));
    assert_eq!(FootballAnalytics::new().head_to_head("A", "B"), Some((0, 0, 0)));
}

#[test]
fn head_to_head_swaps_with_its_arguments() {
    let mut analytics = season();
    analytics.add_match(fixture("RealMadrid", "FCBarcelona", 2, 2, &[], &[]));
    analytics.add_match(fixture("RealMadrid", "FCBarcelona", 1, 0, &[], &[]));
    assert_eq!(analytics.head_to_head("FCBarcelona", "RealMadrid"), Some((2, 1, 1)));
    assert_eq!(analytics.head_to_head("RealMadrid", "FCBarcelona"), Some((1, 2, 1)));
    assert_eq!(analytics.head_to_head("FCBarcelona", "AtleticoMadrid"), Some((1, 0, 0)));
    assert_eq!(analytics.head_to_head("AtleticoMadrid", "FCBarcelona"), Some((0, 1, 0)));
}

#[test]
fn head_to_head_counts_away_wins_and_draws() {
    let mut analytics = FootballAnalytics::new();
    analytics.add_match(fixture("A", "B", 0, 1, &[], &[]));
    analytics.add_match(fixture("B", "A", 0, 3, &[], &[]));
    analytics.add_match(fixture("A", "B", 1, 1, &[], &[]));
    analytics.add_match(fixture("A", "C", 5, 0, &[], &[]));
    assert_eq!(analytics.head_to_head("A", "B"), Some((1, 1, 1)));
    assert_eq!(analytics.head_to_head("A", "C"), Some((1, 0, 0)));
    assert_eq!(analytics.head_to_head("B", "C"), Some((0, 0, 0)));
}

#[test]
fn head_to_head_of_a_team_with_itself_credits_the_first_name() {
    let mut analytics = FootballAnalytics::new();
    analytics.add_match(fixture("A", "A", 2, 1, &[], &[]));
    analytics.add_match(fixture("A", "A", 0, 1, &[], &[]));
    analytics.add_match(fixture("A", "A", 1, 1, &[], &[]));
    assert_eq!(analytics.head_to_head("A", "A"), Some((2, 0, 1)));
}

#[test]
fn games_played_add_up_to_twice_the_fixtures() {
    let mut analytics = season();
    analytics.add_match(fixture("Valencia", "Valencia", 1, 1, &[], &[]));
    let stats = analytics.get_team_stats();
    let games: usize = stats.iter().map(|entry| entry.1 .0).sum();
    assert_eq!(games, 8);
    assert_eq!(record_of(&stats, "Valencia"), Some((2, 2, 2)));
}

#[test]
fn team_stats_come_in_order_of_first_appearance() {
    let stats = season().get_team_stats();
    let teams: Vec<String> = stats.iter().map(|entry| entry.0.clone()).collect();
    assert_eq!(teams, names(&["FCBarcelona", "RealMadrid", "AtleticoMadrid"]));
}

#[test]
fn team_stats_of_no_fixtures_are_empty() {
    assert!(FootballAnalytics::new().get_team_stats().is_empty());
}

#[test]
fn top_scorers_respect_the_limit() {
    let analytics = season();
    assert!(analytics.get_top_scorers(0).is_empty());
    assert_eq!(analytics.get_top_scorers(1), vec![pair("Messi", 4)]);
    let everyone = analytics.get_top_scorers(100);
    assert_eq!(
        everyone,
        vec![
            pair("Messi", 4),
            pair("Busquets", 3),
            pair("Pique", 2),
            pair("Benzema", 1),
            pair("Ramos", 1),
            pair("Modric", 1),
        ]
    );
    assert!(FootballAnalytics::new().get_top_scorers(5).is_empty());
}

#[test]
fn top_scorers_never_rise() {
    let everyone = season().get_top_scorers(6);
    let mut k: usize = 1;
    while k < everyone.len() {
        assert!(everyone[k - 1].1 >= everyone[k].1);
        k += 1;
    }
    assert_eq!(everyone.len(), 6);
}

#[test]
fn equal_scorers_come_in_order_of_first_goal() {
    let mut analytics = FootballAnalytics::new();
    analytics.add_match(fixture("A", "B", 1, 2, &["early"], &["late", "later"]));
    analytics.add_match(fixture("B", "A", 1, 1, &["later"], &["late"]));
    assert_eq!(
        analytics.get_top_scorers(3),
        vec![pair("late", 2), pair("later", 2), pair("early", 1)]
    );
    assert_eq!(analytics.get_top_scorers(1), vec![pair("late", 2)]);
}

#[test]
fn top_scorers_count_list_entries_not_scores() {
    let mut analytics = FootballAnalytics::new();
    analytics.add_match(fixture("A", "B", 0, 0, &["x", "x", "x"], &["y"]));
    assert_eq!(analytics.get_top_scorers(2), vec![pair("x", 3), pair("y", 1)]);
    let stats = analytics.get_team_stats();
    assert_eq!(record_of(&stats, "A"), Some((1, 0, 0)));
}

#[test]
fn analytics_queries_repeat_their_answers() {
    let analytics = season();
    assert_eq!(analytics.get_top_scorers(4), analytics.get_top_scorers(4));
    assert_eq!(analytics.get_team_stats(), analytics.get_team_stats());
    assert_eq!(
        analytics.head_to_head("FCBarcelona", "RealMadrid"),
        analytics.head_to_head("FCBarcelona", "RealMadrid")
    );
}

#[test]
fn queries_follow_later_fixtures() {
    let mut analytics = season();
    assert_eq!(analytics.head_to_head("FCBarcelona", "AtleticoMadrid"), Some((1, 0, 0)));
    analytics.add_match(fixture("AtleticoMadrid", "FCBarcelona", 2, 0, &["Suarez", "Suarez"], &[]));
    assert_eq!(analytics.head_to_head("FCBarcelona", "AtleticoMadrid"), Some((1, 1, 0)));
    let stats = analytics.get_team_stats();
    assert_eq!(record_of(&stats, "AtleticoMadrid"), Some((2, 2, 4)));
    assert_eq!(record_of(&stats, "FCBarcelona"), Some((4, 9, 5)));
    assert_eq!(analytics.get_top_scorers(4)[3], pair("Suarez", 2));
}

#[test]
fn counts_of_fixtures_and_goal_entries() {
    let analytics = season();
    assert_eq!(analytics.match_count(), 3);
    assert_eq!(analytics.goal_count(), Some(12));
    assert_eq!(FootballAnalytics::new().match_count(), 0);
    assert_eq!(FootballAnalytics::new().goal_count(), Some(0));
}
