use football_analytics::player::{Player, Position};
use football_analytics::team::Team;

fn player(name: &str, number: u8, position: Position, rating: u8) -> Player {
    Player::new(name.to_string(), number, position, rating)
}

fn barcelona() -> Team {
    let mut team = Team::new("FC Barcelona".to_string(), "Barcelona".to_string());
    team.add_player(player("Lionel Messi", 10, Position::Forward, 91));
    team.add_player(player("Gerard Pique", 3, Position::Defender, 85));
    team.add_player(player("Sergio Busquets", 5, Position::Midfielder, 88));
    team.add_player(player("Marc-Andre ter Stegen", 1, Position::Goalkeeper, 89));
    team
}

#[test]
fn player_new_keeps_every_field() {
    let p = player("Lionel Messi", 10, Position::Forward, 91);
    assert_eq!(p.name, "Lionel Messi");
    assert_eq!(p.jersey_number, 10);
    assert_eq!(p.position, Position::Forward);
    assert_eq!(p.rating, 91);
}

#[test]
fn player_new_validates_nothing() {
    let p = player("", 255, Position::Goalkeeper, 200);
    assert_eq!(p.name, "");
    assert_eq!(p.jersey_number, 255);
    assert_eq!(p.rating, 200);
}

#[test]
fn display_info_has_the_fixed_layout() {
    let p = player("Lionel Messi", 10, Position::Forward, 91);
    assert_eq!(p.display_info(), "Lionel Messi (#10) - Forward - Rating: 91");
    let q = player("Marc-Andre ter Stegen", 1, Position::Goalkeeper, 89);
    assert_eq!(q.display_info(), "Marc-Andre ter Stegen (#1) - Goalkeeper - Rating: 89");
}

#[test]
fn display_info_renders_numbers_in_decimal() {
    assert_eq!(player("a", 0, Position::Defender, 7).display_info(), "a (#0) - Defender - Rating: 7");
    assert_eq!(
        player("b", 100, Position::Midfielder, 255).display_info(),
        "b (#100) - Midfielder - Rating: 255"
    );
    assert_eq!(player("c", 9, Position::Forward, 10).display_info(), "c (#9) - Forward - Rating: 10");
}

#[test]
fn position_names_and_tags() {
    assert_eq!(Position::Goalkeeper.to_string(), "GK");
    assert_eq!(Position::Defender.to_string(), "DEF");
    assert_eq!(Position::Midfielder.to_string(), "MID");
    assert_eq!(Position::Forward.to_string(), "FWD");
    assert_eq!(Position::Goalkeeper.name(), "Goalkeeper");
    assert_eq!(Position::Defender.name(), "Defender");
    assert_eq!(Position::Midfielder.name(), "Midfielder");
    assert_eq!(Position::Forward.name(), "Forward");
}

#[test]
fn attackers_and_defenders_split_the_positions() {
    assert!(player("f", 9, Position::Forward, 80).is_attacker());
    assert!(player("m", 8, Position::Midfielder, 80).is_attacker());
    assert!(!player("d", 4, Position::Defender, 80).is_attacker());
    assert!(!player("g", 1, Position::Goalkeeper, 80).is_attacker());
    assert!(player("d", 4, Position::Defender, 80).is_defender());
    assert!(player("g", 1, Position::Goalkeeper, 80).is_defender());
    assert!(!player("f", 9, Position::Forward, 80).is_defender());
    assert!(!player("m", 8, Position::Midfielder, 80).is_defender());
}

#[test]
fn new_team_is_empty() {
    let team = Team::new("FC Barcelona".to_string(), "Barcelona".to_string());
    assert_eq!(team.name, "FC Barcelona");
    assert_eq!(team.city, "Barcelona");
    assert_eq!(team.squad_size(), 0);
    assert!(team.players.is_empty());
    assert_eq!(team.get_formation_strength(), (0, 0, 0, 0));
    assert!(team.list_squad().is_empty());
    assert!(team.get_player_by_number(10).is_none());
    assert!(team.get_players_by_position(Position::Forward).is_empty());
}

#[test]
fn empty_roster_has_no_rating_to_average() {
    let team = Team::new("Nobody".to_string(), "Nowhere".to_string());
    assert_eq!(team.rating_total(), 0);
    assert_eq!(team.squad_size(), 0);
}

#[test]
fn rating_total_sums_all_ratings() {
    let team = barcelona();
    assert_eq!(team.rating_total(), 353);
    let average: f64 = team.rating_total() as f64 / team.squad_size() as f64;
    assert_eq!(average, 88.25);
}

#[test]
fn add_player_appends_in_order() {
    let team = barcelona();
    assert_eq!(team.squad_size(), 4);
    assert_eq!(team.players[0].name, "Lionel Messi");
    assert_eq!(team.players[3].name, "Marc-Andre ter Stegen");
    assert_eq!(team.name, "FC Barcelona");
    assert_eq!(team.city, "Barcelona");
}

#[test]
fn lookup_by_number_finds_the_first_match() {
    let mut team = barcelona();
    team.add_player(player("Second Ten", 10, Position::Midfielder, 70));
    let found = team.get_player_by_number(10);
    assert!(found.is_some());
    assert_eq!(found.unwrap().name, "Lionel Messi");
    assert_eq!(team.get_player_by_number(5).unwrap().name, "Sergio Busquets");
    assert!(team.get_player_by_number(99).is_none());
}

#[test]
fn remove_player_takes_the_first_match_only() {
    let mut team = barcelona();
    team.add_player(player("Second Ten", 10, Position::Midfielder, 70));
    let removed = team.remove_player(10);
    assert!(removed.is_some());
    let removed = removed.unwrap();
    assert_eq!(removed.name, "Lionel Messi");
    assert_eq!(removed.rating, 91);
    assert_eq!(team.squad_size(), 4);
    assert_eq!(team.players[0].name, "Gerard Pique");
    assert_eq!(team.players[3].name, "Second Ten");
    assert_eq!(team.get_player_by_number(10).unwrap().name, "Second Ten");
}

#[test]
fn remove_player_signals_absence_and_changes_nothing() {
    let mut team = barcelona();
    assert!(team.remove_player(77).is_none());
    assert_eq!(team.squad_size(), 4);
    assert_eq!(team.players[0].name, "Lionel Messi");
    assert_eq!(team.players[1].name, "Gerard Pique");
    assert_eq!(team.players[2].name, "Sergio Busquets");
    assert_eq!(team.players[3].name, "Marc-Andre ter Stegen");
}

#[test]
fn players_by_position_keep_roster_order() {
    let mut team = barcelona();
    team.add_player(player("Ansu Fati", 22, Position::Forward, 80));
    team.add_player(player("Jordi Alba", 18, Position::Defender, 86));
    let forwards = team.get_players_by_position(Position::Forward);
    assert_eq!(forwards.len(), 2);
    assert_eq!(forwards[0].name, "Lionel Messi");
    assert_eq!(forwards[1].name, "Ansu Fati");
    let defenders = team.get_players_by_position(Position::Defender);
    assert_eq!(defenders.len(), 2);
    assert_eq!(defenders[0].name, "Gerard Pique");
    assert_eq!(defenders[1].name, "Jordi Alba");
    let keepers = team.get_players_by_position(Position::Goalkeeper);
    assert_eq!(keepers.len(), 1);
    assert_eq!(keepers[0].jersey_number, 1);
}

#[test]
fn formation_strength_counts_each_position() {
    let mut team = barcelona();
    team.add_player(player("Ansu Fati", 22, Position::Forward, 80));
    team.add_player(player("Jordi Alba", 18, Position::Defender, 86));
    team.add_player(player("Ronald Araujo", 4, Position::Defender, 84));
    assert_eq!(team.get_formation_strength(), (1, 3, 1, 2));
}

#[test]
fn formation_strength_adds_up_to_squad_size() {
    let mut team = barcelona();
    team.add_player(player("Ansu Fati", 22, Position::Forward, 80));
    team.add_player(player("Pedri", 8, Position::Midfielder, 87));
    let (gk, def, mid, fwd) = team.get_formation_strength();
    assert_eq!(gk + def + mid + fwd, team.squad_size());
    team.remove_player(8);
    let (gk, def, mid, fwd) = team.get_formation_strength();
    assert_eq!(gk + def + mid + fwd, team.squad_size());
    assert_eq!(team.squad_size(), 5);
}

#[test]
fn list_squad_describes_every_player_in_order() {
    let team = barcelona();
    let lines = team.list_squad();
    assert_eq!(
        lines,
        vec![
            "Lionel Messi (#10) - Forward - Rating: 91".to_string(),
            "Gerard Pique (#3) - Defender - Rating: 85".to_string(),
            "Sergio Busquets (#5) - Midfielder - Rating: 88".to_string(),
            "Marc-Andre ter Stegen (#1) - Goalkeeper - Rating: 89".to_string(),
        ]
    );
}

#[test]
fn roster_queries_repeat_their_answers() {
    let team = barcelona();
    assert_eq!(team.list_squad(), team.list_squad());
    assert_eq!(team.get_formation_strength(), team.get_formation_strength());
    assert_eq!(team.squad_size(), team.squad_size());
    assert_eq!(team.rating_total(), team.rating_total());
    let once = team.get_players_by_position(Position::Forward);
    let again = team.get_players_by_position(Position::Forward);
    assert_eq!(once.len(), again.len());
    assert_eq!(once[0].name, again[0].name);
    assert_eq!(
        team.get_player_by_number(3).unwrap().name,
        team.get_player_by_number(3).unwrap().name
    );
}
