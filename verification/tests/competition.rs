use tournament_export::fast::{
    Competition as RawCompetition, CompetitionTeam, DefinitivePhaseOpponentRanking, Game,
    Phase as RawPhase, PhaseRanking, Ranking, Team as RawTeam, TeamMatch, TeamMatchResult,
};
use tournament_export::itsf::{ItsfPlayer, ItsfPlayerDb};
use tournament_export::model::{Competition, Phase};

fn directory(ids: &[u64]) -> ItsfPlayerDb {
    let mut db = ItsfPlayerDb::new();
    for id in ids {
        db.insert(
            *id,
            ItsfPlayer { id: *id, first_name: format!("First{}", id), last_name: format!("Last{}", id) },
        );
    }
    db
}

fn team(id: u64, player1: u64, player2: u64) -> CompetitionTeam {
    CompetitionTeam { id, team: RawTeam { player1Id: player1, player2Id: player2 } }
}

fn entry(team_id: u64, rank: u64) -> Ranking {
    Ranking {
        definitivePhaseOpponentRanking: DefinitivePhaseOpponentRanking { teamId: team_id, relativeRank: rank },
        rank,
    }
}

fn game(a: u64, b: u64) -> Game {
    Game { gameNumber: 1, scoreTeam1: a, scoreTeam2: b }
}

fn raw_match(team1: u64, team2: u64, depth: u64, games: Vec<Game>) -> TeamMatch {
    TeamMatch { team1Id: team1, team2Id: team2, matchNumber: 0, matchDepth: depth, game: games }
}

fn phase(kind: &str, ranking: Vec<Ranking>, matches: Vec<TeamMatch>) -> RawPhase {
    RawPhase { phaseType: kind.to_string(), phaseRanking: PhaseRanking { rankings: ranking }, teamMatch: matches }
}

fn competition(name: &str, teams: Vec<CompetitionTeam>, phases: Vec<RawPhase>) -> RawCompetition {
    RawCompetition {
        competitionType: "OPEN".to_string(),
        name: name.to_string(),
        sex: String::new(),
        phase: phases,
        competitionTeam: teams,
    }
}

#[test]
fn competition_holds_the_teams_that_resolve() {
    let db = directory(&[1, 2, 3]);
    let raw = competition("Doubles", vec![team(100, 1, 2), team(101, 9, 3), team(102, 3, 0)], vec![]);
    let built = Competition::new(0, &raw, &db);
    assert_eq!(built.index, 0);
    assert_eq!(built.teams.len(), 2);
    assert!(built.teams.contains_key(&100));
    assert!(!built.teams.contains_key(&101));
    assert!(built.teams.contains_key(&102));
    assert_eq!(built.teams[&100].player1.id, 1);
    assert!(built.phases.is_empty());
    assert!(built.subcomps.is_empty());
    assert!(!built.is_subcomp);
    assert_eq!(built.source.name, "Doubles");
}

#[test]
fn later_team_with_the_same_id_replaces_the_earlier() {
    let db = directory(&[1, 2]);
    let raw = competition("C", vec![team(100, 1, 0), team(100, 2, 0)], vec![]);
    let built = Competition::new(0, &raw, &db);
    assert_eq!(built.teams.len(), 1);
    assert_eq!(built.teams[&100].player1.id, 2);
}

#[test]
fn entries_and_matches_of_a_dropped_team_are_absent() {
    let db = directory(&[1, 2, 3]);
    let raw = competition(
        "C",
        vec![team(100, 1, 0), team(101, 9, 0), team(102, 2, 0), team(103, 3, 0)],
        vec![phase(
            "QUALIFICATION",
            vec![entry(100, 1), entry(101, 2), entry(102, 3), entry(103, 4), entry(777, 5)],
            vec![
                raw_match(100, 101, 1, vec![game(5, 0)]),
                raw_match(100, 102, 1, vec![game(5, 3)]),
                raw_match(101, 103, 1, vec![game(5, 3)]),
                raw_match(103, 102, 2, vec![game(1, 5)]),
                raw_match(777, 100, 2, vec![game(1, 5)]),
            ],
        )],
    );
    let built = Competition::new(0, &raw, &db);
    assert_eq!(built.phases.len(), 1);
    let p = &built.phases[0];
    assert_eq!(p.phase_type, "QUALIFICATION");
    let ranked: Vec<(u64, u64)> = p.ranking.iter().map(|(t, r)| (t.id, *r)).collect();
    assert_eq!(ranked, vec![(100, 1), (102, 3), (103, 4)]);
    let played: Vec<(u64, u64, TeamMatchResult)> =
        p.matches.iter().map(|m| (m.team1.id, m.team2.id, m.result)).collect();
    assert_eq!(played, vec![(100, 102, TeamMatchResult::Win1), (103, 102, TeamMatchResult::Win2)]);
    assert_eq!(p.matches[1].source.matchDepth, 2);
}

#[test]
fn phase_built_over_a_team_table() {
    let db = directory(&[1, 2]);
    let raw = competition("C", vec![team(5, 1, 0), team(6, 2, 0)], vec![]);
    let built = Competition::new(0, &raw, &db);
    let raw_phase = phase("FINALS", vec![entry(6, 1), entry(7, 2), entry(5, 3)], vec![raw_match(5, 6, 1, vec![game(1, 1)])]);
    let p = Phase::new(&raw_phase, &built.teams);
    let ranked: Vec<(u64, u64)> = p.ranking.iter().map(|(t, r)| (t.id, *r)).collect();
    assert_eq!(ranked, vec![(6, 1), (5, 3)]);
    assert_eq!(p.matches.len(), 1);
    assert_eq!(p.matches[0].result, TeamMatchResult::Draw);
    assert_eq!(p.matches[0].describe(), "(First1 Last1) - (First2 Last2)");
}

#[test]
fn match_in_words_names_the_winner_first() {
    let db = directory(&[1, 2]);
    let raw = competition(
        "C",
        vec![team(5, 1, 0), team(6, 2, 0)],
        vec![phase(
            "P",
            vec![],
            vec![raw_match(5, 6, 1, vec![game(3, 1)]), raw_match(5, 6, 1, vec![game(0, 1)])],
        )],
    );
    let built = Competition::new(0, &raw, &db);
    assert_eq!(built.phases[0].matches[0].describe(), "(First1 Last1) > (First2 Last2)");
    assert_eq!(built.phases[0].matches[1].describe(), "(First2 Last2) > (First1 Last1)");
}

#[test]
fn ranking_phase_is_the_first_with_matches() {
    let db = directory(&[1, 2]);
    let raw = competition(
        "C",
        vec![team(5, 1, 0), team(6, 2, 0)],
        vec![
            phase("A", vec![entry(5, 1)], vec![]),
            phase("B", vec![entry(6, 1), entry(5, 2)], vec![raw_match(5, 6, 1, vec![game(0, 1)])]),
            phase("C", vec![entry(5, 1), entry(6, 2)], vec![raw_match(5, 6, 1, vec![game(1, 0)])]),
        ],
    );
    let built = Competition::new(0, &raw, &db);
    assert_eq!(built.ranking_phase_index(), Some(1));
    assert_eq!(built.ranking_phase().unwrap().phase_type, "B");
    let ranks = built.rankings().unwrap();
    assert_eq!(ranks.get(&built.teams[&6]), Some(1));
    assert_eq!(ranks.get(&built.teams[&5]), Some(2));
}

#[test]
fn ranking_phase_falls_back_to_the_first_phase() {
    let db = directory(&[1, 2]);
    let raw = competition(
        "C",
        vec![team(5, 1, 0), team(6, 2, 0)],
        vec![phase("A", vec![entry(5, 1)], vec![]), phase("B", vec![entry(6, 1)], vec![])],
    );
    let built = Competition::new(0, &raw, &db);
    assert_eq!(built.ranking_phase_index(), Some(0));
    let ranks = built.rankings().unwrap();
    assert_eq!(ranks.get(&built.teams[&5]), Some(1));
    assert_eq!(ranks.get(&built.teams[&6]), None);
    assert!(ranks.contains(&built.teams[&5]));
    assert!(!ranks.contains(&built.teams[&6]));
}

#[test]
fn competition_without_phases_has_no_ranking() {
    let db = directory(&[1]);
    let raw = competition("C", vec![team(5, 1, 0)], vec![]);
    let built = Competition::new(0, &raw, &db);
    assert!(built.ranking_phase_index().is_none());
    assert!(built.ranking_phase().is_none());
    assert!(built.rankings().is_none());
}

#[test]
fn rank_of_a_team_is_found_by_its_players() {
    let db = directory(&[1, 2]);
    let quali = competition("Q", vec![team(5, 1, 2)], vec![phase("A", vec![entry(5, 3)], vec![])]);
    let finals = competition("F", vec![team(77, 1, 2)], vec![]);
    let q = Competition::new(0, &quali, &db);
    let f = Competition::new(1, &finals, &db);
    assert_eq!(q.rankings().unwrap().get(&f.teams[&77]), Some(3));
}

#[test]
fn later_entry_of_a_team_counts() {
    let db = directory(&[1]);
    let raw = competition("Q", vec![team(5, 1, 0)], vec![phase("A", vec![entry(5, 3), entry(5, 8)], vec![])]);
    let q = Competition::new(0, &raw, &db);
    assert_eq!(q.rankings().unwrap().get(&q.teams[&5]), Some(8));
}

#[test]
fn qualification_covers_the_teams_of_the_playoff() {
    let db = directory(&[1, 2, 3, 4]);
    let quali = competition("Q", vec![team(1, 1, 2), team(2, 3, 0), team(3, 4, 0)], vec![]);
    let finals = competition("F", vec![team(10, 3, 0), team(11, 1, 2)], vec![]);
    let other = competition("O", vec![team(10, 3, 0), team(11, 2, 1)], vec![]);
    let q = Competition::new(0, &quali, &db);
    let f = Competition::new(1, &finals, &db);
    let o = Competition::new(2, &other, &db);
    assert!(q.is_qualification_for(&f));
    assert!(!f.is_qualification_for(&q));
    assert!(!q.is_qualification_for(&o));
    assert!(q.covers(&f));
    assert!(q.covers(&q));
    assert!(!f.covers(&q));
    assert!(q.has_team(&f.teams[&10]));
    assert!(!f.has_team(&q.teams[&3]));
}

#[test]
fn competition_is_no_qualification_for_itself() {
    let db = directory(&[1, 2]);
    let raw = competition("Q", vec![team(1, 1, 0), team(2, 2, 0)], vec![]);
    let q = Competition::new(4, &raw, &db);
    assert!(q.covers(&q));
    assert!(!q.is_qualification_for(&q));
    let twin = Competition::new(4, &raw, &db);
    assert!(!q.is_qualification_for(&twin));
}

#[test]
fn every_competition_qualifies_for_one_without_teams() {
    let db = directory(&[1]);
    let quali = competition("Q", vec![team(1, 1, 0)], vec![]);
    let empty = competition("E", vec![], vec![]);
    let q = Competition::new(0, &quali, &db);
    let e = Competition::new(1, &empty, &db);
    assert!(q.is_qualification_for(&e));
    assert!(!e.is_qualification_for(&q));
}

#[test]
fn maybe_add_subcompetition_links_a_playoff() {
    let db = directory(&[1, 2, 3]);
    let quali = competition("Q", vec![team(1, 1, 0), team(2, 2, 0), team(3, 3, 0)], vec![]);
    let finals = competition("F", vec![team(1, 2, 0), team(2, 1, 0)], vec![]);
    let mut q = Competition::new(0, &quali, &db);
    let mut f = Competition::new(1, &finals, &db);
    assert!(!f.maybe_add_subcompetition(&mut q));
    assert!(f.subcomps.is_empty());
    assert!(!q.is_subcomp);
    assert!(q.maybe_add_subcompetition(&mut f));
    assert_eq!(q.subcomps, vec![1]);
    assert_eq!(q.subcomps(), vec![1]);
    assert!(f.is_subcomp);
    assert!(!q.is_subcomp);
    assert!(f.subcomps.is_empty());
}

#[test]
fn maybe_add_subcompetition_never_links_a_competition_to_itself() {
    let db = directory(&[1, 2]);
    let raw = competition("Q", vec![team(1, 1, 0), team(2, 2, 0)], vec![]);
    let mut q = Competition::new(3, &raw, &db);
    let mut same = Competition::new(3, &raw, &db);
    assert!(!q.maybe_add_subcompetition(&mut same));
    assert!(q.subcomps.is_empty());
    assert!(!same.is_subcomp);
}

#[test]
fn team_whose_first_player_has_identifier_zero_is_entered_where_zero_resolves() {
    let mut db = directory(&[1, 2]);
    db.insert(0, ItsfPlayer { id: 0, first_name: "No".to_string(), last_name: "Body".to_string() });
    let raw = competition(
        "C",
        vec![team(100, 0, 0), team(101, 0, 2), team(102, 9, 1)],
        vec![phase("P", vec![entry(100, 1), entry(101, 2), entry(102, 3)], vec![])],
    );
    let built = Competition::new(0, &raw, &db);
    assert_eq!(built.teams.len(), 2);
    assert_eq!(built.teams[&100].player1.id, 0);
    assert!(built.teams[&100].player2.is_none());
    assert_eq!(built.teams[&101].player2.as_ref().unwrap().id, 2);
    assert!(!built.teams.contains_key(&102));
    let ranked: Vec<(u64, u64)> = built.phases[0].ranking.iter().map(|(t, r)| (t.id, *r)).collect();
    assert_eq!(ranked, vec![(100, 1), (101, 2)]);
}
