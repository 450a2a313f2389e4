use tournament_export::fast::{
    Competition as RawCompetition, CompetitionTeam, DefinitivePhaseOpponentRanking, Game,
    Phase as RawPhase, PhaseRanking, Ranking, Team as RawTeam, TeamMatch,
};
use tournament_export::itsf::{ItsfPlayer, ItsfPlayerDb};
use tournament_export::model::Competition;
use tournament_export::seeding::{seeding_order, sort_tier};

fn directory(count: u64) -> ItsfPlayerDb {
    let mut db = ItsfPlayerDb::new();
    for id in 1..=count {
        db.insert(
            id,
            ItsfPlayer { id, first_name: format!("First{}", id), last_name: format!("Last{}", id) },
        );
    }
    db
}

fn entry(team_id: u64, rank: u64) -> Ranking {
    Ranking {
        definitivePhaseOpponentRanking: DefinitivePhaseOpponentRanking { teamId: team_id, relativeRank: rank },
        rank,
    }
}

/// A competition of singles teams: team `t` is player `t`, and each phase
/// ranks the given teams in the given order with the given ranks.
fn competition(name: &str, teams: &[u64], phases: &[&[(u64, u64)]], with_match: bool) -> RawCompetition {
    let competition_team =
        teams.iter().map(|t| CompetitionTeam { id: *t, team: RawTeam { player1Id: *t, player2Id: 0 } }).collect();
    let phase = phases
        .iter()
        .map(|ranking| RawPhase {
            phaseType: "P".to_string(),
            phaseRanking: PhaseRanking { rankings: ranking.iter().map(|(t, r)| entry(*t, *r)).collect() },
            teamMatch: if with_match && teams.len() >= 2 {
                vec![TeamMatch {
                    team1Id: teams[0],
                    team2Id: teams[1],
                    matchNumber: 1,
                    matchDepth: 1,
                    game: vec![Game { gameNumber: 1, scoreTeam1: 1, scoreTeam2: 0 }],
                }]
            } else {
                vec![]
            },
        })
        .collect();
    RawCompetition {
        competitionType: "OPEN".to_string(),
        name: name.to_string(),
        sex: String::new(),
        phase,
        competitionTeam: competition_team,
    }
}

fn order_of(c: &Competition, phase: usize) -> Vec<(u64, u64)> {
    c.phases[phase].ranking.iter().map(|(t, r)| (t.id, *r)).collect()
}

#[test]
fn seeding_order_of_few_entries_is_their_order() {
    assert_eq!(seeding_order(&vec![]), Vec::<usize>::new());
    assert_eq!(seeding_order(&vec![9]), vec![0]);
    assert_eq!(seeding_order(&vec![9, 8, 7, 6]), vec![0, 1, 2, 3]);
}

#[test]
fn seeding_order_sorts_places_five_to_eight() {
    assert_eq!(seeding_order(&vec![9, 8, 7, 6, 5, 4, 3, 2]), vec![0, 1, 2, 3, 7, 6, 5, 4]);
}

#[test]
fn seeding_order_sorts_a_short_last_band() {
    assert_eq!(seeding_order(&vec![9, 8, 7, 6, 5, 4]), vec![0, 1, 2, 3, 5, 4]);
    assert_eq!(seeding_order(&vec![9, 8, 7, 6, 5]), vec![0, 1, 2, 3, 4]);
}

#[test]
fn seeding_order_keeps_bands_apart() {
    let seeds = vec![20, 19, 18, 17, 16, 15, 14, 13, 12, 11, 10, 9, 8, 7, 6, 5, 4, 3, 2, 1];
    assert_eq!(
        seeding_order(&seeds),
        vec![0, 1, 2, 3, 7, 6, 5, 4, 15, 14, 13, 12, 11, 10, 9, 8, 19, 18, 17, 16]
    );
}

#[test]
fn seeding_order_is_stable() {
    let seeds = vec![0, 0, 0, 0, 2, 1, 2, 1, 5, 5, 3, 5, 3];
    assert_eq!(seeding_order(&seeds), vec![0, 1, 2, 3, 5, 7, 4, 6, 10, 12, 8, 9, 11]);
}

#[test]
fn sort_tier_sorts_only_its_range() {
    let seeds = vec![5, 4, 3, 2, 1, 0];
    let mut order = vec![0, 1, 2, 3, 4, 5];
    sort_tier(&mut order, &seeds, 1, 4);
    assert_eq!(order, vec![0, 3, 2, 1, 4, 5]);
    sort_tier(&mut order, &seeds, 4, 4);
    sort_tier(&mut order, &seeds, 5, 6);
    assert_eq!(order, vec![0, 3, 2, 1, 4, 5]);
}

#[test]
fn adjusted_ranking_is_dense_and_keeps_the_top_four() {
    let db = directory(12);
    let teams: Vec<u64> = (1..=12).collect();
    let quali_ranking: Vec<(u64, u64)> = (1..=12).map(|t| (t, t)).collect();
    let quali = competition("Q", &teams, &[&quali_ranking], true);
    let finals_ranking: Vec<(u64, u64)> =
        vec![(7, 1), (3, 2), (9, 3), (12, 4), (11, 5), (1, 5), (8, 5), (2, 5), (10, 9), (6, 9), (5, 9), (4, 9)];
    let finals = competition("F", &teams, &[&finals_ranking], true);
    let q = Competition::new(0, &quali, &db);
    let mut f = Competition::new(1, &finals, &db);
    let ranks = q.rankings().unwrap();
    assert!(f.ranked_by(&ranks));
    f.adjust_final_rankings(&ranks);
    assert_eq!(
        order_of(&f, 0),
        vec![(7, 1), (3, 2), (9, 3), (12, 4), (1, 5), (2, 6), (8, 7), (11, 8), (4, 9), (5, 10), (6, 11), (10, 12)]
    );
}

#[test]
fn quarterfinal_losers_are_seeded_by_their_qualification_ranks() {
    // Teams A to H are the players 1 to 8, ranked 1 to 8 by the round robin.
    let db = directory(8);
    let teams: Vec<u64> = (1..=8).collect();
    let quali_ranking: Vec<(u64, u64)> = (1..=8).map(|t| (t, t)).collect();
    let quali = competition("Round robin", &teams, &[&quali_ranking], true);
    // The bracket: D won before A, F and B; the losers G, C, H, E follow in bracket order.
    let bracket: Vec<(u64, u64)> = vec![(4, 1), (1, 2), (6, 3), (2, 4), (7, 5), (3, 5), (8, 5), (5, 5)];
    let finals = competition("Single elimination", &teams, &[&bracket], true);
    let q = Competition::new(0, &quali, &db);
    let mut f = Competition::new(1, &finals, &db);
    f.adjust_final_rankings(&q.rankings().unwrap());
    assert_eq!(order_of(&f, 0), vec![(4, 1), (1, 2), (6, 3), (2, 4), (3, 5), (5, 6), (7, 7), (8, 8)]);
}

#[test]
fn every_phase_of_the_playoff_is_adjusted() {
    let db = directory(6);
    let teams: Vec<u64> = (1..=6).collect();
    let quali_ranking: Vec<(u64, u64)> = vec![(6, 1), (5, 2), (4, 3), (3, 4), (2, 5), (1, 6)];
    let quali = competition("Q", &teams, &[&quali_ranking], true);
    let first: Vec<(u64, u64)> = vec![(1, 10), (2, 20), (3, 30), (4, 40), (5, 50), (6, 60)];
    let second: Vec<(u64, u64)> = vec![(6, 1), (1, 1), (2, 1)];
    let finals = competition("F", &teams, &[&first, &second, &[]], false);
    let q = Competition::new(0, &quali, &db);
    let mut f = Competition::new(1, &finals, &db);
    f.adjust_final_rankings(&q.rankings().unwrap());
    assert_eq!(order_of(&f, 0), vec![(1, 1), (2, 2), (3, 3), (4, 4), (6, 5), (5, 6)]);
    assert_eq!(order_of(&f, 1), vec![(6, 1), (1, 2), (2, 3)]);
    assert_eq!(order_of(&f, 2), vec![]);
    assert_eq!(f.index, 1);
    assert_eq!(f.teams.len(), 6);
    assert!(!f.is_subcomp);
}

#[test]
fn unknown_team_is_found_before_adjusting() {
    let db = directory(6);
    let quali = competition("Q", &[1, 2, 3], &[&[(1, 1), (2, 2), (3, 3)]], true);
    let finals = competition("F", &[1, 2, 4], &[&[(1, 1), (2, 2)], &[(4, 1)]], true);
    let q = Competition::new(0, &quali, &db);
    let f = Competition::new(1, &finals, &db);
    let ranks = q.rankings().unwrap();
    assert!(f.phases[0].ranked_by(&ranks));
    assert!(!f.phases[1].ranked_by(&ranks));
    assert!(!f.ranked_by(&ranks));
    assert!(q.ranked_by(&ranks));
}

#[test]
fn phase_adjusts_its_own_ranking() {
    let db = directory(6);
    let teams: Vec<u64> = (1..=6).collect();
    let quali = competition("Q", &teams, &[&[(6, 1), (5, 2), (4, 3), (3, 4), (2, 5), (1, 6)]], true);
    let finals = competition("F", &teams, &[&[(1, 1), (2, 2), (3, 3), (4, 4), (5, 5), (6, 6)]], true);
    let q = Competition::new(0, &quali, &db);
    let mut f = Competition::new(1, &finals, &db);
    let ranks = q.rankings().unwrap();
    f.phases[0].adjust_ranking(&ranks);
    assert_eq!(order_of(&f, 0), vec![(1, 1), (2, 2), (3, 3), (4, 4), (6, 5), (5, 6)]);
    assert_eq!(f.phases[0].matches.len(), 1);
    assert_eq!(f.phases[0].phase_type, "P");
}
