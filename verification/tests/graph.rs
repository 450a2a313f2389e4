use tournament_export::fast::{
    Competition as RawCompetition, CompetitionTeam, DefinitivePhaseOpponentRanking, Game,
    Phase as RawPhase, PhaseRanking, Ranking, Team as RawTeam, TeamMatch,
};
use tournament_export::graph::{GraphError, QualificationGraph};
use tournament_export::itsf::{ItsfPlayer, ItsfPlayerDb};

fn directory(count: u64) -> ItsfPlayerDb {
    let mut db = ItsfPlayerDb::new();
    for id in 1..=count {
        db.insert(
            id,
            ItsfPlayer { id, first_name: format!("First{}", id), last_name: format!("Last{}", id) },
        );
    }
    db
}

fn competition(name: &str, teams: &[u64], phases: &[&[(u64, u64)]]) -> RawCompetition {
    let competition_team =
        teams.iter().map(|t| CompetitionTeam { id: *t, team: RawTeam { player1Id: *t, player2Id: 0 } }).collect();
    let phase = phases
        .iter()
        .map(|ranking| RawPhase {
            phaseType: "P".to_string(),
            phaseRanking: PhaseRanking {
                rankings: ranking
                    .iter()
                    .map(|(t, r)| Ranking {
                        definitivePhaseOpponentRanking: DefinitivePhaseOpponentRanking { teamId: *t, relativeRank: *r },
                        rank: *r,
                    })
                    .collect(),
            },
            teamMatch: if teams.len() >= 2 {
                vec![TeamMatch {
                    team1Id: teams[0],
                    team2Id: teams[1],
                    matchNumber: 1,
                    matchDepth: 1,
                    game: vec![Game { gameNumber: 1, scoreTeam1: 1, scoreTeam2: 0 }],
                }]
            } else {
                vec![]
            },
        })
        .collect();
    RawCompetition {
        competitionType: "OPEN".to_string(),
        name: name.to_string(),
        sex: String::new(),
        phase,
        competitionTeam: competition_team,
    }
}

fn order_of(graph: &QualificationGraph, index: usize, phase: usize) -> Vec<(u64, u64)> {
    graph.competitions()[index].phases[phase].ranking.iter().map(|(t, r)| (t.id, *r)).collect()
}

#[test]
fn empty_graph_has_no_roots() {
    let mut graph = QualificationGraph::new();
    assert_eq!(graph.len(), 0);
    assert!(graph.roots().is_empty());
    assert!(graph.first_failure().is_none());
    assert_eq!(graph.adjust_rankings(), Ok(()));
}

#[test]
fn playoff_after_its_qualification_is_linked() {
    let db = directory(8);
    let quali = competition("Q", &[1, 2, 3, 4, 5, 6], &[&[(1, 1), (2, 2), (3, 3), (4, 4), (5, 5), (6, 6)]]);
    let finals = competition("F", &[1, 2, 3, 4], &[&[(4, 1), (3, 2), (2, 3), (1, 4)]]);
    let mut graph = QualificationGraph::new();
    graph.add(&quali, &db);
    graph.add(&finals, &db);
    assert_eq!(graph.len(), 2);
    let comps = graph.competitions();
    assert_eq!(comps[0].index, 0);
    assert_eq!(comps[1].index, 1);
    assert_eq!(comps[0].subcomps, vec![1]);
    assert!(comps[1].subcomps.is_empty());
    assert!(!comps[0].is_subcomp);
    assert!(comps[1].is_subcomp);
    assert_eq!(graph.roots(), vec![0]);
}

#[test]
fn playoff_before_its_qualification_is_linked() {
    let db = directory(8);
    let quali = competition("Q", &[1, 2, 3, 4, 5, 6], &[&[(1, 1)]]);
    let finals = competition("F", &[1, 2, 3, 4], &[&[(4, 1)]]);
    let mut graph = QualificationGraph::new();
    graph.add(&finals, &db);
    graph.add(&quali, &db);
    let comps = graph.competitions();
    assert_eq!(comps[1].subcomps, vec![0]);
    assert!(comps[0].is_subcomp);
    assert!(!comps[1].is_subcomp);
    assert_eq!(graph.roots(), vec![1]);
}

#[test]
fn links_stand_in_rising_order() {
    let db = directory(8);
    let a = competition("A", &[1, 2], &[]);
    let q = competition("Q", &[1, 2, 3, 4, 5], &[]);
    let b = competition("B", &[3, 4], &[]);
    let c = competition("C", &[6], &[]);
    let d = competition("D", &[5], &[]);
    let mut graph = QualificationGraph::new();
    graph.add(&a, &db);
    graph.add(&q, &db);
    graph.add(&b, &db);
    graph.add(&c, &db);
    graph.add(&d, &db);
    let comps = graph.competitions();
    assert_eq!(comps[1].subcomps, vec![0, 2, 4]);
    assert!(comps[0].subcomps.is_empty());
    assert!(comps[3].subcomps.is_empty());
    assert_eq!(graph.roots(), vec![1, 3]);
    for (k, comp) in comps.iter().enumerate() {
        assert!(!comp.subcomps.contains(&k));
    }
}

#[test]
fn competitions_with_the_same_teams_link_each_other() {
    let db = directory(4);
    let a = competition("A", &[1, 2], &[]);
    let b = competition("B", &[2, 1], &[]);
    let mut graph = QualificationGraph::new();
    graph.add(&a, &db);
    graph.add(&b, &db);
    let comps = graph.competitions();
    assert_eq!(comps[0].subcomps, vec![1]);
    assert_eq!(comps[1].subcomps, vec![0]);
    assert!(graph.roots().is_empty());
}

#[test]
fn nested_competitions_are_linked_along_the_chain() {
    let db = directory(4);
    let a = competition("A", &[1, 2, 3], &[&[(1, 1), (2, 2), (3, 3)]]);
    let b = competition("B", &[1, 2], &[&[(2, 1), (1, 2)]]);
    let c = competition("C", &[1], &[&[(1, 1)]]);
    let mut graph = QualificationGraph::new();
    graph.add(&a, &db);
    graph.add(&b, &db);
    graph.add(&c, &db);
    let comps = graph.competitions();
    assert_eq!(comps[0].subcomps, vec![1, 2]);
    assert_eq!(comps[1].subcomps, vec![2]);
    assert!(comps[2].subcomps.is_empty());
    assert_eq!(graph.roots(), vec![0]);
    assert_eq!(graph.adjust_rankings(), Ok(()));
}

#[test]
fn adjust_rankings_seeds_the_playoff_by_its_root() {
    let db = directory(8);
    let teams: Vec<u64> = (1..=8).collect();
    let quali_ranking: Vec<(u64, u64)> = (1..=8).map(|t| (t, t)).collect();
    let quali = competition("Q", &teams, &[&quali_ranking]);
    let finals = competition("F", &teams[..7], &[&[(4, 1), (1, 2), (6, 3), (2, 4), (7, 5), (3, 5), (5, 5)]]);
    let mut graph = QualificationGraph::new();
    graph.add(&quali, &db);
    graph.add(&finals, &db);
    assert_eq!(graph.first_failure(), None);
    assert_eq!(graph.adjust_rankings(), Ok(()));
    assert_eq!(order_of(&graph, 1, 0), vec![(4, 1), (1, 2), (6, 3), (2, 4), (3, 5), (5, 6), (7, 7)]);
    assert_eq!(order_of(&graph, 0, 0), quali_ranking);
    assert_eq!(graph.competitions()[0].subcomps, vec![1]);
    assert!(graph.competitions()[1].is_subcomp);
}

#[test]
fn playoff_of_two_roots_is_seeded_by_both_in_turn() {
    let db = directory(8);
    let first = competition("Q1", &[1, 2, 3, 4, 5, 6, 7], &[&[(1, 1), (2, 2), (3, 3), (4, 4), (5, 5), (6, 5), (7, 7)]]);
    let second = competition("Q2", &[1, 2, 3, 4, 5, 6, 8], &[&[(1, 1), (2, 2), (3, 3), (4, 4), (6, 5), (5, 5), (8, 7)]]);
    let finals = competition("F", &[1, 2, 3, 4, 5, 6], &[&[(4, 1), (3, 2), (2, 3), (1, 4), (6, 5), (5, 5)]]);
    let mut graph = QualificationGraph::new();
    graph.add(&first, &db);
    graph.add(&second, &db);
    graph.add(&finals, &db);
    assert_eq!(graph.roots(), vec![0, 1]);
    assert_eq!(graph.adjust_rankings(), Ok(()));
    // Both roots rank 5 and 6 alike, so the order that the bracket gave stays.
    assert_eq!(order_of(&graph, 2, 0), vec![(4, 1), (3, 2), (2, 3), (1, 4), (6, 5), (5, 6)]);
}

#[test]
fn root_without_phase_stops_the_adjustment() {
    let db = directory(8);
    let quali = competition("Q", &[1, 2, 3, 4, 5, 6], &[]);
    let finals = competition("F", &[1, 2, 3, 4, 5], &[&[(1, 1), (2, 2), (3, 3), (4, 4), (5, 5)]]);
    let mut graph = QualificationGraph::new();
    graph.add(&finals, &db);
    graph.add(&quali, &db);
    assert_eq!(graph.first_failure(), Some(GraphError::EmptyCompetition { index: 1 }));
    assert_eq!(graph.adjust_rankings(), Err(GraphError::EmptyCompetition { index: 1 }));
    assert_eq!(order_of(&graph, 0, 0), vec![(1, 1), (2, 2), (3, 3), (4, 4), (5, 5)]);
}

#[test]
fn team_unknown_to_the_root_stops_the_adjustment() {
    let db = directory(8);
    let quali = competition("Q", &[1, 2, 3, 4, 5, 6], &[&[(1, 1), (2, 2), (3, 3), (4, 4), (5, 5)]]);
    let small = competition("S", &[1, 2], &[&[(2, 1), (1, 2)]]);
    let finals = competition("F", &[1, 2, 3, 4, 5, 6], &[&[(6, 1), (5, 2), (4, 3), (3, 4), (2, 5), (1, 5)]]);
    let mut graph = QualificationGraph::new();
    graph.add(&quali, &db);
    graph.add(&small, &db);
    graph.add(&finals, &db);
    // Q and F hold the same teams, so each is linked to the other: no
    // competition is a root, and nothing is adjusted.
    assert!(graph.roots().is_empty());
    assert_eq!(graph.adjust_rankings(), Ok(()));

    let wide = competition("W", &[1, 2, 3, 4, 5, 6, 7], &[&[(1, 1), (2, 2), (3, 3), (4, 4), (5, 5)]]);
    let mut graph = QualificationGraph::new();
    graph.add(&wide, &db);
    graph.add(&small, &db);
    graph.add(&finals, &db);
    assert_eq!(graph.roots(), vec![0]);
    assert_eq!(
        graph.adjust_rankings(),
        Err(GraphError::MissingQualificationRank { root: 0, subcompetition: 2 })
    );
    assert_eq!(order_of(&graph, 1, 0), vec![(2, 1), (1, 2)]);
    assert_eq!(order_of(&graph, 2, 0), vec![(6, 1), (5, 2), (4, 3), (3, 4), (2, 5), (1, 5)]);
}
