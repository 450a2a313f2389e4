use tournament_export::fast::{Game, TeamMatch, TeamMatchResult};

fn games(scores: &[(u64, u64)]) -> TeamMatch {
    let mut game = Vec::new();
    for (i, (a, b)) in scores.iter().enumerate() {
        game.push(Game { gameNumber: i as u64 + 1, scoreTeam1: *a, scoreTeam2: *b });
    }
    TeamMatch { team1Id: 1, team2Id: 2, matchNumber: 1, matchDepth: 0, game }
}

#[test]
fn two_wins_and_a_loss_is_a_win_for_team1() {
    assert_eq!(games(&[(2, 1), (0, 2), (3, 1)]).result(), TeamMatchResult::Win1);
}

#[test]
fn a_single_tied_game_is_a_draw() {
    assert_eq!(games(&[(1, 1)]).result(), TeamMatchResult::Draw);
}

#[test]
fn more_lost_games_is_a_win_for_team2() {
    assert_eq!(games(&[(0, 1), (2, 1), (1, 3)]).result(), TeamMatchResult::Win2);
}

#[test]
fn match_without_games_is_a_draw() {
    assert_eq!(games(&[]).result(), TeamMatchResult::Draw);
}

#[test]
fn one_game_each_is_a_draw_whatever_the_margins() {
    assert_eq!(games(&[(10, 0), (0, 1)]).result(), TeamMatchResult::Draw);
}

#[test]
fn scores_count_by_their_sign_however_large() {
    assert_eq!(games(&[(u64::MAX, 0)]).result(), TeamMatchResult::Win1);
    assert_eq!(games(&[(0, u64::MAX)]).result(), TeamMatchResult::Win2);
    assert_eq!(games(&[(4294967296, 1)]).result(), TeamMatchResult::Win1);
    assert_eq!(games(&[(u64::MAX, u64::MAX)]).result(), TeamMatchResult::Draw);
}
