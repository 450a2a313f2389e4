//! Raw records of the federation's tournament export.

#![allow(non_snake_case)]

use vstd::prelude::*;

verus! {

/// A registered player as the export names it: the licence number of the
/// international federation and the federation's own player identifier.
#[derive(Clone, Copy, Debug)]
pub struct PlayerInfos {
    pub noLicense: u64,
    pub playerId: u64,
}

/// The list of registered players.
#[derive(Debug)]
pub struct RegisteredPlayers {
    pub players: Vec<PlayerInfos>,
}

/// The team that a ranking entry places.
#[derive(Clone, Copy, Debug)]
pub struct DefinitivePhaseOpponentRanking {
    pub teamId: u64,
    pub relativeRank: u64,
}

/// One entry of a phase's ranking.
#[derive(Clone, Copy, Debug)]
pub struct Ranking {
    pub definitivePhaseOpponentRanking: DefinitivePhaseOpponentRanking,
    pub rank: u64,
}

/// The ranking of a phase, best first as exported.
#[derive(Debug)]
pub struct PhaseRanking {
    pub rankings: Vec<Ranking>,
}

/// One game of a match, with the goals of both sides.
#[derive(Clone, Copy, Debug)]
pub struct Game {
    pub gameNumber: u64,
    pub scoreTeam1: u64,
    pub scoreTeam2: u64,
}

/// A match between two teams of a competition, as a list of games.
#[derive(Debug)]
pub struct TeamMatch {
    pub team1Id: u64,
    pub team2Id: u64,
    pub matchNumber: u64,
    pub matchDepth: u64,
    pub game: Vec<Game>,
}

/// Outcome of a match.
#[derive(Clone, Copy, Debug, PartialEq, Eq, Structural)]
pub enum TeamMatchResult {
    Draw,
    Win1,
    Win2,
}

/// Sign of one game seen from the first team: 1 if it scored more, -1 if it
/// scored less, 0 on equal scores.
pub open spec fn game_sign(game: Game) -> int {
    if game.scoreTeam1 > game.scoreTeam2 {
        1
    } else if game.scoreTeam1 < game.scoreTeam2 {
        -1
    } else {
        0
    }
}

/// Sum of the game signs over a list of games.
pub open spec fn sign_sum(games: Seq<Game>) -> int
    decreases games.len(),
{
    if games.len() == 0 {
        0
    } else {
        sign_sum(games.drop_last()) + game_sign(games.last())
    }
}

/// The outcome that a sum of game signs stands for.
pub open spec fn result_of_sum(sum: int) -> TeamMatchResult {
    if sum > 0 {
        TeamMatchResult::Win1
    } else if sum < 0 {
        TeamMatchResult::Win2
    } else {
        TeamMatchResult::Draw
    }
}

/// The sum of signs of `n` games lies between `-n` and `n`.
pub proof fn lemma_sign_sum_bounds(games: Seq<Game>)
    ensures
        -games.len() <= sign_sum(games) <= games.len(),
    decreases games.len(),
{
    if games.len() > 0 {
        lemma_sign_sum_bounds(games.drop_last());
    }
}

/// The players of a team by identifier. A second identifier of zero says
/// that the team has no second player.
#[derive(Clone, Copy, Debug)]
pub struct Team {
    pub player1Id: u64,
    pub player2Id: u64,
}

/// A team entered in a competition.
#[derive(Clone, Copy, Debug)]
pub struct CompetitionTeam {
    pub id: u64,
    pub team: Team,
}

/// A stage of a competition with its ranking and matches.
#[derive(Debug)]
pub struct Phase {
    pub phaseType: String,
    pub phaseRanking: PhaseRanking,
    pub teamMatch: Vec<TeamMatch>,
}

/// A competition of a tournament.
#[derive(Debug)]
pub struct Competition {
    pub competitionType: String,
    pub name: String,
    pub sex: String,
    pub phase: Vec<Phase>,
    pub competitionTeam: Vec<CompetitionTeam>,
}

/// A tournament and its competitions.
#[derive(Debug)]
pub struct Tournament {
    pub name: String,
    pub competition: Vec<Competition>,
}

/// The list of tournaments.
#[derive(Debug)]
pub struct Tournaments {
    pub tournaments: Vec<Tournament>,
}

/// A whole export: the registered players and the tournaments.
#[derive(Debug)]
pub struct Ffft {
    pub registeredPlayers: RegisteredPlayers,
    pub tournaments: Tournaments,
}

impl TeamMatch {
    /// The outcome of the match as a function of its games.
    pub open spec fn spec_result(&self) -> TeamMatchResult {
        result_of_sum(sign_sum(self.game@))
    }

    /// Decides the match: the side that won more games wins, equal counts draw.
    pub fn result(&self) -> (r: TeamMatchResult)
        ensures
            r == self.spec_result(),
    {
        let mut score: i128 = 0;
        let n: usize = self.game.len();
        let mut i: usize = 0;
        while i < n
            invariant
                n == self.game@.len(),
                i <= n,
                score == sign_sum(self.game@.take(i as int)),
            decreases n - i,
        {
            proof {
                lemma_sign_sum_bounds(self.game@.take(i as int));
                assert(self.game@.take(i as int + 1).drop_last() =~= self.game@.take(i as int));
            }
            let game = &self.game[i];
            if game.scoreTeam1 > game.scoreTeam2 {
                score = score + 1;
            } else if game.scoreTeam1 < game.scoreTeam2 {
                score = score - 1;
            }
            i = i + 1;
        }
        proof {
            assert(self.game@.take(n as int) =~= self.game@);
        }
        if score > 0 {
            TeamMatchResult::Win1
        } else if score < 0 {
            TeamMatchResult::Win2
        } else {
            TeamMatchResult::Draw
        }
    }
}

} // verus!
