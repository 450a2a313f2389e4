//! The tournament model: teams, matches, phases and competitions built from
//! raw records, the qualification links between competitions, and the seeding
//! of a play-off ranking by qualification order.

use crate::fast;
use crate::fast::TeamMatchResult;
use crate::itsf::{ItsfPlayer, ItsfPlayerDb, PlayerView};
use crate::seeding::{as_positions, is_seeding, lemma_seeding_unique, seeding_order};
use std::collections::HashMap;
use std::rc::Rc;
use vstd::prelude::*;
use vstd::std_specs::iter::IteratorSpec;
use vstd::string::*;
use vstd::std_specs::cmp::PartialEqSpecImpl;

verus! {

broadcast use vstd::std_specs::hash::group_hash_axioms;

/// `Rc::clone`: another pointer to the same allocation, so the result stands
/// for the value that `rc` stands for.
#[verifier::external_body]
pub(crate) fn share<T>(rc: &Rc<T>) -> (res: Rc<T>)
    ensures
        res == *rc,
{
    Rc::clone(rc)
}

/// What a team is to the model: its identifier within the competition and its
/// players.
pub struct TeamView {
    pub id: u64,
    pub player1: PlayerView,
    pub player2: Option<PlayerView>,
}

impl TeamView {
    /// Two teams are the same team when their players are the same, whatever
    /// their identifiers.
    pub open spec fn same(self, other: TeamView) -> bool {
        self.player1 == other.player1 && self.player2 == other.player2
    }

    /// What a team is found by in a ranking map: its players.
    pub open spec fn key(self) -> TeamKey {
        (self.player1, self.player2)
    }
}

/// The players of a team, by which rankings of different competitions are
/// matched.
pub type TeamKey = (PlayerView, Option<PlayerView>);

/// A team of one or two resolved players.
pub struct Team {
    pub id: u64,
    pub player1: ItsfPlayer,
    pub player2: Option<ItsfPlayer>,
}

/// A team shared between the team table, the rankings and the matches.
pub type TeamRc = Rc<Team>;

impl View for Team {
    type V = TeamView;

    open spec fn view(&self) -> TeamView {
        TeamView {
            id: self.id,
            player1: self.player1@,
            player2: match self.player2 {
                Some(p) => Some(p@),
                None => None,
            },
        }
    }
}

/// The second player of a team: the player that the identifier resolves to,
/// and none where the identifier is zero, which says that there is no second
/// player, whatever the directory holds.
pub open spec fn resolve_second_player(id: u64, players: Map<u64, PlayerView>) -> Option<
    PlayerView,
> {
    if id != 0 && players.contains_key(id) {
        Some(players[id])
    } else {
        None
    }
}

/// The team that a raw team record resolves to: none unless the directory
/// holds the first player; the second player is kept where it resolves.
pub open spec fn resolve_team(raw: fast::CompetitionTeam, players: Map<u64, PlayerView>) -> Option<
    TeamView,
> {
    if players.contains_key(raw.team.player1Id) {
        Some(
            TeamView {
                id: raw.id,
                player1: players[raw.team.player1Id],
                player2: resolve_second_player(raw.team.player2Id, players),
            },
        )
    } else {
        None
    }
}

/// The view of an optional team.
pub open spec fn option_team_view(team: Option<Team>) -> Option<TeamView> {
    match team {
        Some(t) => Some(t@),
        None => None,
    }
}

/// Teams are told apart by their players alone: two raw teams that name the
/// same players resolve, under whatever identifiers, to teams that are the
/// same team and are found under the same key.
pub proof fn lemma_same_players_same_team(
    a: fast::CompetitionTeam,
    b: fast::CompetitionTeam,
    players: Map<u64, PlayerView>,
)
    requires
        a.team.player1Id == b.team.player1Id,
        a.team.player2Id == b.team.player2Id,
        players.contains_key(a.team.player1Id),
    ensures
        resolve_team(a, players) is Some,
        resolve_team(b, players) is Some,
        resolve_team(a, players)->0.same(resolve_team(b, players)->0),
        resolve_team(a, players)->0.key() == resolve_team(b, players)->0.key(),
{
}

/// Being the same team is having the same key, and is reflexive, symmetric
/// and transitive.
pub proof fn lemma_same_team_is_equivalence(a: TeamView, b: TeamView, c: TeamView)
    ensures
        a.same(b) <==> a.key() == b.key(),
        a.same(a),
        a.same(b) ==> b.same(a),
        a.same(b) && b.same(c) ==> a.same(c),
{
}

/// The names of a team's players in round brackets: first and last name of
/// each, the two players of a doubles team parted by a comma.
pub open spec fn team_label(team: TeamView) -> Seq<char> {
    match team.player2 {
        Some(second) => "("@ + team.player1.first_name + " "@ + team.player1.last_name + ", "@
            + second.first_name + " "@ + second.last_name + ")"@,
        None => "("@ + team.player1.first_name + " "@ + team.player1.last_name + ")"@,
    }
}

impl Team {
    /// The second player behind an identifier; zero says that there is none.
    fn second_player(id: u64, players: &ItsfPlayerDb) -> (player: Option<&ItsfPlayer>)
        ensures
            player is Some <==> resolve_second_player(id, players@) is Some,
            player matches Some(p) ==> Some(p@) == resolve_second_player(id, players@),
    {
        if id == 0 {
            None
        } else {
            players.get(id)
        }
    }

    /// Builds the team of a raw team record from the player directory.
    pub fn new(competition_team: &fast::CompetitionTeam, players: &ItsfPlayerDb) -> (team: Option<
        Self,
    >)
        ensures
            option_team_view(team) == resolve_team(*competition_team, players@),
    {
        let id = competition_team.id;
        let player1 = players.get(competition_team.team.player1Id);
        let player2 = Team::second_player(competition_team.team.player2Id, players);
        match player1 {
            Some(player1) => {
                let player2 = match player2 {
                    Some(p) => Some(p.clone()),
                    None => None,
                };
                Some(Team { id, player1: player1.clone(), player2 })
            },
            None => None,
        }
    }

    /// The team by the names of its players, in round brackets.
    pub fn describe(&self) -> (label: String)
        ensures
            label@ == team_label(self@),
    {
        let mut label = String::from_str("(");
        label.append(self.player1.first_name.as_str());
        label.append(" ");
        label.append(self.player1.last_name.as_str());
        match &self.player2 {
            Some(second) => {
                label.append(", ");
                label.append(second.first_name.as_str());
                label.append(" ");
                label.append(second.last_name.as_str());
            },
            None => {},
        }
        label.append(")");
        label
    }

    /// Whether both teams have the same players.
    pub fn is_same(&self, other: &Team) -> (same: bool)
        ensures
            same == self@.same(other@),
    {
        self.player1 == other.player1 && match (&self.player2, &other.player2) {
            (Some(a), Some(b)) => a == b,
            (None, None) => true,
            _ => false,
        }
    }
}

impl Clone for Team {
    fn clone(&self) -> (res: Self)
        ensures
            res@ == self@,
    {
        let player2 = match &self.player2 {
            Some(p) => Some(p.clone()),
            None => None,
        };
        Team { id: self.id, player1: self.player1.clone(), player2 }
    }
}

impl PartialEq for Team {
    fn eq(&self, other: &Self) -> (r: bool) {
        self.is_same(other)
    }
}

impl PartialEqSpecImpl for Team {
    open spec fn obeys_eq_spec() -> bool {
        true
    }

    open spec fn eq_spec(&self, other: &Self) -> bool {
        self@.same(other@)
    }
}

impl Eq for Team {

}

impl std::hash::Hash for Team {
    /// Calls `Hash::hash` of the first and of the second player on the given
    /// hasher, and never feeds it the identifier, so that teams that compare
    /// equal hash alike. No contract: nothing is claimed of the hasher.
    #[verifier::external_body]
    fn hash<H: std::hash::Hasher>(&self, state: &mut H) {
        self.player1.hash(state);
        self.player2.hash(state);
    }
}

/// What a match is to the model.
pub struct MatchView {
    pub source: fast::TeamMatch,
    pub result: TeamMatchResult,
    pub team1: TeamView,
    pub team2: TeamView,
}

/// A match between two teams of the team table.
pub struct Match<'a> {
    pub source: &'a fast::TeamMatch,
    pub result: TeamMatchResult,
    pub team1: TeamRc,
    pub team2: TeamRc,
}

impl<'a> View for Match<'a> {
    type V = MatchView;

    open spec fn view(&self) -> MatchView {
        MatchView {
            source: *self.source,
            result: self.result,
            team1: self.team1@,
            team2: self.team2@,
        }
    }
}

/// A match in words: the winner before the loser with `>` between them, or
/// the two teams of a draw with `-` between them.
pub open spec fn match_label(m: MatchView) -> Seq<char> {
    match m.result {
        TeamMatchResult::Draw => team_label(m.team1) + " - "@ + team_label(m.team2),
        TeamMatchResult::Win1 => team_label(m.team1) + " > "@ + team_label(m.team2),
        TeamMatchResult::Win2 => team_label(m.team2) + " > "@ + team_label(m.team1),
    }
}

impl<'a> Match<'a> {
    /// The match in words.
    pub fn describe(&self) -> (label: String)
        ensures
            label@ == match_label(self@),
    {
        let first = self.team1.describe();
        let second = self.team2.describe();
        match self.result {
            TeamMatchResult::Draw => {
                let mut label = first;
                label.append(" - ");
                label.append(second.as_str());
                label
            },
            TeamMatchResult::Win1 => {
                let mut label = first;
                label.append(" > ");
                label.append(second.as_str());
                label
            },
            TeamMatchResult::Win2 => {
                let mut label = second;
                label.append(" > ");
                label.append(first.as_str());
                label
            },
        }
    }
}

/// What a phase is to the model.
pub struct PhaseView {
    pub source: fast::Phase,
    pub phase_type: Seq<char>,
    pub ranking: Seq<(TeamView, u64)>,
    pub matches: Seq<MatchView>,
}

/// A stage of a competition: its ranking, best first, and its matches.
pub struct Phase<'a> {
    pub source: &'a fast::Phase,
    pub phase_type: String,
    pub ranking: Vec<(TeamRc, u64)>,
    pub matches: Vec<Match<'a>>,
}

/// The view of a ranking list.
pub open spec fn ranking_view(ranking: Seq<(TeamRc, u64)>) -> Seq<(TeamView, u64)> {
    ranking.map_values(|e: (TeamRc, u64)| (e.0@, e.1))
}

/// The view of a match list.
pub open spec fn matches_view(matches: Seq<Match>) -> Seq<MatchView> {
    matches.map_values(|m: Match| m@)
}

impl<'a> View for Phase<'a> {
    type V = PhaseView;

    open spec fn view(&self) -> PhaseView {
        PhaseView {
            source: *self.source,
            phase_type: self.phase_type@,
            ranking: ranking_view(self.ranking@),
            matches: matches_view(self.matches@),
        }
    }
}

/// The view of a team table.
pub open spec fn table_view(teams: Map<u64, TeamRc>) -> Map<u64, TeamView> {
    teams.map_values(|t: TeamRc| t@)
}

/// The team table of a list of raw team records: each record that resolves is
/// entered under its identifier, a later one replacing an earlier one.
pub open spec fn team_table(raw: Seq<fast::CompetitionTeam>, players: Map<u64, PlayerView>) -> Map<
    u64,
    TeamView,
>
    decreases raw.len(),
{
    if raw.len() == 0 {
        Map::empty()
    } else {
        let rest = team_table(raw.drop_last(), players);
        match resolve_team(raw.last(), players) {
            Some(team) => rest.insert(team.id, team),
            None => rest,
        }
    }
}

/// The team table holds a team under `id` exactly where the directory holds
/// the first player of a raw team with that identifier, and each team stands
/// under its own identifier.
pub proof fn lemma_team_table_entries(
    raw: Seq<fast::CompetitionTeam>,
    players: Map<u64, PlayerView>,
    id: u64,
)
    ensures
        team_table(raw, players).contains_key(id) <==> exists|i: int|
            0 <= i < raw.len() && (#[trigger] raw[i]).id == id && players.contains_key(
                raw[i].team.player1Id,
            ),
        team_table(raw, players).contains_key(id) ==> team_table(raw, players)[id].id == id,
    decreases raw.len(),
{
    if raw.len() > 0 {
        let rest = raw.drop_last();
        lemma_team_table_entries(rest, players, id);
        let last = raw.last();
        assert(last == raw[raw.len() - 1]);
        if team_table(raw, players).contains_key(id) {
            if players.contains_key(last.team.player1Id) && last.id == id {
            } else {
                assert(team_table(rest, players).contains_key(id));
                let i = choose|i: int|
                    0 <= i < rest.len() && (#[trigger] rest[i]).id == id && players.contains_key(
                        rest[i].team.player1Id,
                    );
                assert(raw[i] == rest[i]);
            }
        }
        if exists|i: int|
            0 <= i < raw.len() && (#[trigger] raw[i]).id == id && players.contains_key(
                raw[i].team.player1Id,
            ) {
            let i = choose|i: int|
                0 <= i < raw.len() && (#[trigger] raw[i]).id == id && players.contains_key(
                    raw[i].team.player1Id,
                );
            if i < raw.len() - 1 {
                assert(rest[i] == raw[i]);
            }
        }
    }
}

/// The team under an identifier is that of the last raw team with the
/// identifier whose first player the directory holds. Where no identifier
/// stands twice, it is the team of the one raw team that has it.
pub proof fn lemma_team_table_last(
    raw: Seq<fast::CompetitionTeam>,
    players: Map<u64, PlayerView>,
    i: int,
)
    requires
        0 <= i < raw.len(),
        players.contains_key(raw[i].team.player1Id),
        forall|j: int|
            i < j < raw.len() && (#[trigger] raw[j]).id == raw[i].id ==> !players.contains_key(
                raw[j].team.player1Id,
            ),
    ensures
        team_table(raw, players).contains_key(raw[i].id),
        Some(team_table(raw, players)[raw[i].id]) == resolve_team(raw[i], players),
    decreases raw.len(),
{
    let rest = raw.drop_last();
    assert(raw.last() == raw[raw.len() - 1]);
    if i < raw.len() - 1 {
        assert(rest[i] == raw[i]);
        assert forall|j: int| i < j < rest.len() && (#[trigger] rest[j]).id
            == rest[i].id implies !players.contains_key(rest[j].team.player1Id) by {
            assert(rest[j] == raw[j]);
        }
        lemma_team_table_last(rest, players, i);
    }
}

/// The ranking entry of a raw entry: none unless its team is in the table.
pub open spec fn build_entry(raw: fast::Ranking, table: Map<u64, TeamView>) -> Option<
    (TeamView, u64),
> {
    let id = raw.definitivePhaseOpponentRanking.teamId;
    if table.contains_key(id) {
        Some((table[id], raw.rank))
    } else {
        None
    }
}

/// The match of a raw match: none unless both of its teams are in the table.
pub open spec fn build_match(raw: fast::TeamMatch, table: Map<u64, TeamView>) -> Option<
    MatchView,
> {
    if table.contains_key(raw.team1Id) && table.contains_key(raw.team2Id) {
        Some(
            MatchView {
                source: raw,
                result: raw.spec_result(),
                team1: table[raw.team1Id],
                team2: table[raw.team2Id],
            },
        )
    } else {
        None
    }
}

/// The ranking of a phase: the raw entries in their order, without those whose
/// team is not in the table.
pub open spec fn build_ranking(raw: Seq<fast::Ranking>, table: Map<u64, TeamView>) -> Seq<
    (TeamView, u64),
> {
    raw.filter_map(|r: fast::Ranking| build_entry(r, table))
}

/// The matches of a phase: the raw matches in their order, without those of
/// which a team is not in the table.
pub open spec fn build_matches(raw: Seq<fast::TeamMatch>, table: Map<u64, TeamView>) -> Seq<
    MatchView,
> {
    raw.filter_map(|m: fast::TeamMatch| build_match(m, table))
}

/// The phase of a raw phase over a team table.
pub open spec fn build_phase(raw: fast::Phase, table: Map<u64, TeamView>) -> PhaseView {
    PhaseView {
        source: raw,
        phase_type: raw.phaseType@,
        ranking: build_ranking(raw.phaseRanking.rankings@, table),
        matches: build_matches(raw.teamMatch@, table),
    }
}

impl<'a> Phase<'a> {
    /// Builds the phase of a raw phase: ranking entries and matches that name
    /// a team outside the table are left out.
    pub fn new(phase: &'a fast::Phase, teams: &HashMap<u64, TeamRc>) -> (built: Self)
        ensures
            built@ == build_phase(*phase, table_view(teams@)),
    {
        let ghost table = table_view(teams@);
        let phase_type = phase.phaseType.clone();
        let mut ranking: Vec<(TeamRc, u64)> = Vec::new();
        let mut matches: Vec<Match<'a>> = Vec::new();

        let raw_ranking = &phase.phaseRanking.rankings;
        let n: usize = raw_ranking.len();
        let mut i: usize = 0;
        while i < n
            invariant
                n == raw_ranking@.len(),
                i <= n,
                table == table_view(teams@),
                ranking_view(ranking@) == build_ranking(raw_ranking@.take(i as int), table),
            decreases n - i,
        {
            let entry = &raw_ranking[i];
            let ghost before = ranking@;
            proof {
                raw_ranking@.lemma_filter_map_take_succ(
                    |r: fast::Ranking| build_entry(r, table),
                    i as int,
                );
            }
            match teams.get(&entry.definitivePhaseOpponentRanking.teamId) {
                Some(team) => {
                    ranking.push((share(team), entry.rank));
                    assert(ranking_view(ranking@) =~= ranking_view(before) + seq![
                        (team@, entry.rank),
                    ]);
                },
                None => {
                    assert(ranking_view(ranking@) =~= ranking_view(before) + Seq::empty());
                },
            }
            i = i + 1;
        }
        assert(raw_ranking@.take(n as int) =~= raw_ranking@);

        let raw_matches = &phase.teamMatch;
        let m: usize = raw_matches.len();
        let mut j: usize = 0;
        while j < m
            invariant
                m == raw_matches@.len(),
                j <= m,
                table == table_view(teams@),
                matches_view(matches@) == build_matches(raw_matches@.take(j as int), table),
            decreases m - j,
        {
            let phase_match = &raw_matches[j];
            let ghost before = matches@;
            proof {
                raw_matches@.lemma_filter_map_take_succ(
                    |r: fast::TeamMatch| build_match(r, table),
                    j as int,
                );
            }
            let team1 = teams.get(&phase_match.team1Id);
            let team2 = teams.get(&phase_match.team2Id);
            match (team1, team2) {
                (Some(team1), Some(team2)) => {
                    let built = Match {
                        source: phase_match,
                        result: phase_match.result(),
                        team1: share(team1),
                        team2: share(team2),
                    };
                    matches.push(built);
                    assert(matches_view(matches@) =~= matches_view(before) + seq![built@]);
                },
                _ => {
                    assert(matches_view(matches@) =~= matches_view(before) + Seq::empty());
                },
            }
            j = j + 1;
        }
        assert(raw_matches@.take(m as int) =~= raw_matches@);

        Phase { source: phase, phase_type, ranking, matches }
    }
}

/// The rank of each team of a ranking list, by the team's players. Where a
/// team stands twice in the list, the later entry counts.
pub open spec fn rank_map(entries: Seq<(TeamView, u64)>) -> Map<TeamKey, u64>
    decreases entries.len(),
{
    if entries.len() == 0 {
        Map::empty()
    } else {
        rank_map(entries.drop_last()).insert(entries.last().0.key(), entries.last().1)
    }
}

/// A team that no entry holds has no rank.
pub proof fn lemma_rank_map_absent(entries: Seq<(TeamView, u64)>, key: TeamKey)
    requires
        forall|j: int| 0 <= j < entries.len() ==> (#[trigger] entries[j]).0.key() != key,
    ensures
        !rank_map(entries).contains_key(key),
    decreases entries.len(),
{
    if entries.len() > 0 {
        let rest = entries.drop_last();
        assert forall|j: int| 0 <= j < rest.len() implies (#[trigger] rest[j]).0.key() != key by {
            assert(rest[j] == entries[j]);
        }
        lemma_rank_map_absent(rest, key);
        assert(entries.last() == entries[entries.len() - 1]);
    }
}

/// The rank of a team is that of the last entry that holds it.
pub proof fn lemma_rank_map_last(entries: Seq<(TeamView, u64)>, i: int, key: TeamKey)
    requires
        0 <= i < entries.len(),
        entries[i].0.key() == key,
        forall|j: int| i < j < entries.len() ==> (#[trigger] entries[j]).0.key() != key,
    ensures
        rank_map(entries).contains_key(key),
        rank_map(entries)[key] == entries[i].1,
    decreases entries.len(),
{
    let rest = entries.drop_last();
    if i < entries.len() - 1 {
        assert(entries.last() == entries[entries.len() - 1]);
        assert forall|j: int| i < j < rest.len() implies (#[trigger] rest[j]).0.key() != key by {
            assert(rest[j] == entries[j]);
        }
        assert(rest[i] == entries[i]);
        lemma_rank_map_last(rest, i, key);
    }
}

/// The ranks of a competition's ranking phase, found by team.
pub struct Rankings {
    pub entries: Vec<(TeamRc, u64)>,
}

impl View for Rankings {
    type V = Map<TeamKey, u64>;

    open spec fn view(&self) -> Map<TeamKey, u64> {
        rank_map(ranking_view(self.entries@))
    }
}

impl Rankings {
    /// The rank of the team with the players of `team`, if it has one.
    pub fn get(&self, team: &Team) -> (rank: Option<u64>)
        ensures
            rank is Some <==> self@.contains_key(team@.key()),
            rank matches Some(r) ==> r == self@[team@.key()],
    {
        let ghost entries = ranking_view(self.entries@);
        let ghost key = team@.key();
        let mut i: usize = self.entries.len();
        while i > 0
            invariant
                i <= self.entries@.len(),
                entries == ranking_view(self.entries@),
                key == team@.key(),
                forall|j: int| i <= j < entries.len() ==> (#[trigger] entries[j]).0.key() != key,
            decreases i,
        {
            i = i - 1;
            let entry = &self.entries[i];
            if entry.0.is_same(team) {
                proof {
                    lemma_rank_map_last(entries, i as int, key);
                }
                return Some(entry.1);
            }
        }
        proof {
            lemma_rank_map_absent(entries, key);
        }
        None
    }

    /// Whether the team with the players of `team` has a rank.
    pub fn contains(&self, team: &Team) -> (ranked: bool)
        ensures
            ranked == self@.contains_key(team@.key()),
    {
        self.get(team).is_some()
    }
}

/// Whether every team of a ranking has a qualification rank.
pub open spec fn all_ranked(ranking: Seq<(TeamView, u64)>, quali: Map<TeamKey, u64>) -> bool {
    forall|p: int| 0 <= p < ranking.len() ==> quali.contains_key((#[trigger] ranking[p]).0.key())
}

/// The qualification rank of each entry of a ranking, by position.
pub open spec fn seeds_of(ranking: Seq<(TeamView, u64)>, quali: Map<TeamKey, u64>) -> Seq<u64> {
    Seq::new(ranking.len(), |p: int| quali[ranking[p].0.key()])
}

/// The ranking whose position `i` holds the team that stood at `perm[i]`,
/// ranked `i + 1`.
pub open spec fn reseeded(before: Seq<(TeamView, u64)>, perm: Seq<int>) -> Seq<(TeamView, u64)> {
    Seq::new(before.len(), |i: int| (before[perm[i]].0, (i + 1) as u64))
}

/// Whether `after` is `before` put in seeding order by the qualification
/// ranks `quali` and numbered anew from one.
pub open spec fn is_adjusted(
    before: Seq<(TeamView, u64)>,
    after: Seq<(TeamView, u64)>,
    quali: Map<TeamKey, u64>,
) -> bool {
    exists|perm: Seq<int>| #[trigger]
        is_seeding(perm, seeds_of(before, quali)) && after == reseeded(before, perm)
}

/// A ranking and the ranks of its qualification have one adjusted ranking,
/// and no other.
pub proof fn lemma_adjusted_unique(
    before: Seq<(TeamView, u64)>,
    first: Seq<(TeamView, u64)>,
    second: Seq<(TeamView, u64)>,
    quali: Map<TeamKey, u64>,
)
    requires
        is_adjusted(before, first, quali),
        is_adjusted(before, second, quali),
    ensures
        first == second,
{
    let seeds = seeds_of(before, quali);
    let p1 = choose|perm: Seq<int>| #[trigger]
        is_seeding(perm, seeds) && first == reseeded(before, perm);
    let p2 = choose|perm: Seq<int>| #[trigger]
        is_seeding(perm, seeds) && second == reseeded(before, perm);
    lemma_seeding_unique(p1, p2, seeds);
}

/// An adjusted ranking is as long as it was, its ranks run from one without
/// gap or repeat, and its first four places hold the teams they held.
pub proof fn lemma_adjusted_shape(
    before: Seq<(TeamView, u64)>,
    after: Seq<(TeamView, u64)>,
    quali: Map<TeamKey, u64>,
)
    requires
        is_adjusted(before, after, quali),
        before.len() < u64::MAX,
    ensures
        after.len() == before.len(),
        forall|i: int| 0 <= i < after.len() ==> (#[trigger] after[i]).1 == i + 1,
        forall|i: int| 0 <= i < after.len() && i < 4 ==> (#[trigger] after[i]).0 == before[i].0,
{
    let perm = choose|perm: Seq<int>| #[trigger]
        is_seeding(perm, seeds_of(before, quali)) && after == reseeded(before, perm);
    assert forall|i: int| 0 <= i < after.len() && i < 4 implies (#[trigger] after[i]).0
        == before[i].0 by {
        assert(perm[i] == i);
    }
}

/// Adjusting a ranking keeps its teams: ranks that reach every team before
/// reach every team after.
pub proof fn lemma_adjusted_all_ranked(
    before: Seq<(TeamView, u64)>,
    after: Seq<(TeamView, u64)>,
    quali: Map<TeamKey, u64>,
    other: Map<TeamKey, u64>,
)
    requires
        is_adjusted(before, after, quali),
        all_ranked(before, other),
    ensures
        all_ranked(after, other),
{
    let perm = choose|perm: Seq<int>| #[trigger]
        is_seeding(perm, seeds_of(before, quali)) && after == reseeded(before, perm);
    assert forall|p: int| 0 <= p < after.len() implies other.contains_key(
        (#[trigger] after[p]).0.key(),
    ) by {
        assert(0 <= perm[p] < before.len());
        assert(after[p].0 == before[perm[p]].0);
    }
}

/// Whether `after` is the phase `before` with its ranking adjusted.
pub open spec fn phase_adjusted(before: PhaseView, after: PhaseView, quali: Map<TeamKey, u64>) -> bool {
    &&& after.source == before.source
    &&& after.phase_type == before.phase_type
    &&& after.matches == before.matches
    &&& is_adjusted(before.ranking, after.ranking, quali)
}

impl<'a> Phase<'a> {
    /// Whether every team of the ranking has a rank in `ranks`.
    pub fn ranked_by(&self, ranks: &Rankings) -> (ranked: bool)
        ensures
            ranked == all_ranked(self@.ranking, ranks@),
    {
        let n: usize = self.ranking.len();
        let mut i: usize = 0;
        while i < n
            invariant
                n == self.ranking@.len(),
                i <= n,
                forall|p: int|
                    0 <= p < i ==> ranks@.contains_key((#[trigger] self@.ranking[p]).0.key()),
            decreases n - i,
        {
            if !ranks.contains(&self.ranking[i].0) {
                assert(!ranks@.contains_key(self@.ranking[i as int].0.key()));
                return false;
            }
            i = i + 1;
        }
        true
    }

    /// Puts the ranking in seeding order: the first four places stay, each
    /// later band of places is ordered by qualification rank, equal ranks
    /// keeping their order, and the ranks are numbered anew from one.
    pub fn adjust_ranking(&mut self, qualification_rankings: &Rankings)
        requires
            all_ranked(old(self)@.ranking, qualification_rankings@),
        ensures
            phase_adjusted(old(self)@, final(self)@, qualification_rankings@),
            final(self)@.ranking.len() == old(self)@.ranking.len(),
            forall|i: int|
                0 <= i < final(self)@.ranking.len() ==> (#[trigger] final(self)@.ranking[i]).1 == i
                    + 1,
            forall|i: int|
                0 <= i < final(self)@.ranking.len() && i < 4 ==> (#[trigger] final(self)@.ranking[i]).0 == old(self)@.ranking[i].0,
    {
        let ghost before = self@.ranking;
        let ghost quali = qualification_rankings@;
        let n: usize = self.ranking.len();
        let mut seeds: Vec<u64> = Vec::new();
        let mut i: usize = 0;
        while i < n
            invariant
                n == self.ranking@.len(),
                i <= n,
                before == self@.ranking,
                quali == qualification_rankings@,
                all_ranked(before, quali),
                seeds@.len() == i,
                forall|p: int| 0 <= p < i ==> seeds@[p] == quali[(#[trigger] before[p]).0.key()],
            decreases n - i,
        {
            assert(quali.contains_key(before[i as int].0.key()));
            let seed = qualification_rankings.get(&self.ranking[i].0);
            seeds.push(seed.unwrap());
            i = i + 1;
        }
        assert(seeds@ =~= seeds_of(before, quali));
        let order = seeding_order(&seeds);
        let ghost perm = as_positions(order@);
        let mut adjusted: Vec<(TeamRc, u64)> = Vec::new();
        let mut t: usize = 0;
        while t < n
            invariant
                n == self.ranking@.len(),
                n == order@.len(),
                t <= n,
                before == self@.ranking,
                perm == as_positions(order@),
                is_seeding(perm, seeds@),
                adjusted@.len() == t,
                forall|i: int|
                    0 <= i < t ==> (#[trigger] adjusted@[i]).0@ == before[perm[i]].0
                        && adjusted@[i].1 == i + 1,
            decreases n - t,
        {
            let from = order[t];
            assert(perm[t as int] == from);
            assert(before[from as int] == (self.ranking@[from as int].0@, self.ranking@[from as int].1));
            adjusted.push((share(&self.ranking[from].0), (t + 1) as u64));
            t = t + 1;
        }
        self.ranking = adjusted;
        assert(self@.ranking =~= reseeded(before, perm));
    }
}

/// What a competition is to the model.
pub struct CompetitionView {
    pub index: usize,
    pub source: fast::Competition,
    pub teams: Map<u64, TeamView>,
    pub phases: Seq<PhaseView>,
    pub subcomps: Seq<usize>,
    pub is_subcomp: bool,
}

/// A competition: its team table, its phases, and its place among the
/// competitions of one run.
///
/// `index` tells competitions apart: it is the position of the competition in
/// the order in which the raw records are processed. `subcomps` holds the
/// indices of the competitions that this one qualifies into, and `is_subcomp`
/// says whether another competition qualifies into this one.
pub struct Competition<'a> {
    pub index: usize,
    pub source: &'a fast::Competition,
    pub teams: HashMap<u64, TeamRc>,
    pub phases: Vec<Phase<'a>>,
    pub subcomps: Vec<usize>,
    pub is_subcomp: bool,
}

/// The view of a phase list.
pub open spec fn phases_view(phases: Seq<Phase>) -> Seq<PhaseView> {
    phases.map_values(|p: Phase| p@)
}

impl<'a> View for Competition<'a> {
    type V = CompetitionView;

    open spec fn view(&self) -> CompetitionView {
        CompetitionView {
            index: self.index,
            source: *self.source,
            teams: table_view(self.teams@),
            phases: phases_view(self.phases@),
            subcomps: self.subcomps@,
            is_subcomp: self.is_subcomp,
        }
    }
}

/// The competition of a raw competition record: the team table of its raw
/// teams, each raw phase built over that table, no link yet.
pub open spec fn build_competition(
    index: usize,
    raw: fast::Competition,
    players: Map<u64, PlayerView>,
) -> CompetitionView {
    let table = team_table(raw.competitionTeam@, players);
    CompetitionView {
        index,
        source: raw,
        teams: table,
        phases: raw.phase@.map_values(|p: fast::Phase| build_phase(p, table)),
        subcomps: Seq::empty(),
        is_subcomp: false,
    }
}

/// A team that does not resolve is dropped with all that names it: where the
/// directory holds the first player of no raw team with the identifier `id`,
/// the competition built has no team under `id`, and no phase of it holds a
/// ranking entry or a match of a team with that identifier.
pub proof fn lemma_unresolved_team_dropped(
    index: usize,
    raw: fast::Competition,
    players: Map<u64, PlayerView>,
    id: u64,
)
    requires
        forall|i: int|
            0 <= i < raw.competitionTeam@.len() && (#[trigger] raw.competitionTeam@[i]).id == id
                ==> !players.contains_key(raw.competitionTeam@[i].team.player1Id),
    ensures
        !build_competition(index, raw, players).teams.contains_key(id),
        forall|p: int, e: int|
            0 <= p < build_competition(index, raw, players).phases.len() && 0 <= e
                < build_competition(index, raw, players).phases[p].ranking.len() ==> (
            #[trigger] build_competition(index, raw, players).phases[p].ranking[e]).0.id != id,
        forall|p: int, m: int|
            0 <= p < build_competition(index, raw, players).phases.len() && 0 <= m
                < build_competition(index, raw, players).phases[p].matches.len() ==> {
                &&& (#[trigger] build_competition(index, raw, players).phases[p].matches[m]).team1.id
                    != id
                &&& build_competition(index, raw, players).phases[p].matches[m].team2.id != id
                &&& build_competition(index, raw, players).phases[p].matches[m].source.team1Id != id
                &&& build_competition(index, raw, players).phases[p].matches[m].source.team2Id != id
            },
{
    let built = build_competition(index, raw, players);
    let table = team_table(raw.competitionTeam@, players);
    lemma_team_table_entries(raw.competitionTeam@, players, id);
    assert(!table.contains_key(id));
    assert forall|p: int, e: int|
        0 <= p < built.phases.len() && 0 <= e < built.phases[p].ranking.len() implies (
    #[trigger] built.phases[p].ranking[e]).0.id != id by {
        let entries = raw.phase@[p].phaseRanking.rankings@;
        let f = |r: fast::Ranking| build_entry(r, table);
        let entry = built.phases[p].ranking[e];
        assert(entries.filter_map(f).contains(entry));
        entries.lemma_filter_map_contains(f, entry);
        let from = choose|t: fast::Ranking| #[trigger] entries.contains(t) && f(t) == Some(entry);
        lemma_team_table_entries(
            raw.competitionTeam@,
            players,
            from.definitivePhaseOpponentRanking.teamId,
        );
    }
    assert forall|p: int, m: int|
        0 <= p < built.phases.len() && 0 <= m < built.phases[p].matches.len() implies {
        &&& (#[trigger] built.phases[p].matches[m]).team1.id != id
        &&& built.phases[p].matches[m].team2.id != id
        &&& built.phases[p].matches[m].source.team1Id != id
        &&& built.phases[p].matches[m].source.team2Id != id
    } by {
        let raw_matches = raw.phase@[p].teamMatch@;
        let f = |r: fast::TeamMatch| build_match(r, table);
        let found = built.phases[p].matches[m];
        assert(raw_matches.filter_map(f).contains(found));
        raw_matches.lemma_filter_map_contains(f, found);
        let from = choose|t: fast::TeamMatch| #[trigger]
            raw_matches.contains(t) && f(t) == Some(found);
        lemma_team_table_entries(raw.competitionTeam@, players, from.team1Id);
        lemma_team_table_entries(raw.competitionTeam@, players, from.team2Id);
    }
}

/// Whether the table holds a team with the players of `team`.
pub open spec fn table_has_team(table: Map<u64, TeamView>, team: TeamView) -> bool {
    exists|mine: u64| #[trigger] table.contains_key(mine) && table[mine].same(team)
}

/// Whether every team of `theirs` is, by its players, a team of `mine`.
pub open spec fn table_covers(mine: Map<u64, TeamView>, theirs: Map<u64, TeamView>) -> bool {
    forall|id: u64| #[trigger] theirs.contains_key(id) ==> table_has_team(mine, theirs[id])
}

impl CompetitionView {
    /// Whether the team table holds a team with the players of `team`.
    pub open spec fn has_team(self, team: TeamView) -> bool {
        table_has_team(self.teams, team)
    }

    /// Whether every team of `other` is, by its players, a team of `self`.
    pub open spec fn covers(self, other: CompetitionView) -> bool {
        table_covers(self.teams, other.teams)
    }

    /// Whether `self` is a qualification for `other`: they are two
    /// competitions, and `self` covers the teams of `other`.
    pub open spec fn qualifies_for(self, other: CompetitionView) -> bool {
        self.index != other.index && self.covers(other)
    }

    /// Whether `quali` ranks every team in the ranking of every phase.
    pub open spec fn ranked_by(self, quali: Map<TeamKey, u64>) -> bool {
        forall|p: int|
            0 <= p < self.phases.len() ==> all_ranked((#[trigger] self.phases[p]).ranking, quali)
    }
}

/// A competition is a qualification for another exactly where the two are
/// not the same competition and every team of the other is, by its players,
/// a team of the first. No competition is a qualification for itself.
pub proof fn lemma_qualification_is_subset(a: CompetitionView, b: CompetitionView)
    ensures
        a.qualifies_for(b) <==> a.index != b.index && (forall|id: u64| #[trigger]
            b.teams.contains_key(id) ==> exists|mine: u64| #[trigger]
                a.teams.contains_key(mine) && a.teams[mine].same(b.teams[id])),
        !a.qualifies_for(a),
{
    if a.index != b.index {
        if a.covers(b) {
            assert forall|id: u64| #[trigger] b.teams.contains_key(id) implies exists|mine: u64|
                #[trigger] a.teams.contains_key(mine) && a.teams[mine].same(b.teams[id]) by {
                assert(table_has_team(a.teams, b.teams[id]));
            }
        }
        if forall|id: u64| #[trigger]
            b.teams.contains_key(id) ==> exists|mine: u64| #[trigger]
                a.teams.contains_key(mine) && a.teams[mine].same(b.teams[id]) {
            assert forall|id: u64| #[trigger] b.teams.contains_key(id) implies table_has_team(
                a.teams,
                b.teams[id],
            ) by {}
        }
    }
}

/// Whether some phase has matches.
pub open spec fn has_matches(phases: Seq<PhaseView>) -> bool {
    exists|i: int| 0 <= i < phases.len() && #[trigger] phases[i].matches.len() > 0
}

/// Whether `k` is the position of the phase that stands for the competition's
/// result: the first phase that has matches, or the first phase of all where
/// none has matches.
pub open spec fn is_ranking_phase(phases: Seq<PhaseView>, k: int) -> bool {
    &&& 0 <= k < phases.len()
    &&& forall|j: int| 0 <= j < k ==> #[trigger] phases[j].matches.len() == 0
    &&& if has_matches(phases) {
        phases[k].matches.len() > 0
    } else {
        k == 0
    }
}

/// A competition has at most one ranking phase.
pub proof fn lemma_ranking_phase_unique(phases: Seq<PhaseView>, k1: int, k2: int)
    requires
        is_ranking_phase(phases, k1),
        is_ranking_phase(phases, k2),
    ensures
        k1 == k2,
{
}

/// Position of the ranking phase of a competition that has phases.
pub open spec fn ranking_phase_position(phases: Seq<PhaseView>) -> int {
    choose|k: int| is_ranking_phase(phases, k)
}

/// The ranks that a competition hands to the competitions it qualifies
/// into: those of its ranking phase, by team.
pub open spec fn qualification_ranks(competition: CompetitionView) -> Map<TeamKey, u64> {
    rank_map(competition.phases[ranking_phase_position(competition.phases)].ranking)
}

impl<'a> Competition<'a> {
    /// Builds the competition of a raw competition record. Teams whose first
    /// player does not resolve are left out, and with them the ranking entries
    /// and matches that name them.
    pub fn new(index: usize, competition: &'a fast::Competition, players: &ItsfPlayerDb) -> (built:
        Self)
        ensures
            built@ == build_competition(index, *competition, players@),
    {
        let mut teams: HashMap<u64, TeamRc> = HashMap::new();
        let mut phases: Vec<Phase<'a>> = Vec::new();

        let raw_teams = &competition.competitionTeam;
        let n: usize = raw_teams.len();
        let mut i: usize = 0;
        assert(table_view(teams@) =~= team_table(raw_teams@.take(0), players@));
        while i < n
            invariant
                n == raw_teams@.len(),
                i <= n,
                table_view(teams@) == team_table(raw_teams@.take(i as int), players@),
            decreases n - i,
        {
            proof {
                assert(raw_teams@.take(i as int + 1).drop_last() =~= raw_teams@.take(i as int));
            }
            let ghost before = teams@;
            match Team::new(&raw_teams[i], players) {
                Some(team) => {
                    let id = team.id;
                    let shared = Rc::new(team);
                    teams.insert(id, shared);
                    assert(table_view(teams@) =~= table_view(before).insert(id, shared@));
                },
                None => {},
            }
            i = i + 1;
        }
        assert(raw_teams@.take(n as int) =~= raw_teams@);

        let ghost table = table_view(teams@);
        let raw_phases = &competition.phase;
        let m: usize = raw_phases.len();
        let mut j: usize = 0;
        while j < m
            invariant
                m == raw_phases@.len(),
                j <= m,
                table == table_view(teams@),
                phases@.len() == j,
                forall|k: int| 0 <= k < j ==> (#[trigger] phases@[k])@ == build_phase(raw_phases@[k], table),
            decreases m - j,
        {
            phases.push(Phase::new(&raw_phases[j], &teams));
            j = j + 1;
        }
        assert(phases_view(phases@) =~= raw_phases@.map_values(
            |p: fast::Phase| build_phase(p, table),
        ));

        Competition { index, source: competition, teams, phases, subcomps: Vec::new(), is_subcomp: false }
    }

    /// Position of the ranking phase; none where the competition has no phase.
    pub fn ranking_phase_index(&self) -> (found: Option<usize>)
        ensures
            found is None <==> self@.phases.len() == 0,
            found matches Some(k) ==> is_ranking_phase(self@.phases, k as int),
            found matches Some(k) ==> k == ranking_phase_position(self@.phases),
    {
        let n: usize = self.phases.len();
        let mut i: usize = 0;
        while i < n
            invariant
                n == self.phases@.len(),
                i <= n,
                forall|j: int| 0 <= j < i ==> (#[trigger] self@.phases[j]).matches.len() == 0,
            decreases n - i,
        {
            if self.phases[i].matches.len() > 0 {
                proof {
                    assert(self@.phases[i as int].matches.len() > 0);
                    assert(is_ranking_phase(self@.phases, i as int));
                    lemma_ranking_phase_unique(
                        self@.phases,
                        i as int,
                        ranking_phase_position(self@.phases),
                    );
                }
                return Some(i);
            }
            i = i + 1;
        }
        if n == 0 {
            None
        } else {
            proof {
                assert(is_ranking_phase(self@.phases, 0));
                lemma_ranking_phase_unique(self@.phases, 0, ranking_phase_position(self@.phases));
            }
            Some(0)
        }
    }

    /// The phase that stands for the competition's result: the first phase
    /// with matches, else the first phase; none where there is no phase.
    pub fn ranking_phase(&self) -> (found: Option<&Phase<'a>>)
        ensures
            found is None <==> self@.phases.len() == 0,
            found matches Some(phase) ==> phase@ == self@.phases[ranking_phase_position(
                self@.phases,
            )],
    {
        match self.ranking_phase_index() {
            Some(k) => {
                assert(self@.phases[k as int] == self.phases@[k as int]@);
                Some(&self.phases[k])
            },
            None => None,
        }
    }

    /// Whether every team of `other` has, by its players, a team in `self`.
    pub fn covers(&self, other: &Competition) -> (covered: bool)
        ensures
            covered == self@.covers(other@),
    {
        let mut covered = true;
        for theirs in outer: other.teams.values()
            invariant
                outer.seq() == vstd::std_specs::hash::spec_values_iter(&other.teams).remaining(),
                covered <==> forall|j: int|
                    0 <= j < outer.index() ==> self@.has_team((#[trigger] outer.seq()[j])@),
        {
            let found = self.has_team(theirs);
            if !found {
                covered = false;
            }
        }
        proof {
            let seq = vstd::std_specs::hash::spec_values_iter(&other.teams).remaining();
            assert(seq.unref().to_set() == other.teams@.values());
            if covered {
                assert forall|id: u64| #[trigger]
                    other@.teams.contains_key(id) implies self@.has_team(other@.teams[id]) by {
                    let value = other.teams@[id];
                    assert(other.teams@.values().contains(value));
                    assert(seq.unref().contains(value));
                    let j = choose|j: int| 0 <= j < seq.unref().len() && seq.unref()[j] == value;
                    assert(*seq[j] == value);
                }
            } else {
                let j = choose|j: int|
                    0 <= j < seq.len() && !self@.has_team((#[trigger] seq[j])@);
                assert(seq.unref()[j] == *seq[j]);
                assert(seq.unref().contains(*seq[j]));
                assert(other.teams@.values().contains(*seq[j]));
                let id = choose|id: u64|
                    other.teams@.contains_key(id) && other.teams@[id] == *seq[j];
                assert(other@.teams.contains_key(id));
            }
        }
        covered
    }

    /// Whether the team table holds a team with the players of `team`.
    pub fn has_team(&self, team: &Team) -> (found: bool)
        ensures
            found == self@.has_team(team@),
    {
        let mut found = false;
        for mine in inner: self.teams.values()
            invariant
                inner.seq() == vstd::std_specs::hash::spec_values_iter(&self.teams).remaining(),
                found <==> exists|j: int|
                    0 <= j < inner.index() && (#[trigger] inner.seq()[j])@.same(team@),
        {
            if mine.is_same(team) {
                found = true;
            }
        }
        proof {
            let seq = vstd::std_specs::hash::spec_values_iter(&self.teams).remaining();
            assert(seq.unref().to_set() == self.teams@.values());
            if found {
                let j = choose|j: int| 0 <= j < seq.len() && (#[trigger] seq[j])@.same(team@);
                assert(seq.unref()[j] == *seq[j]);
                assert(seq.unref().contains(*seq[j]));
                assert(self.teams@.values().contains(*seq[j]));
                let id = choose|id: u64|
                    self.teams@.contains_key(id) && self.teams@[id] == *seq[j];
                assert(self@.teams.contains_key(id) && self@.teams[id].same(team@));
            } else {
                assert forall|mine: u64| #[trigger]
                    self@.teams.contains_key(mine) implies !self@.teams[mine].same(team@) by {
                    let value = self.teams@[mine];
                    assert(self.teams@.values().contains(value));
                    assert(seq.unref().contains(value));
                    let j = choose|j: int| 0 <= j < seq.unref().len() && seq.unref()[j] == value;
                    assert(*seq[j] == value);
                }
            }
        }
        found
    }

    /// Whether this competition is a qualification for `other`: the two are
    /// not the same competition, and every team of `other` is a team of this
    /// one.
    pub fn is_qualification_for(&self, other: &Competition) -> (qualifies: bool)
        ensures
            qualifies == self@.qualifies_for(other@),
            self@.index == other@.index ==> !qualifies,
    {
        self.index != other.index && self.covers(other)
    }

    /// Links `other` below this competition where this one is a qualification
    /// for it, and says whether it did.
    pub fn maybe_add_subcompetition(&mut self, other: &mut Competition<'a>) -> (linked: bool)
        ensures
            linked == old(self)@.qualifies_for(old(other)@),
            old(self)@.index == old(other)@.index ==> !linked,
            linked ==> final(self)@ == (CompetitionView {
                subcomps: old(self)@.subcomps.push(old(other).index),
                ..old(self)@
            }),
            linked ==> final(other)@ == (CompetitionView { is_subcomp: true, ..old(other)@ }),
            !linked ==> final(self)@ == old(self)@ && final(other)@ == old(other)@,
    {
        if self.is_qualification_for(other) {
            self.subcomps.push(other.index);
            other.is_subcomp = true;
            true
        } else {
            false
        }
    }

    /// The ranks of the ranking phase, by team; none where the competition
    /// has no phase.
    pub fn rankings(&self) -> (ranks: Option<Rankings>)
        ensures
            ranks is None <==> self@.phases.len() == 0,
            ranks matches Some(found) ==> found@ == qualification_ranks(self@),
    {
        match self.ranking_phase_index() {
            Some(k) => {
                let ranking = &self.phases[k].ranking;
                let mut entries: Vec<(TeamRc, u64)> = Vec::new();
                let n: usize = ranking.len();
                let mut i: usize = 0;
                while i < n
                    invariant
                        n == ranking@.len(),
                        i <= n,
                        entries@ == ranking@.take(i as int),
                    decreases n - i,
                {
                    entries.push((share(&ranking[i].0), ranking[i].1));
                    assert(entries@ =~= ranking@.take(i as int + 1));
                    i = i + 1;
                }
                assert(entries@ =~= ranking@);
                assert(self@.phases[k as int] == self.phases@[k as int]@);
                Some(Rankings { entries })
            },
            None => None,
        }
    }

    /// Whether every team in the rankings of every phase has a rank in
    /// `ranks`.
    pub fn ranked_by(&self, ranks: &Rankings) -> (ranked: bool)
        ensures
            ranked == self@.ranked_by(ranks@),
    {
        let n: usize = self.phases.len();
        let mut i: usize = 0;
        while i < n
            invariant
                n == self.phases@.len(),
                i <= n,
                forall|p: int|
                    0 <= p < i ==> all_ranked((#[trigger] self@.phases[p]).ranking, ranks@),
            decreases n - i,
        {
            if !self.phases[i].ranked_by(ranks) {
                assert(!all_ranked(self@.phases[i as int].ranking, ranks@));
                return false;
            }
            i = i + 1;
        }
        true
    }

    /// Seeds every phase of this competition by the ranks of its
    /// qualification: in each ranking the first four places stay, each later
    /// band of places (5 to 8, 9 to 16, ...) is ordered by qualification rank,
    /// equal ranks keeping their order, and the ranks are numbered anew from
    /// one.
    pub fn adjust_final_rankings(&mut self, qualification_rankings: &Rankings)
        requires
            old(self)@.ranked_by(qualification_rankings@),
        ensures
            final(self)@.index == old(self)@.index,
            final(self)@.source == old(self)@.source,
            final(self)@.teams == old(self)@.teams,
            final(self)@.subcomps == old(self)@.subcomps,
            final(self)@.is_subcomp == old(self)@.is_subcomp,
            final(self)@.phases.len() == old(self)@.phases.len(),
            forall|p: int|
                0 <= p < final(self)@.phases.len() ==> phase_adjusted(
                    old(self)@.phases[p],
                    #[trigger] final(self)@.phases[p],
                    qualification_rankings@,
                ),
            forall|p: int, i: int|
                0 <= p < final(self)@.phases.len() && 0 <= i < final(self)@.phases[p].ranking.len()
                    ==> (#[trigger] final(self)@.phases[p].ranking[i]).1 == i + 1,
            forall|p: int, i: int|
                0 <= p < final(self)@.phases.len() && 0 <= i < final(self)@.phases[p].ranking.len()
                    && i < 4 ==> (#[trigger] final(self)@.phases[p].ranking[i]).0 == old(self)@.phases[p].ranking[i].0,
    {
        let n: usize = self.phases.len();
        let mut k: usize = 0;
        while k < n
            invariant
                n == self.phases@.len(),
                n == old(self).phases@.len(),
                k <= n,
                self.index == old(self).index,
                self.source == old(self).source,
                self.teams == old(self).teams,
                self.subcomps == old(self).subcomps,
                self.is_subcomp == old(self).is_subcomp,
                forall|p: int| k <= p < n ==> self.phases@[p] == old(self).phases@[p],
                forall|p: int|
                    k <= p < n ==> all_ranked(
                        (#[trigger] old(self)@.phases[p]).ranking,
                        qualification_rankings@,
                    ),
                forall|p: int|
                    0 <= p < k ==> phase_adjusted(
                        old(self)@.phases[p],
                        #[trigger] self@.phases[p],
                        qualification_rankings@,
                    ),
                forall|p: int, i: int|
                    0 <= p < k && 0 <= i < self@.phases[p].ranking.len() ==> (
                    #[trigger] self@.phases[p].ranking[i]).1 == i + 1,
                forall|p: int, i: int|
                    0 <= p < k && 0 <= i < self@.phases[p].ranking.len() && i < 4 ==> (
                    #[trigger] self@.phases[p].ranking[i]).0 == old(self)@.phases[p].ranking[i].0,
            decreases n - k,
        {
            let ghost before = self@.phases;
            assert(before[k as int] == old(self)@.phases[k as int]);
            assert(before[k as int] == self.phases@[k as int]@);
            self.phases[k].adjust_ranking(qualification_rankings);
            proof {
                let after = self@.phases;
                assert(after[k as int] == self.phases@[k as int]@);
                assert forall|p: int| 0 <= p < n && p != k implies #[trigger] after[p]
                    == before[p] by {
                    assert(after[p] == self.phases@[p]@);
                }
                assert forall|p: int| 0 <= p < k + 1 implies phase_adjusted(
                    old(self)@.phases[p],
                    #[trigger] after[p],
                    qualification_rankings@,
                ) by {
                    if p < k {
                        assert(after[p] == before[p]);
                    }
                }
                assert forall|p: int, i: int|
                    0 <= p < k + 1 && 0 <= i < after[p].ranking.len() implies (
                #[trigger] after[p].ranking[i]).1 == i + 1 by {
                    if p < k {
                        assert(after[p] == before[p]);
                        assert(before[p].ranking[i].1 == i + 1);
                    }
                }
                assert forall|p: int, i: int|
                    0 <= p < k + 1 && 0 <= i < after[p].ranking.len() && i < 4 implies (
                #[trigger] after[p].ranking[i]).0 == old(self)@.phases[p].ranking[i].0 by {
                    if p < k {
                        assert(after[p] == before[p]);
                        assert(before[p].ranking[i].0 == old(self)@.phases[p].ranking[i].0);
                    }
                }
            }
            k = k + 1;
        }
    }

    /// The indices of the competitions that this one qualifies into.
    pub fn subcomps(&self) -> (indices: Vec<usize>)
        ensures
            indices@ == self@.subcomps,
    {
        self.subcomps.clone()
    }
}

} // verus!
