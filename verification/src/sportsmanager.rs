//! The records of the league software that takes the results: entries,
//! games, rounds and disciplines, and how they are made from the model.

use crate::fast::TeamMatchResult;
use crate::itsf::{ItsfPlayer, PlayerView};
use crate::model::{
    ranking_phase_position, Competition, CompetitionView, Match, MatchView, Team, TeamView,
};
use vstd::prelude::*;
use vstd::string::*;

verus! {

/// What a player entry is to the model.
pub struct SpielerView {
    pub name: Seq<char>,
    pub vorname: Seq<char>,
    pub nachname: Seq<char>,
}

/// A player as the league software names it.
#[derive(Debug)]
pub struct Spieler {
    pub name: String,
    pub vorname: String,
    pub nachname: String,
}

impl View for Spieler {
    type V = SpielerView;

    open spec fn view(&self) -> SpielerView {
        SpielerView { name: self.name@, vorname: self.vorname@, nachname: self.nachname@ }
    }
}

/// The full name of a player: first name, a blank, last name.
pub open spec fn full_name(player: PlayerView) -> Seq<char> {
    player.first_name + " "@ + player.last_name
}

/// The entry of a resolved player.
pub open spec fn spieler_of(player: PlayerView) -> SpielerView {
    SpielerView {
        name: full_name(player),
        vorname: player.first_name,
        nachname: player.last_name,
    }
}

impl Spieler {
    /// The entry of a resolved player.
    pub fn from_itsf(player: &ItsfPlayer) -> (spieler: Self)
        ensures
            spieler@ == spieler_of(player@),
    {
        let mut name = player.first_name.clone();
        name.append(" ");
        name.append(player.last_name.as_str());
        Spieler { name, vorname: player.first_name.clone(), nachname: player.last_name.clone() }
    }

    /// The entry of a player of whom only a name is known: the name stands
    /// as full name and as last name, the first name is empty.
    pub fn from_name(name: &str) -> (spieler: Self)
        ensures
            spieler@ == (SpielerView { name: name@, vorname: Seq::empty(), nachname: name@ }),
    {
        Spieler {
            name: String::from_str(name),
            vorname: String::new(),
            nachname: String::from_str(name),
        }
    }
}

/// What a team entry is to the model.
pub struct MeldungView {
    pub name: Seq<char>,
    pub platz: u64,
    pub spieler: Seq<SpielerView>,
}

/// A team entered in a discipline, with its place.
#[derive(Debug)]
pub struct Meldung {
    pub name: String,
    pub platz: u64,
    pub spieler: Vec<Spieler>,
}

/// The views of a list of player entries.
pub open spec fn spieler_view(spieler: Seq<Spieler>) -> Seq<SpielerView> {
    spieler.map_values(|s: Spieler| s@)
}

impl View for Meldung {
    type V = MeldungView;

    open spec fn view(&self) -> MeldungView {
        MeldungView { name: self.name@, platz: self.platz, spieler: spieler_view(self.spieler@) }
    }
}

/// The name of an entry: that of its first player, and where there is a
/// second, a slash between blanks and the name of the second.
pub open spec fn meldung_name(spieler: Seq<SpielerView>) -> Seq<char> {
    if spieler.len() > 1 {
        spieler[0].name + " / "@ + spieler[1].name
    } else {
        spieler[0].name
    }
}

/// The player entries of a team: one, or two for a doubles team.
pub open spec fn team_spieler(team: TeamView) -> Seq<SpielerView> {
    match team.player2 {
        Some(second) => seq![spieler_of(team.player1), spieler_of(second)],
        None => seq![spieler_of(team.player1)],
    }
}

/// The entry of a team at a place.
pub open spec fn team_meldung(rank: u64, team: TeamView) -> MeldungView {
    MeldungView {
        name: meldung_name(team_spieler(team)),
        platz: rank,
        spieler: team_spieler(team),
    }
}

impl Meldung {
    /// The entry of the given players at the place `rank`.
    pub fn new(rank: u64, spieler: Vec<Spieler>) -> (meldung: Self)
        requires
            spieler@.len() > 0,
        ensures
            meldung@ == (MeldungView {
                name: meldung_name(spieler_view(spieler@)),
                platz: rank,
                spieler: spieler_view(spieler@),
            }),
    {
        let mut name = spieler[0].name.clone();
        if spieler.len() > 1 {
            name.append(" / ");
            name.append(spieler[1].name.as_str());
        }
        Meldung { name, platz: rank, spieler }
    }

    /// The entry of one or two resolved players at the place `rank`.
    pub fn from_players(rank: u64, players: &[ItsfPlayer]) -> (meldung: Self)
        requires
            players@.len() == 1 || players@.len() == 2,
        ensures
            meldung@.platz == rank,
            meldung@.spieler == players@.map_values(|p: ItsfPlayer| spieler_of(p@)),
            meldung@.name == meldung_name(meldung@.spieler),
    {
        let mut spieler: Vec<Spieler> = Vec::new();
        spieler.push(Spieler::from_itsf(&players[0]));
        if players.len() > 1 {
            spieler.push(Spieler::from_itsf(&players[1]));
        }
        assert(spieler_view(spieler@) =~= players@.map_values(|p: ItsfPlayer| spieler_of(p@)));
        Meldung::new(rank, spieler)
    }

    /// The entry of a team at the place `rank`.
    pub fn from_team(rank: u64, team: &Team) -> (meldung: Self)
        ensures
            meldung@ == team_meldung(rank, team@),
    {
        let mut spieler: Vec<Spieler> = Vec::new();
        spieler.push(Spieler::from_itsf(&team.player1));
        match &team.player2 {
            Some(second) => {
                spieler.push(Spieler::from_itsf(second));
            },
            None => {},
        }
        assert(spieler_view(spieler@) =~= team_spieler(team@));
        Meldung::new(rank, spieler)
    }
}

/// The score of one set.
#[derive(Clone, Copy, Debug, PartialEq, Eq, Structural)]
pub struct Satz {
    pub heim: u64,
    pub gast: u64,
}

/// What a game is to the model.
pub struct SpielView {
    pub heim: Seq<char>,
    pub gast: Seq<char>,
    pub no: u64,
    pub satz: Seq<Satz>,
}

/// A game between a home and a guest entry, with its sets.
#[derive(Debug)]
pub struct Spiel {
    pub heim: String,
    pub gast: String,
    pub no: u64,
    pub satz: Vec<Satz>,
}

impl View for Spiel {
    type V = SpielView;

    open spec fn view(&self) -> SpielView {
        SpielView { heim: self.heim@, gast: self.gast@, no: self.no, satz: self.satz@ }
    }
}

/// The score that stands for a match result: one to nil for the winner, one
/// all for a draw.
pub open spec fn result_score(result: TeamMatchResult) -> (u64, u64) {
    match result {
        TeamMatchResult::Draw => (1, 1),
        TeamMatchResult::Win1 => (1, 0),
        TeamMatchResult::Win2 => (0, 1),
    }
}

/// The game of a match with the number `no`.
pub open spec fn match_spiel(no: u64, m: MatchView) -> SpielView {
    SpielView {
        heim: meldung_name(team_spieler(m.team1)),
        gast: meldung_name(team_spieler(m.team2)),
        no,
        satz: seq![Satz { heim: result_score(m.result).0, gast: result_score(m.result).1 }],
    }
}

impl Spiel {
    /// A game of one set with the given score.
    pub fn from(no: u64, heim: &str, gast: &str, score: (u64, u64)) -> (spiel: Self)
        ensures
            spiel@ == (SpielView {
                heim: heim@,
                gast: gast@,
                no,
                satz: seq![Satz { heim: score.0, gast: score.1 }],
            }),
    {
        let mut satz: Vec<Satz> = Vec::new();
        satz.push(Satz { heim: score.0, gast: score.1 });
        assert(satz@ =~= seq![Satz { heim: score.0, gast: score.1 }]);
        Spiel { heim: String::from_str(heim), gast: String::from_str(gast), satz, no }
    }

    /// The game of a match: the names of its teams, and its result as a set.
    pub fn from_match(no: u64, m: &Match) -> (spiel: Self)
        ensures
            spiel@ == match_spiel(no, m@),
    {
        let heim = Meldung::from_team(0, &m.team1);
        let gast = Meldung::from_team(0, &m.team2);
        let score: (u64, u64) = match m.result {
            TeamMatchResult::Draw => (1, 1),
            TeamMatchResult::Win1 => (1, 0),
            TeamMatchResult::Win2 => (0, 1),
        };
        Spiel::from(no, heim.name.as_str(), gast.name.as_str(), score)
    }
}

/// What a round is to the model.
pub struct RundeView {
    pub no: u64,
    pub spiel: Seq<SpielView>,
}

/// A round of games.
#[derive(Debug)]
pub struct Runde {
    pub no: u64,
    pub spiel: Vec<Spiel>,
}

/// The views of a list of games.
pub open spec fn spiele_view(spiele: Seq<Spiel>) -> Seq<SpielView> {
    spiele.map_values(|s: Spiel| s@)
}

impl View for Runde {
    type V = RundeView;

    open spec fn view(&self) -> RundeView {
        RundeView { no: self.no, spiel: spiele_view(self.spiel@) }
    }
}

impl Runde {
    /// A round without games.
    pub fn new(no: u64) -> (runde: Self)
        ensures
            runde@ == (RundeView { no, spiel: Seq::empty() }),
    {
        let runde = Runde { no, spiel: Vec::new() };
        assert(runde@.spiel =~= Seq::empty());
        runde
    }
}

/// What a discipline is to the model.
pub struct DisziplinView {
    pub name: Seq<char>,
    pub system: Seq<char>,
    pub meldung: Seq<MeldungView>,
    pub runde: Seq<RundeView>,
}

/// A discipline: its entries with their places, and its rounds.
#[derive(Debug)]
pub struct Disziplin {
    pub name: String,
    pub system: String,
    pub meldung: Vec<Meldung>,
    pub runde: Vec<Runde>,
}

/// The views of a list of entries.
pub open spec fn meldungen_view(meldungen: Seq<Meldung>) -> Seq<MeldungView> {
    meldungen.map_values(|m: Meldung| m@)
}

/// The views of a list of rounds.
pub open spec fn runden_view(runden: Seq<Runde>) -> Seq<RundeView> {
    runden.map_values(|r: Runde| r@)
}

impl View for Disziplin {
    type V = DisziplinView;

    open spec fn view(&self) -> DisziplinView {
        DisziplinView {
            name: self.name@,
            system: self.system@,
            meldung: meldungen_view(self.meldung@),
            runde: runden_view(self.runde@),
        }
    }
}

impl Disziplin {
    /// An empty discipline played in the Swiss system.
    pub fn swiss(name: &str) -> (disziplin: Self)
        ensures
            disziplin@ == (DisziplinView {
                name: name@,
                system: "Schweizer System"@,
                meldung: Seq::empty(),
                runde: Seq::empty(),
            }),
    {
        let disziplin = Disziplin {
            name: String::from_str(name),
            system: String::from_str("Schweizer System"),
            meldung: Vec::new(),
            runde: Vec::new(),
        };
        assert(disziplin@.meldung =~= Seq::empty());
        assert(disziplin@.runde =~= Seq::empty());
        disziplin
    }

    /// An empty discipline played as a knock-out.
    pub fn ko(name: &str) -> (disziplin: Self)
        ensures
            disziplin@ == (DisziplinView {
                name: name@,
                system: "KO-System"@,
                meldung: Seq::empty(),
                runde: Seq::empty(),
            }),
    {
        let disziplin = Disziplin {
            name: String::from_str(name),
            system: String::from_str("KO-System"),
            meldung: Vec::new(),
            runde: Vec::new(),
        };
        assert(disziplin@.meldung =~= Seq::empty());
        assert(disziplin@.runde =~= Seq::empty());
        disziplin
    }
}

/// How a competition is played, which decides how its rounds are numbered.
#[derive(Clone, Copy, Debug, PartialEq, Eq, Structural)]
pub enum CompetitionType {
    Swiss,
    KO,
}

/// The deepest round of a knock-out that has a round number.
pub const MAX_DEPTH: u64 = 19999;

/// The number of the round that a match of the given depth belongs to. In the
/// Swiss system it is the depth. In a knock-out the final, of depth 1, is
/// round 19999, the match for third place, of depth 0, is round 19998, and
/// each depth beyond 1 lies as far below 19999 as the depth says; a depth
/// beyond 19999 has no round number.
pub open spec fn round_number(ty: CompetitionType, depth: u64) -> Option<u64> {
    match ty {
        CompetitionType::Swiss => Some(depth),
        CompetitionType::KO => if depth == 0 {
            Some(19998)
        } else if depth == 1 {
            Some(19999)
        } else if depth <= MAX_DEPTH {
            Some((MAX_DEPTH - depth) as u64)
        } else {
            None
        },
    }
}

/// Whether every match has a round number.
pub open spec fn all_numbered(matches: Seq<MatchView>, ty: CompetitionType) -> bool {
    forall|i: int|
        0 <= i < matches.len() ==> round_number(ty, (#[trigger] matches[i]).source.matchDepth)
            is Some
}

/// Whether the match at `position` is the first without a round number.
pub open spec fn first_unnumbered(
    matches: Seq<MatchView>,
    ty: CompetitionType,
    position: int,
) -> bool {
    &&& 0 <= position < matches.len()
    &&& round_number(ty, matches[position].source.matchDepth) is None
    &&& forall|i: int|
        0 <= i < position ==> round_number(ty, (#[trigger] matches[i]).source.matchDepth) is Some
}

/// Why a competition cannot be shown.
#[derive(Clone, Copy, Debug, PartialEq, Eq, Structural)]
pub enum ShowError {
    /// The competition has no phase.
    NoPhases,
    /// The match at `position` of the ranking phase lies too deep in the
    /// knock-out to have a round number.
    DepthOutOfRange { position: usize },
}

/// The games of the round `no` among games that each come with a round
/// number: those with the number `no`, in their order.
pub open spec fn games_of_round(games: Seq<(u64, SpielView)>, no: u64) -> Seq<SpielView> {
    games.filter(in_round(no)).map_values(game_of())
}

/// The test whether a game has the round number `no`.
pub open spec fn in_round(no: u64) -> spec_fn((u64, SpielView)) -> bool {
    |g: (u64, SpielView)| g.0 == no
}

/// The game of a pair of round number and game.
pub open spec fn game_of() -> spec_fn((u64, SpielView)) -> SpielView {
    |g: (u64, SpielView)| g.1
}

/// Whether one of the rounds has the number `no`.
pub open spec fn has_round(runden: Seq<RundeView>, no: u64) -> bool {
    exists|k: int| 0 <= k < runden.len() && (#[trigger] runden[k]).no == no
}

/// Whether `runden` are the games in rounds: in rising order of their
/// numbers, one round for each round number that a game has, each with the
/// games of its number in their order.
pub open spec fn is_grouped(runden: Seq<RundeView>, games: Seq<(u64, SpielView)>) -> bool {
    &&& forall|a: int, b: int| 0 <= a < b < runden.len() ==> runden[a].no < runden[b].no
    &&& forall|k: int|
        0 <= k < runden.len() ==> (#[trigger] runden[k]).spiel == games_of_round(
            games,
            runden[k].no,
        ) && runden[k].spiel.len() > 0
    &&& forall|i: int| 0 <= i < games.len() ==> has_round(runden, (#[trigger] games[i]).0)
}

/// A round number that no game has has no games.
pub proof fn lemma_round_without_games(games: Seq<(u64, SpielView)>, no: u64)
    requires
        forall|i: int| 0 <= i < games.len() ==> (#[trigger] games[i]).0 != no,
    ensures
        games_of_round(games, no).len() == 0,
    decreases games.len(),
{
    reveal(Seq::filter);
    if games.len() > 0 {
        let rest = games.drop_last();
        assert forall|i: int| 0 <= i < rest.len() implies (#[trigger] rest[i]).0 != no by {
            assert(rest[i] == games[i]);
        }
        lemma_round_without_games(rest, no);
        assert(games.last() == games[games.len() - 1]);
    }
}

/// One game more is one game more in its round and none in the others.
pub proof fn lemma_games_of_round_push(
    games: Seq<(u64, SpielView)>,
    no: u64,
    spiel: SpielView,
    round: u64,
)
    ensures
        games_of_round(games.push((no, spiel)), round) == (if round == no {
            games_of_round(games, round).push(spiel)
        } else {
            games_of_round(games, round)
        }),
{
    let pred = in_round(round);
    games.lemma_filter_push((no, spiel), pred);
    if round == no {
        assert(games.filter(pred).push((no, spiel)).map_values(game_of()) =~= games.filter(
            pred,
        ).map_values(game_of()).push(spiel));
    }
}

/// The games of a list of matches that all have a round number, each with
/// its round number and numbered by its position in the list.
pub open spec fn match_games(matches: Seq<MatchView>, ty: CompetitionType) -> Seq<
    (u64, SpielView),
> {
    Seq::new(
        matches.len(),
        |i: int|
            (
                round_number(ty, matches[i].source.matchDepth)->0,
                match_spiel(i as u64, matches[i]),
            ),
    )
}

/// The entries of a ranking: each team at its rank.
pub open spec fn ranking_meldungen(ranking: Seq<(TeamView, u64)>) -> Seq<MeldungView> {
    ranking.map_values(|e: (TeamView, u64)| team_meldung(e.1, e.0))
}

/// The name of the system that a competition is played in.
pub open spec fn system_name(ty: CompetitionType) -> Seq<char> {
    match ty {
        CompetitionType::Swiss => "Schweizer System"@,
        CompetitionType::KO => "KO-System"@,
    }
}

/// Whether `disziplin` shows the competition: under its name, the entries of
/// its ranking phase at their ranks, and the matches of that phase in rounds.
pub open spec fn shows_competition(
    disziplin: DisziplinView,
    competition: CompetitionView,
    ty: CompetitionType,
) -> bool {
    let phase = competition.phases[ranking_phase_position(competition.phases)];
    &&& disziplin.name == competition.source.name@
    &&& disziplin.system == system_name(ty)
    &&& disziplin.meldung == ranking_meldungen(phase.ranking)
    &&& is_grouped(disziplin.runde, match_games(phase.matches, ty))
}

/// Whether `result` is what showing the competition gives: the discipline
/// where the competition has a phase and every match of its ranking phase a
/// round number, else the first reason why there is none.
pub open spec fn is_shown(
    result: Result<Disziplin, ShowError>,
    competition: CompetitionView,
    ty: CompetitionType,
) -> bool {
    let matches = competition.phases[ranking_phase_position(competition.phases)].matches;
    match result {
        Ok(disziplin) => {
            &&& competition.phases.len() > 0
            &&& all_numbered(matches, ty)
            &&& shows_competition(disziplin@, competition, ty)
        },
        Err(ShowError::NoPhases) => competition.phases.len() == 0,
        Err(ShowError::DepthOutOfRange { position }) => {
            &&& competition.phases.len() > 0
            &&& first_unnumbered(matches, ty, position as int)
        },
    }
}

/// The number of the round that a match of the given depth belongs to, where
/// it has one.
pub fn round_no(ty: CompetitionType, depth: u64) -> (no: Option<u64>)
    ensures
        no == round_number(ty, depth),
{
    match ty {
        CompetitionType::Swiss => Some(depth),
        CompetitionType::KO => if depth == 0 {
            Some(19998)
        } else if depth == 1 {
            Some(19999)
        } else if depth <= MAX_DEPTH {
            Some(MAX_DEPTH - depth)
        } else {
            None
        },
    }
}

/// Puts one game more into the rounds: into the round of its number, which
/// is made where it is missing.
pub fn add_to_round(runden: &mut Vec<Runde>, no: u64, spiel: Spiel)
    ensures
        forall|games: Seq<(u64, SpielView)>| #[trigger]
            is_grouped(runden_view(old(runden)@), games) ==> is_grouped(
                runden_view(final(runden)@),
                games.push((no, spiel@)),
            ),
{
    let ghost before = runden_view(runden@);
    let m: usize = runden.len();
    let mut k: usize = 0;
    while k < m && runden[k].no < no
        invariant
            m == runden@.len(),
            k <= m,
            before == runden_view(runden@),
            forall|j: int| 0 <= j < k ==> (#[trigger] before[j]).no < no,
        decreases m - k,
    {
        assert(before[k as int] == runden@[k as int]@);
        k = k + 1;
    }
    if k < m && runden[k].no == no {
        assert(before[k as int] == runden@[k as int]@);
        runden[k].spiel.push(spiel);
        proof {
            let after = runden_view(runden@);
            assert(after[k as int] == runden@[k as int]@);
            assert(after[k as int].spiel =~= before[k as int].spiel.push(spiel@));
            assert forall|j: int| 0 <= j < m && j != k implies #[trigger] after[j] == before[j] by {
                assert(after[j] == runden@[j]@);
            }
            assert forall|games: Seq<(u64, SpielView)>| #[trigger]
                is_grouped(before, games) implies is_grouped(after, games.push((no, spiel@))) by {
                let more = games.push((no, spiel@));
                assert forall|j: int| 0 <= j < after.len() implies (#[trigger] after[j]).spiel
                    == games_of_round(more, after[j].no) && after[j].spiel.len() > 0 by {
                    lemma_games_of_round_push(games, no, spiel@, after[j].no);
                    if j != k {
                        assert(after[j] == before[j]);
                        if j < k {
                            assert(before[j].no < before[k as int].no);
                        } else {
                            assert(before[k as int].no < before[j].no);
                        }
                    }
                }
                assert forall|a: int, b: int| 0 <= a < b < after.len() implies after[a].no
                    < after[b].no by {
                    assert(after[a].no == before[a].no);
                    assert(after[b].no == before[b].no);
                }
                assert forall|t: int| 0 <= t < more.len() implies has_round(
                    after,
                    (#[trigger] more[t]).0,
                ) by {
                    if t < games.len() {
                        assert(more[t] == games[t]);
                        assert(has_round(before, games[t].0));
                        let j = choose|j: int|
                            0 <= j < before.len() && (#[trigger] before[j]).no == games[t].0;
                        assert(after[j].no == games[t].0);
                    } else {
                        assert(after[k as int].no == no);
                    }
                }
            }
        }
    } else {
        proof {
            if k < m {
                assert(before[k as int] == runden@[k as int]@);
            }
        }
        let mut runde = Runde::new(no);
        runde.spiel.push(spiel);
        let ghost fresh = runde@;
        let ghost prev = runden@;
        assert(fresh.spiel =~= seq![spiel@]);
        runden.insert(k, runde);
        proof {
            let after = runden_view(runden@);
            assert forall|j: int| 0 <= j < after.len() implies #[trigger] after[j] == (if j < k {
                before[j]
            } else if j == k {
                fresh
            } else {
                before[j - 1]
            }) by {
                assert(after[j] == runden@[j]@);
                if j < k {
                    assert(before[j] == prev[j]@);
                } else if j > k {
                    assert(before[j - 1] == prev[j - 1]@);
                }
            }
            assert forall|games: Seq<(u64, SpielView)>| #[trigger]
                is_grouped(before, games) implies is_grouped(after, games.push((no, spiel@))) by {
                let more = games.push((no, spiel@));
                assert forall|j: int| 0 <= j < before.len() implies (#[trigger] before[j]).no
                    != no by {
                    if j > k {
                        assert(before[k as int].no < before[j].no);
                    }
                }
                assert forall|t: int| 0 <= t < games.len() implies (#[trigger] games[t]).0
                    != no by {
                    assert(has_round(before, games[t].0));
                }
                lemma_round_without_games(games, no);
                assert forall|j: int| 0 <= j < after.len() implies (#[trigger] after[j]).spiel
                    == games_of_round(more, after[j].no) && after[j].spiel.len() > 0 by {
                    lemma_games_of_round_push(games, no, spiel@, after[j].no);
                    if j < k {
                        assert(before[j].no != no);
                    } else if j > k {
                        assert(before[j - 1].no != no);
                    } else {
                        assert(games_of_round(games, no) =~= Seq::empty());
                        assert(fresh.spiel =~= games_of_round(games, no).push(spiel@));
                    }
                }
                assert forall|a: int, b: int| 0 <= a < b < after.len() implies after[a].no
                    < after[b].no by {
                    if b < k {
                    } else if b == k {
                    } else if a < k {
                        if k < b - 1 {
                            assert(before[k as int].no < before[b - 1].no);
                        }
                        assert(before[a].no < no);
                    } else if a == k {
                        if k < b - 1 {
                            assert(before[k as int].no < before[b - 1].no);
                        }
                    } else {
                        assert(before[a - 1].no < before[b - 1].no);
                    }
                }
                assert forall|t: int| 0 <= t < more.len() implies has_round(
                    after,
                    (#[trigger] more[t]).0,
                ) by {
                    if t < games.len() {
                        assert(more[t] == games[t]);
                        assert(has_round(before, games[t].0));
                        let j = choose|j: int|
                            0 <= j < before.len() && (#[trigger] before[j]).no == games[t].0;
                        if j < k {
                            assert(after[j].no == games[t].0);
                        } else {
                            assert(after[j + 1].no == games[t].0);
                        }
                    } else {
                        assert(after[k as int].no == no);
                    }
                }
            }
        }
    }
}

/// Puts the matches in rounds by their round numbers. Where a match has no
/// round number, the first such match is named.
pub fn rounds_of(matches: &Vec<Match>, ty: CompetitionType) -> (result: Result<
    Vec<Runde>,
    ShowError,
>)
    ensures
        result is Ok <==> all_numbered(crate::model::matches_view(matches@), ty),
        result matches Ok(runden) ==> is_grouped(
            runden_view(runden@),
            match_games(crate::model::matches_view(matches@), ty),
        ),
        result matches Err(e) ==> e matches ShowError::DepthOutOfRange { position }
            && first_unnumbered(crate::model::matches_view(matches@), ty, position as int),
{
    let ghost views = crate::model::matches_view(matches@);
    let ghost all = match_games(views, ty);
    let mut runden: Vec<Runde> = Vec::new();
    let n: usize = matches.len();
    let mut i: usize = 0;
    assert(all.take(0).len() == 0);
    while i < n
        invariant
            n == matches@.len(),
            i <= n,
            views == crate::model::matches_view(matches@),
            all == match_games(views, ty),
            forall|j: int|
                0 <= j < i ==> round_number(ty, (#[trigger] views[j]).source.matchDepth) is Some,
            is_grouped(runden_view(runden@), all.take(i as int)),
        decreases n - i,
    {
        assert(views[i as int] == matches@[i as int]@);
        match round_no(ty, matches[i].source.matchDepth) {
            None => {
                return Err(ShowError::DepthOutOfRange { position: i });
            },
            Some(no) => {
                let spiel = Spiel::from_match(i as u64, &matches[i]);
                proof {
                    assert(all.take(i as int + 1) =~= all.take(i as int).push((no, spiel@)));
                }
                add_to_round(&mut runden, no, spiel);
            },
        }
        i = i + 1;
    }
    assert(all.take(n as int) =~= all);
    Ok(runden)
}

impl Disziplin {
    /// The discipline that shows a competition: the entries of its ranking
    /// phase at their ranks, and the matches of that phase in rounds. Where
    /// the competition has no phase, or a match no round number, the reason
    /// is returned.
    pub fn from_competition(competition: &Competition, ty: CompetitionType) -> (result: Result<
        Self,
        ShowError,
    >)
        ensures
            is_shown(result, competition@, ty),
    {
        match competition.ranking_phase() {
            None => Err(ShowError::NoPhases),
            Some(phase) => {
                let runden = match rounds_of(&phase.matches, ty) {
                    Ok(runden) => runden,
                    Err(e) => {
                        return Err(e);
                    },
                };
                let mut disziplin = match ty {
                    CompetitionType::Swiss => Disziplin::swiss(competition.source.name.as_str()),
                    CompetitionType::KO => Disziplin::ko(competition.source.name.as_str()),
                };
                let ghost ranking = phase@.ranking;
                let n: usize = phase.ranking.len();
                let mut i: usize = 0;
                while i < n
                    invariant
                        n == phase.ranking@.len(),
                        i <= n,
                        ranking == phase@.ranking,
                        disziplin@.name == competition@.source.name@,
                        disziplin@.system == system_name(ty),
                        disziplin@.runde.len() == 0,
                        disziplin@.meldung == ranking_meldungen(ranking.take(i as int)),
                    decreases n - i,
                {
                    let ghost before = disziplin@.meldung;
                    let entry = &phase.ranking[i];
                    let meldung = Meldung::from_team(entry.1, &entry.0);
                    assert(ranking[i as int] == (entry.0@, entry.1));
                    disziplin.meldung.push(meldung);
                    assert(disziplin@.meldung =~= before.push(meldung@));
                    assert(disziplin@.meldung =~= ranking_meldungen(ranking.take(i as int + 1)));
                    i = i + 1;
                }
                assert(ranking.take(n as int) =~= ranking);
                disziplin.runde = runden;
                Ok(disziplin)
            },
        }
    }
}

/// The whole of what is handed to the league software.
#[derive(Debug)]
pub struct Sport {
    pub disziplin: Disziplin,
}

impl View for Sport {
    type V = DisziplinView;

    open spec fn view(&self) -> DisziplinView {
        self.disziplin@
    }
}

} // verus!
