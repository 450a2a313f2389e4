//! Results as an organiser's tournament software exports them, and how a
//! phase of such an export is shown to the league software.

use crate::itsf::{words_view, ItsfPlayer, PlayerView};
use crate::sportsmanager::{
    add_to_round, is_grouped, meldung_name, spieler_of, system_name, CompetitionType, Disziplin,
    DisziplinView, Meldung, MeldungView, Runde, Satz, Spiel, Spieler, SpielerView, SpielView,
};
use vstd::prelude::*;
use vstd::string::*;

verus! {

/// The tournament that an export is about.
#[derive(Debug)]
pub struct Tournament {
    pub name: String,
    pub organization: String,
}

/// A place in a standing, with the codes of the players that hold it.
#[derive(Debug)]
pub struct Standing {
    pub rank: i32,
    pub players: Vec<String>,
}

/// A match between a home and an away side, each given by player codes.
#[derive(Debug)]
pub struct Match {
    pub number: i32,
    pub round: i32,
    pub group: i32,
    pub home: Vec<String>,
    pub away: Vec<String>,
    pub winner: Option<i32>,
}

/// A phase of a competition with its matches and standings.
#[derive(Debug)]
pub struct Phase {
    pub name: String,
    pub system: String,
    pub stage: i32,
    pub matches: Vec<Match>,
    pub standings: Vec<Standing>,
}

/// A competition with its phases and final standings.
#[derive(Debug)]
pub struct Competition {
    pub name: String,
    pub ty: String,
    pub category: String,
    pub phases: Vec<Phase>,
    pub standings: Vec<Standing>,
}

/// A player of the export: a name, the code that matches and standings use,
/// and the licence number where the player has one.
#[derive(Debug)]
pub struct Player {
    pub name: String,
    pub code: String,
    pub license: Option<String>,
}

/// A whole export.
#[derive(Debug)]
pub struct Coral {
    pub tournament: Tournament,
    pub players: Vec<Player>,
    pub competitions: Vec<Competition>,
}

/// What a participant is to the model.
pub enum ParticipantView {
    Registered(PlayerView),
    Unknown(Seq<char>),
}

/// A player behind a code: one that the registry knows, or a bare name.
#[derive(Debug)]
pub enum Participant {
    Registered(ItsfPlayer),
    Unknown(String),
}

impl View for Participant {
    type V = ParticipantView;

    open spec fn view(&self) -> ParticipantView {
        match self {
            Participant::Registered(player) => ParticipantView::Registered(player@),
            Participant::Unknown(name) => ParticipantView::Unknown(name@),
        }
    }
}

/// The participant that a player of the export is: the registered player
/// where the registry gave one, else the name alone.
pub fn participant_of(player: &Player, registered: Option<ItsfPlayer>) -> (participant: Participant)
    ensures
        participant@ == (match registered {
            Some(found) => ParticipantView::Registered(found@),
            None => ParticipantView::Unknown(player.name@),
        }),
{
    match registered {
        Some(found) => Participant::Registered(found),
        None => Participant::Unknown(player.name.clone()),
    }
}

/// The player entry of a participant.
pub open spec fn participant_spieler(participant: ParticipantView) -> SpielerView {
    match participant {
        ParticipantView::Registered(player) => spieler_of(player),
        ParticipantView::Unknown(name) => SpielerView {
            name,
            vorname: Seq::empty(),
            nachname: name,
        },
    }
}

impl Participant {
    /// The player entry of the participant.
    pub fn to_spieler(&self) -> (spieler: Spieler)
        ensures
            spieler@ == participant_spieler(self@),
    {
        match self {
            Participant::Registered(player) => Spieler::from_itsf(player),
            Participant::Unknown(name) => Spieler::from_name(name.as_str()),
        }
    }
}

/// The participants of a list of entries by code. Where a code stands twice,
/// the later entry counts.
pub open spec fn participant_map(entries: Seq<(String, Participant)>) -> Map<
    Seq<char>,
    ParticipantView,
>
    decreases entries.len(),
{
    if entries.len() == 0 {
        Map::empty()
    } else {
        participant_map(entries.drop_last()).insert(entries.last().0@, entries.last().1@)
    }
}

/// A code that no entry has is not in the map.
proof fn lemma_participant_absent(entries: Seq<(String, Participant)>, code: Seq<char>)
    requires
        forall|j: int| 0 <= j < entries.len() ==> (#[trigger] entries[j]).0@ != code,
    ensures
        !participant_map(entries).contains_key(code),
    decreases entries.len(),
{
    if entries.len() > 0 {
        let rest = entries.drop_last();
        assert forall|j: int| 0 <= j < rest.len() implies (#[trigger] rest[j]).0@ != code by {
            assert(rest[j] == entries[j]);
        }
        lemma_participant_absent(rest, code);
        assert(entries.last() == entries[entries.len() - 1]);
    }
}

/// The participant of a code is that of the last entry with the code.
proof fn lemma_participant_last(entries: Seq<(String, Participant)>, i: int, code: Seq<char>)
    requires
        0 <= i < entries.len(),
        entries[i].0@ == code,
        forall|j: int| i < j < entries.len() ==> (#[trigger] entries[j]).0@ != code,
    ensures
        participant_map(entries).contains_key(code),
        participant_map(entries)[code] == entries[i].1@,
    decreases entries.len(),
{
    let rest = entries.drop_last();
    if i < entries.len() - 1 {
        assert(entries.last() == entries[entries.len() - 1]);
        assert forall|j: int| i < j < rest.len() implies (#[trigger] rest[j]).0@ != code by {
            assert(rest[j] == entries[j]);
        }
        assert(rest[i] == entries[i]);
        lemma_participant_last(rest, i, code);
    }
}

/// The participants of an export, found by code.
pub struct Participants {
    entries: Vec<(String, Participant)>,
}

impl View for Participants {
    type V = Map<Seq<char>, ParticipantView>;

    closed spec fn view(&self) -> Map<Seq<char>, ParticipantView> {
        participant_map(self.entries@)
    }
}

impl Participants {
    /// No participants.
    pub fn new() -> (participants: Self)
        ensures
            participants@ == Map::<Seq<char>, ParticipantView>::empty(),
    {
        Participants { entries: Vec::new() }
    }

    /// Enters a participant under a code, replacing what the code stood for.
    pub fn insert(&mut self, code: String, participant: Participant)
        ensures
            final(self)@ == old(self)@.insert(code@, participant@),
    {
        let ghost before = self.entries@;
        self.entries.push((code, participant));
        assert(self.entries@.drop_last() =~= before);
    }

    /// The participant behind a code.
    pub fn get(&self, code: &String) -> (found: Option<&Participant>)
        ensures
            found is Some <==> self@.contains_key(code@),
            found matches Some(p) ==> p@ == self@[code@],
    {
        let mut i: usize = self.entries.len();
        while i > 0
            invariant
                i <= self.entries@.len(),
                forall|j: int|
                    i <= j < self.entries@.len() ==> (#[trigger] self.entries@[j]).0@ != code@,
            decreases i,
        {
            i = i - 1;
            let entry = &self.entries[i];
            if entry.0 == *code {
                proof {
                    lemma_participant_last(self.entries@, i as int, code@);
                }
                return Some(&entry.1);
            }
        }
        proof {
            lemma_participant_absent(self.entries@, code@);
        }
        None
    }
}

/// Whether codes name an entry: one player or two, each known.
pub open spec fn is_entry(codes: Seq<Seq<char>>, participants: Map<Seq<char>, ParticipantView>) -> bool {
    &&& codes.len() == 1 || codes.len() == 2
    &&& forall|i: int| 0 <= i < codes.len() ==> participants.contains_key(#[trigger] codes[i])
}

/// The player entries behind codes.
pub open spec fn entry_spieler(
    codes: Seq<Seq<char>>,
    participants: Map<Seq<char>, ParticipantView>,
) -> Seq<SpielerView> {
    codes.map_values(|c: Seq<char>| participant_spieler(participants[c]))
}

/// The entry of the players behind codes at a place.
pub open spec fn entry_meldung(
    rank: u64,
    codes: Seq<Seq<char>>,
    participants: Map<Seq<char>, ParticipantView>,
) -> MeldungView {
    MeldungView {
        name: meldung_name(entry_spieler(codes, participants)),
        platz: rank,
        spieler: entry_spieler(codes, participants),
    }
}

/// Whether the codes name an entry: one player or two, each known.
pub fn names_entry(codes: &Vec<String>, participants: &Participants) -> (named: bool)
    ensures
        named == is_entry(words_view(codes@), participants@),
{
    let ghost all = words_view(codes@);
    let n: usize = codes.len();
    if n != 1 && n != 2 {
        return false;
    }
    let mut i: usize = 0;
    while i < n
        invariant
            n == codes@.len(),
            i <= n,
            all == words_view(codes@),
            forall|j: int| 0 <= j < i ==> participants@.contains_key(#[trigger] all[j]),
        decreases n - i,
    {
        assert(all[i as int] == codes@[i as int]@);
        if participants.get(&codes[i]).is_none() {
            return false;
        }
        i = i + 1;
    }
    true
}

/// The entry of the players behind the codes at the place `rank`.
pub fn get_meldung(rank: u64, codes: &Vec<String>, participants: &Participants) -> (meldung:
    Meldung)
    requires
        is_entry(words_view(codes@), participants@),
    ensures
        meldung@ == entry_meldung(rank, words_view(codes@), participants@),
{
    let ghost all = words_view(codes@);
    let mut spieler: Vec<Spieler> = Vec::new();
    let n: usize = codes.len();
    let mut i: usize = 0;
    while i < n
        invariant
            n == codes@.len(),
            i <= n,
            all == words_view(codes@),
            is_entry(all, participants@),
            crate::sportsmanager::spieler_view(spieler@) == entry_spieler(
                all.take(i as int),
                participants@,
            ),
        decreases n - i,
    {
        let ghost before = crate::sportsmanager::spieler_view(spieler@);
        assert(all[i as int] == codes@[i as int]@);
        assert(participants@.contains_key(all[i as int]));
        let participant = participants.get(&codes[i]).unwrap();
        let one = participant.to_spieler();
        spieler.push(one);
        assert(crate::sportsmanager::spieler_view(spieler@) =~= before.push(one@));
        assert(crate::sportsmanager::spieler_view(spieler@) =~= entry_spieler(
            all.take(i as int + 1),
            participants@,
        ));
        i = i + 1;
    }
    assert(all.take(n as int) =~= all);
    Meldung::new(rank, spieler)
}

/// How a system of play is numbered in rounds: `swiss` and `round_robin` as
/// the Swiss system, `sko` as a knock-out; no other name is known.
pub open spec fn system_type(system: Seq<char>) -> Option<CompetitionType> {
    if system == "swiss"@ || system == "round_robin"@ {
        Some(CompetitionType::Swiss)
    } else if system == "sko"@ {
        Some(CompetitionType::KO)
    } else {
        None
    }
}

/// How the system of the given name is played, where the name is known.
pub fn system_of(system: &String) -> (ty: Option<CompetitionType>)
    ensures
        ty == system_type(system@),
{
    if *system == String::from_str("swiss") || *system == String::from_str("round_robin") {
        Some(CompetitionType::Swiss)
    } else if *system == String::from_str("sko") {
        Some(CompetitionType::KO)
    } else {
        None
    }
}

/// The score that stands for a winner: one to nil for the home side where
/// the winner is 1, nil to one where it is 2, nil all otherwise.
pub open spec fn winner_score(winner: Option<i32>) -> (u64, u64) {
    match winner {
        Some(side) => if side == 1 {
            (1, 0)
        } else if side == 2 {
            (0, 1)
        } else {
            (0, 0)
        },
        None => (0, 0),
    }
}

/// The score that stands for a winner.
pub fn score_of(winner: Option<i32>) -> (score: (u64, u64))
    ensures
        score == winner_score(winner),
{
    match winner {
        Some(side) => if side == 1 {
            (1, 0)
        } else if side == 2 {
            (0, 1)
        } else {
            (0, 0)
        },
        None => (0, 0),
    }
}

/// Whether a match is played between sides of the same size. Other matches
/// are left out.
pub open spec fn is_played(m: Match) -> bool {
    m.home@.len() == m.away@.len()
}

/// Whether a phase can be shown: its system is known, each standing names an
/// entry, and so does each side of each match between sides of equal size.
pub open spec fn can_show(phase: Phase, participants: Map<Seq<char>, ParticipantView>) -> bool {
    &&& system_type(phase.system@) is Some
    &&& forall|i: int|
        0 <= i < phase.standings@.len() ==> is_entry(
            words_view((#[trigger] phase.standings@[i]).players@),
            participants,
        )
    &&& forall|i: int|
        0 <= i < phase.matches@.len() && is_played(#[trigger] phase.matches@[i]) ==> is_entry(
            words_view(phase.matches@[i].home@),
            participants,
        ) && is_entry(words_view(phase.matches@[i].away@), participants)
}

/// The entry of a standing.
pub open spec fn standing_meldung(
    standing: Standing,
    participants: Map<Seq<char>, ParticipantView>,
) -> MeldungView {
    entry_meldung(standing.rank as u64, words_view(standing.players@), participants)
}

/// The game of a match with its round number.
pub open spec fn match_game(m: Match, participants: Map<Seq<char>, ParticipantView>) -> (
    u64,
    SpielView,
) {
    (
        m.round as u64,
        SpielView {
            heim: meldung_name(entry_spieler(words_view(m.home@), participants)),
            gast: meldung_name(entry_spieler(words_view(m.away@), participants)),
            no: m.number as u64,
            satz: seq![Satz { heim: winner_score(m.winner).0, gast: winner_score(m.winner).1 }],
        },
    )
}

/// The test whether a match is played.
pub open spec fn played() -> spec_fn(Match) -> bool {
    |m: Match| is_played(m)
}

/// The games of the matches that are played, each with its round number.
pub open spec fn phase_games(
    matches: Seq<Match>,
    participants: Map<Seq<char>, ParticipantView>,
) -> Seq<(u64, SpielView)> {
    matches.filter(played()).map_values(|m: Match| match_game(m, participants))
}

/// Whether `disziplin` shows the phase: under its name and system, the
/// entries of its standings at their ranks, and its played matches in rounds.
pub open spec fn shows_phase(
    disziplin: DisziplinView,
    phase: Phase,
    participants: Map<Seq<char>, ParticipantView>,
) -> bool {
    &&& disziplin.name == phase.name@
    &&& system_type(phase.system@) matches Some(ty) && disziplin.system == system_name(ty)
    &&& disziplin.meldung == phase.standings@.map_values(
        |s: Standing| standing_meldung(s, participants),
    )
    &&& is_grouped(disziplin.runde, phase_games(phase.matches@, participants))
}

/// Whether the phase can be shown.
pub fn shows(phase: &Phase, participants: &Participants) -> (ok: bool)
    ensures
        ok == can_show(*phase, participants@),
{
    if system_of(&phase.system).is_none() {
        return false;
    }
    let n: usize = phase.standings.len();
    let mut i: usize = 0;
    while i < n
        invariant
            n == phase.standings@.len(),
            i <= n,
            forall|j: int|
                0 <= j < i ==> is_entry(
                    words_view((#[trigger] phase.standings@[j]).players@),
                    participants@,
                ),
        decreases n - i,
    {
        if !names_entry(&phase.standings[i].players, participants) {
            return false;
        }
        i = i + 1;
    }
    let m: usize = phase.matches.len();
    let mut k: usize = 0;
    while k < m
        invariant
            m == phase.matches@.len(),
            k <= m,
            forall|j: int|
                0 <= j < k && is_played(#[trigger] phase.matches@[j]) ==> is_entry(
                    words_view(phase.matches@[j].home@),
                    participants@,
                ) && is_entry(words_view(phase.matches@[j].away@), participants@),
        decreases m - k,
    {
        let one = &phase.matches[k];
        if one.home.len() == one.away.len() {
            if !names_entry(&one.home, participants) || !names_entry(&one.away, participants) {
                assert(is_played(phase.matches@[k as int]));
                return false;
            }
        }
        k = k + 1;
    }
    true
}

/// The discipline that shows a phase: the entries of its standings, and its
/// matches between sides of equal size in rounds.
pub fn phase_disziplin(phase: &Phase, participants: &Participants) -> (disziplin: Disziplin)
    requires
        can_show(*phase, participants@),
    ensures
        shows_phase(disziplin@, *phase, participants@),
{
    let mut disziplin = match system_of(&phase.system) {
        Some(CompetitionType::KO) => Disziplin::ko(phase.name.as_str()),
        _ => Disziplin::swiss(phase.name.as_str()),
    };
    let ghost to_meldung = |s: Standing| standing_meldung(s, participants@);
    let n: usize = phase.standings.len();
    let mut i: usize = 0;
    assert(disziplin@.meldung =~= phase.standings@.take(0).map_values(to_meldung));
    while i < n
        invariant
            n == phase.standings@.len(),
            i <= n,
            can_show(*phase, participants@),
            to_meldung == |s: Standing| standing_meldung(s, participants@),
            disziplin@.name == phase.name@,
            system_type(phase.system@) matches Some(ty) && disziplin@.system == system_name(ty),
            disziplin@.runde.len() == 0,
            disziplin@.meldung == phase.standings@.take(i as int).map_values(to_meldung),
        decreases n - i,
    {
        let ghost before = disziplin@.meldung;
        let standing = &phase.standings[i];
        let meldung = get_meldung(
            #[verifier::truncate]
            (standing.rank as u64),
            &standing.players,
            participants,
        );
        disziplin.meldung.push(meldung);
        assert(disziplin@.meldung =~= before.push(meldung@));
        assert(disziplin@.meldung =~= phase.standings@.take(i as int + 1).map_values(to_meldung));
        i = i + 1;
    }
    assert(phase.standings@.take(n as int) =~= phase.standings@);
    let ghost to_game = |m: Match| match_game(m, participants@);
    let mut runden: Vec<Runde> = Vec::new();
    let m: usize = phase.matches.len();
    let mut k: usize = 0;
    proof {
        reveal(Seq::filter);
        assert(phase.matches@.take(0).filter(played()) =~= Seq::<Match>::empty());
        assert(phase_games(phase.matches@.take(0), participants@) =~= Seq::<
            (u64, SpielView),
        >::empty());
    }
    while k < m
        invariant
            m == phase.matches@.len(),
            k <= m,
            can_show(*phase, participants@),
            is_grouped(
                crate::sportsmanager::runden_view(runden@),
                phase_games(phase.matches@.take(k as int), participants@),
            ),
        decreases m - k,
    {
        let one = &phase.matches[k];
        let ghost seen = phase.matches@.take(k as int);
        proof {
            assert(phase.matches@.take(k as int + 1) =~= seen.push(*one));
            seen.lemma_filter_push(*one, played());
        }
        if one.home.len() == one.away.len() {
            assert(is_played(phase.matches@[k as int]));
            let heim = get_meldung(0, &one.home, participants);
            let gast = get_meldung(0, &one.away, participants);
            let spiel = Spiel::from(
                #[verifier::truncate]
                (one.number as u64),
                heim.name.as_str(),
                gast.name.as_str(),
                score_of(one.winner),
            );
            proof {
                assert(seen.filter(played()).push(*one).map_values(
                    |m: Match| match_game(m, participants@),
                ) =~= phase_games(seen, participants@).push(match_game(*one, participants@)));
            }
            add_to_round(
                &mut runden,
                #[verifier::truncate]
                (one.round as u64),
                spiel,
            );
        }
        k = k + 1;
    }
    assert(phase.matches@.take(m as int) =~= phase.matches@);
    disziplin.runde = runden;
    disziplin
}

} // verus!
