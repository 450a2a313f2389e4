//! Players of the international federation and the directory that resolves
//! their identifiers.

use crate::fast;
use std::collections::HashMap;
use vstd::prelude::*;
use vstd::std_specs::cmp::PartialEqSpecImpl;
use vstd::std_specs::iter::IteratorSpec;
use vstd::string::*;

verus! {

broadcast use vstd::std_specs::hash::group_hash_axioms;

/// What a player is to the model: the identifier and both names as text.
pub struct PlayerView {
    pub id: u64,
    pub first_name: Seq<char>,
    pub last_name: Seq<char>,
}

/// A resolved player.
#[derive(Debug, Hash)]
pub struct ItsfPlayer {
    pub id: u64,
    pub first_name: String,
    pub last_name: String,
}

impl View for ItsfPlayer {
    type V = PlayerView;

    open spec fn view(&self) -> PlayerView {
        PlayerView { id: self.id, first_name: self.first_name@, last_name: self.last_name@ }
    }
}

impl Clone for ItsfPlayer {
    fn clone(&self) -> (res: Self)
        ensures
            res == *self,
    {
        ItsfPlayer {
            id: self.id,
            first_name: self.first_name.clone(),
            last_name: self.last_name.clone(),
        }
    }
}

impl PartialEq for ItsfPlayer {
    fn eq(&self, other: &Self) -> (r: bool) {
        self.id == other.id && self.first_name == other.first_name && self.last_name
            == other.last_name
    }
}

impl PartialEqSpecImpl for ItsfPlayer {
    open spec fn obeys_eq_spec() -> bool {
        true
    }

    open spec fn eq_spec(&self, other: &Self) -> bool {
        self@ == other@
    }
}

impl Eq for ItsfPlayer {

}

/// The player directory: resolved players by identifier.
pub struct ItsfPlayerDb {
    players: HashMap<u64, ItsfPlayer>,
}

impl View for ItsfPlayerDb {
    type V = Map<u64, PlayerView>;

    closed spec fn view(&self) -> Map<u64, PlayerView> {
        Map::new(|id: u64| self.players@.contains_key(id), |id: u64| self.players@[id]@)
    }
}

impl ItsfPlayerDb {
    /// An empty directory.
    pub fn new() -> (db: Self)
        ensures
            db@ == Map::<u64, PlayerView>::empty(),
    {
        let db = ItsfPlayerDb { players: HashMap::new() };
        assert(db@ =~= Map::<u64, PlayerView>::empty());
        db
    }

    /// Looks a player up by identifier.
    pub fn get(&self, id: u64) -> (player: Option<&ItsfPlayer>)
        ensures
            player is Some <==> self@.contains_key(id),
            player matches Some(p) ==> p@ == self@[id],
    {
        self.players.get(&id)
    }

    /// Whether the directory resolves `id`.
    pub fn contains(&self, id: u64) -> (known: bool)
        ensures
            known == self@.contains_key(id),
    {
        self.players.contains_key(&id)
    }

    /// The identifiers that the directory resolves, each once, in no
    /// particular order.
    pub fn ids(&self) -> (ids: Vec<u64>)
        ensures
            ids@.no_duplicates(),
            ids@.to_set() == self@.dom(),
    {
        let mut ids: Vec<u64> = Vec::new();
        for id in it: self.players.keys()
            invariant
                it.seq() == vstd::std_specs::hash::spec_keys_iter(&self.players).remaining(),
                ids@ == it.seq().take(it.index()).unref(),
        {
            ids.push(*id);
            assert(ids@ =~= it.seq().take(it.index() + 1).unref());
        }
        proof {
            let keys = vstd::std_specs::hash::spec_keys_iter(&self.players).remaining();
            assert(keys.take(keys.len() as int) =~= keys);
            assert(keys.unref().to_set() == self.players@.dom());
            assert(self@.dom() =~= self.players@.dom());
            assert forall|i: int, j: int|
                0 <= i < ids@.len() && 0 <= j < ids@.len() && i != j implies ids@[i] != ids@[j] by {
                assert(keys[i] != keys[j]);
            }
        }
        ids
    }

    /// Enters `player` under `id`, replacing what was there.
    pub fn insert(&mut self, id: u64, player: ItsfPlayer)
        ensures
            final(self)@ == old(self)@.insert(id, player@),
    {
        self.players.insert(id, player);
        assert(self@ =~= old(self)@.insert(id, player@));
    }

    /// The licence number to look up before `player_infos` can be registered:
    /// none where the directory knows the player already.
    pub fn license_to_download(&self, player_infos: &fast::PlayerInfos) -> (license: Option<u64>)
        requires
            player_infos.playerId > 0,
            !self@.contains_key(player_infos.playerId) ==> player_infos.noLicense > 0,
        ensures
            license == (if self@.contains_key(player_infos.playerId) {
                None
            } else {
                Some(player_infos.noLicense)
            }),
    {
        if self.players.contains_key(&player_infos.playerId) {
            None
        } else {
            Some(player_infos.noLicense)
        }
    }

    /// Registers `player` under the identifier of `player_infos`, unless the
    /// directory knows that identifier already.
    pub fn register(&mut self, player_infos: &fast::PlayerInfos, player: ItsfPlayer)
        requires
            player_infos.playerId > 0,
        ensures
            final(self)@ == (if old(self)@.contains_key(player_infos.playerId) {
                old(self)@
            } else {
                old(self)@.insert(player_infos.playerId, player@)
            }),
    {
        if !self.players.contains_key(&player_infos.playerId) {
            self.players.insert(player_infos.playerId, player);
            assert(self@ =~= old(self)@.insert(player_infos.playerId, player@));
        }
    }
}

/// Whether `c` is a lowercase letter, as `char::is_lowercase` says.
pub uninterp spec fn is_lowercase(c: char) -> bool;

/// `char::is_lowercase` depends on the character alone; its result has the
/// name `is_lowercase`.
pub assume_specification[ char::is_lowercase ](c: char) -> (lower: bool)
    ensures
        lower == is_lowercase(c),
;

/// The lowercase form of `c`, as `char::to_lowercase` yields it: one
/// character or several.
pub uninterp spec fn lowercase_of(c: char) -> Seq<char>;

/// `char::to_lowercase` yields the lowercase form of the character, which
/// depends on the character alone; collected, it has the name `lowercase_of`.
#[verifier::external_body]
fn lowercase(c: char) -> (lower: String)
    ensures
        lower@ == lowercase_of(c),
{
    c.to_lowercase().collect()
}

/// `String::push` appends the character to the end of the string.
pub assume_specification[ String::push ](s: &mut String, c: char)
    ensures
        final(s)@ == old(s)@.push(c),
;

/// Whether a word has no lowercase letter.
pub open spec fn no_lowercase(word: Seq<char>) -> bool {
    forall|i: int| 0 <= i < word.len() ==> !is_lowercase(#[trigger] word[i])
}

/// A word with its first character as it is and all others in lowercase.
pub open spec fn normalcase(word: Seq<char>) -> Seq<char>
    decreases word.len(),
{
    if word.len() <= 1 {
        word
    } else {
        normalcase(word.drop_last()) + lowercase_of(word.last())
    }
}

/// Whether a word is written without lowercase letters.
pub fn is_uppercase(word: &str) -> (upper: bool)
    ensures
        upper == no_lowercase(word@),
{
    let mut upper = true;
    for c in it: word.chars()
        invariant
            it.seq() == word@,
            upper == no_lowercase(word@.take(it.index())),
    {
        assert(word@.take(it.index() + 1) =~= word@.take(it.index()).push(c));
        if c.is_lowercase() {
            upper = false;
            assert(is_lowercase(word@.take(it.index() + 1)[it.index()]));
        }
    }
    assert(word@.take(word@.len() as int) =~= word@);
    upper
}

/// The word with its first character kept and all others in lowercase.
pub fn to_normalcase(word: &str) -> (result: String)
    ensures
        result@ == normalcase(word@),
{
    let mut result = String::new();
    let mut first = true;
    for c in it: word.chars()
        invariant
            it.seq() == word@,
            first == (it.index() == 0),
            result@ == normalcase(word@.take(it.index())),
    {
        let ghost seen = word@.take(it.index());
        let ghost more = word@.take(it.index() + 1);
        assert(more.drop_last() =~= seen);
        assert(more.last() == c);
        if first {
            result.push(c);
            first = false;
            assert(result@ =~= more);
        } else {
            let lower = lowercase(c);
            result.append(lower.as_str());
        }
    }
    assert(word@.take(word@.len() as int) =~= word@);
    result
}

/// The pieces of a text between its blanks. A text without blank is one
/// piece; two blanks in a row have an empty piece between them.
pub open spec fn split_on_blank(text: Seq<char>) -> Seq<Seq<char>>
    decreases text.len(),
{
    if text.len() == 0 {
        seq![Seq::empty()]
    } else {
        let rest = split_on_blank(text.drop_last());
        if text.last() == ' ' {
            rest.push(Seq::empty())
        } else {
            rest.drop_last().push(rest.last().push(text.last()))
        }
    }
}

/// The words with one blank between each two.
pub open spec fn join_with_blank(words: Seq<Seq<char>>) -> Seq<char>
    decreases words.len(),
{
    if words.len() == 0 {
        Seq::empty()
    } else if words.len() == 1 {
        words[0]
    } else {
        join_with_blank(words.drop_last()) + " "@ + words.last()
    }
}

/// The texts of a list of strings.
pub open spec fn words_view(words: Seq<String>) -> Seq<Seq<char>> {
    words.map_values(|w: String| w@)
}

/// Whether a word belongs to the last name: it is not empty and has no
/// lowercase letter.
pub open spec fn is_last_name_word(word: Seq<char>) -> bool {
    word.len() > 0 && no_lowercase(word)
}

/// Whether a word belongs to the first name: it has a lowercase letter.
pub open spec fn is_first_name_word(word: Seq<char>) -> bool {
    word.len() > 0 && !no_lowercase(word)
}

/// The last name in a full name: its words without lowercase letters, each
/// in normal case, with blanks between them.
pub open spec fn last_name_of(name: Seq<char>) -> Seq<char> {
    join_with_blank(
        split_on_blank(name).filter(|w: Seq<char>| is_last_name_word(w)).map_values(
            |w: Seq<char>| normalcase(w),
        ),
    )
}

/// The first name in a full name: its words with a lowercase letter, with
/// blanks between them.
pub open spec fn first_name_of(name: Seq<char>) -> Seq<char> {
    join_with_blank(split_on_blank(name).filter(|w: Seq<char>| is_first_name_word(w)))
}

/// Splits a text at its blanks.
pub fn split_words(text: &str) -> (words: Vec<String>)
    ensures
        words_view(words@) == split_on_blank(text@),
{
    let mut words: Vec<String> = Vec::new();
    let mut current = String::new();
    assert(words_view(words@).push(current@) =~= split_on_blank(text@.take(0)));
    for c in it: text.chars()
        invariant
            it.seq() == text@,
            words_view(words@).push(current@) == split_on_blank(text@.take(it.index())),
    {
        let ghost seen = text@.take(it.index());
        let ghost more = text@.take(it.index() + 1);
        let ghost done = words_view(words@);
        let ghost open = current@;
        assert(more.drop_last() =~= seen);
        assert(more.last() == c);
        assert(done.push(open).drop_last() =~= done);
        if c == ' ' {
            words.push(current);
            current = String::new();
            assert(words_view(words@) =~= done.push(open));
        } else {
            current.push(c);
        }
    }
    assert(text@.take(text@.len() as int) =~= text@);
    let ghost done = words_view(words@);
    let ghost open = current@;
    words.push(current);
    assert(words_view(words@) =~= done.push(open));
    words
}

/// Joins words with one blank between each two.
pub fn join_words(words: &Vec<String>) -> (text: String)
    ensures
        text@ == join_with_blank(words_view(words@)),
{
    let ghost all = words_view(words@);
    let mut text = String::new();
    let n: usize = words.len();
    let mut i: usize = 0;
    while i < n
        invariant
            n == words@.len(),
            i <= n,
            all == words_view(words@),
            text@ == join_with_blank(all.take(i as int)),
        decreases n - i,
    {
        assert(all.take(i as int + 1).drop_last() =~= all.take(i as int));
        assert(all.take(i as int + 1).last() == words@[i as int]@);
        if i > 0 {
            text.append(" ");
        } else {
            assert(text@ + words@[i as int]@ =~= words@[i as int]@);
        }
        text.append(words[i].as_str());
        i = i + 1;
    }
    assert(all.take(n as int) =~= all);
    text
}

/// The first and the last name in a full name as the player registry
/// writes it, with the last name in capitals.
pub fn split_name(name: &str) -> (names: (String, String))
    ensures
        names.0@ == first_name_of(name@),
        names.1@ == last_name_of(name@),
{
    let words = split_words(name);
    let ghost all = words_view(words@);
    let ghost is_first = |w: Seq<char>| is_first_name_word(w);
    let ghost is_last = |w: Seq<char>| is_last_name_word(w);
    let ghost normal = |w: Seq<char>| normalcase(w);
    let mut first_words: Vec<String> = Vec::new();
    let mut last_words: Vec<String> = Vec::new();
    let n: usize = words.len();
    let mut i: usize = 0;
    proof {
        assert(all.take(0) =~= Seq::<Seq<char>>::empty());
        reveal(Seq::filter);
        assert(words_view(first_words@) =~= all.take(0).filter(is_first));
        assert(words_view(last_words@) =~= all.take(0).filter(is_last).map_values(normal));
    }
    while i < n
        invariant
            n == words@.len(),
            i <= n,
            all == words_view(words@),
            is_first == |w: Seq<char>| is_first_name_word(w),
            is_last == |w: Seq<char>| is_last_name_word(w),
            normal == |w: Seq<char>| normalcase(w),
            words_view(first_words@) == all.take(i as int).filter(is_first),
            words_view(last_words@) == all.take(i as int).filter(is_last).map_values(normal),
        decreases n - i,
    {
        let word = &words[i];
        let ghost firsts = words_view(first_words@);
        let ghost lasts = words_view(last_words@);
        proof {
            assert(all.take(i as int + 1) =~= all.take(i as int).push(word@));
            all.take(i as int).lemma_filter_push(word@, is_first);
            all.take(i as int).lemma_filter_push(word@, is_last);
        }
        if !word.as_str().is_empty() {
            if is_uppercase(word.as_str()) {
                let normalized = to_normalcase(word.as_str());
                last_words.push(normalized);
                assert(words_view(last_words@) =~= lasts.push(normalcase(word@)));
                assert(all.take(i as int).filter(is_last).push(word@).map_values(normal)
                    =~= all.take(i as int).filter(is_last).map_values(normal).push(
                    normalcase(word@),
                ));
            } else {
                first_words.push(word.clone());
                assert(words_view(first_words@) =~= firsts.push(word@));
            }
        }
        i = i + 1;
    }
    assert(all.take(n as int) =~= all);
    (join_words(&first_words), join_words(&last_words))
}

/// What a `div` element of a page is to the model: the value of its class
/// attribute and its first text, where it has them.
pub struct DivView {
    pub class: Option<Seq<char>>,
    pub text: Option<Seq<char>>,
}

/// A `div` element of a page: the value of its class attribute and the first
/// text inside it.
#[derive(Debug)]
pub struct Div {
    pub class: Option<String>,
    pub text: Option<String>,
}

/// The view of an optional string.
pub open spec fn option_text(text: Option<String>) -> Option<Seq<char>> {
    match text {
        Some(t) => Some(t@),
        None => None,
    }
}

impl View for Div {
    type V = DivView;

    open spec fn view(&self) -> DivView {
        DivView { class: option_text(self.class), text: option_text(self.text) }
    }
}

/// The views of a list of `div` elements.
pub open spec fn divs_view(divs: Seq<Div>) -> Seq<DivView> {
    divs.map_values(|d: Div| d@)
}

/// The `div` elements of a page as the selection over the parsed page yields
/// them, one after the other: for each the value of its class attribute and
/// its first text.
pub uninterp spec fn html_divs(body: Seq<char>) -> Seq<(Option<Seq<char>>, Option<Seq<char>>)>;

/// Pairs of class and text as the views of `div` elements.
pub open spec fn as_divs(pairs: Seq<(Option<Seq<char>>, Option<Seq<char>>)>) -> Seq<DivView> {
    pairs.map_values(
        |d: (Option<Seq<char>>, Option<Seq<char>>)| DivView { class: d.0, text: d.1 },
    )
}

/// The `div` elements of a page.
pub open spec fn page_divs(body: Seq<char>) -> Seq<DivView> {
    as_divs(html_divs(body))
}

/// The longest page, counted in characters, that is handed to the parser.
/// The parser keeps text in buffers that hold at most four gigabytes and grow
/// to powers of two, and it stops the program where one would grow beyond. A
/// character takes at most four bytes there, so a page of this length keeps
/// every buffer within two gigabytes.
pub const MAX_PAGE_LENGTH: usize = 0x1fff_ffff;

/// Parses the page with `scraper::Html::parse_document`, selects its `div`
/// elements with `Html::select`, and reads of each the class attribute
/// (`Element::attr`) and the first text node below it (`ElementRef::text`).
/// The result depends on the page alone and has the name `html_divs`. Pages
/// beyond `MAX_PAGE_LENGTH` are left out, because the parser's buffers panic
/// where they overflow.
#[verifier::external_body]
fn divs_of(body: &str) -> (divs: Vec<Div>)
    requires
        body@.len() <= MAX_PAGE_LENGTH,
    ensures
        divs_view(divs@) == as_divs(html_divs(body@)),
{
    let html = scraper::Html::parse_document(body);
    let selector = scraper::Selector::parse("div").unwrap();
    html.select(&selector).map(
        |div| Div {
            class: div.value().attr("class").map(String::from),
            text: div.text().next().map(String::from),
        },
    ).collect()
}

/// Whether a page is short enough for the parser.
pub fn page_fits(body: &str) -> (fits: bool)
    ensures
        fits == (body@.len() <= MAX_PAGE_LENGTH),
{
    body.unicode_len() <= MAX_PAGE_LENGTH
}

/// Position of the first `div` whose class is `class`, or the number of
/// `div`s where there is none.
pub open spec fn first_of_class(divs: Seq<DivView>, class: Seq<char>) -> int
    decreases divs.len(),
{
    if divs.len() == 0 {
        0
    } else if divs.first().class == Some(class) {
        0
    } else {
        1 + first_of_class(divs.drop_first(), class)
    }
}

/// What the registry's page says of a player, or why it says nothing.
pub enum PlayerInfo {
    Found(PlayerView),
    MissingDiv,
    MissingText,
}

/// What a list of `div`s says of the player `id`: the names in the first
/// text of the first `div` of class `nomdujoueur`.
pub open spec fn player_info(id: u64, divs: Seq<DivView>) -> PlayerInfo {
    let at = first_of_class(divs, "nomdujoueur"@);
    if at >= divs.len() {
        PlayerInfo::MissingDiv
    } else {
        match divs[at].text {
            None => PlayerInfo::MissingText,
            Some(name) => PlayerInfo::Found(
                PlayerView { id, first_name: first_name_of(name), last_name: last_name_of(name) },
            ),
        }
    }
}

/// Whether `result` tells what `info` says: the player, or the reason in
/// words.
pub open spec fn tells(result: Result<ItsfPlayer, String>, info: PlayerInfo) -> bool {
    match info {
        PlayerInfo::Found(player) => result matches Ok(p) && p@ == player,
        PlayerInfo::MissingDiv => result matches Err(e) && e@ == "can't find div nomdujoueur"@,
        PlayerInfo::MissingText => result matches Err(e) && e@
            == "can't find text in nomdujoueur div"@,
    }
}

/// The first `div` whose class is `class`.
pub fn find_div<'a>(divs: &'a Vec<Div>, class: &str) -> (found: Option<&'a Div>)
    ensures
        found is None <==> first_of_class(divs_view(divs@), class@) >= divs@.len(),
        found matches Some(div) ==> div@ == divs_view(divs@)[first_of_class(
            divs_view(divs@),
            class@,
        )],
{
    let ghost all = divs_view(divs@);
    let wanted = String::from_str(class);
    let n: usize = divs.len();
    let mut i: usize = 0;
    assert(all.skip(0) =~= all);
    while i < n
        invariant
            n == divs@.len(),
            i <= n,
            all == divs_view(divs@),
            wanted@ == class@,
            first_of_class(all, class@) == i + first_of_class(all.skip(i as int), class@),
        decreases n - i,
    {
        let div = &divs[i];
        assert(all.skip(i as int).first() == div@);
        assert(all.skip(i as int).drop_first() =~= all.skip(i as int + 1));
        let here = match &div.class {
            Some(c) => *c == wanted,
            None => false,
        };
        if here {
            return Some(div);
        }
        i = i + 1;
    }
    None
}

/// The player `id` as the `div`s of the registry's page name them.
pub fn parse_player_info_from(id: u64, divs: &Vec<Div>) -> (result: Result<ItsfPlayer, String>)
    ensures
        tells(result, player_info(id, divs_view(divs@))),
{
    match find_div(divs, "nomdujoueur") {
        None => Err(String::from_str("can't find div nomdujoueur")),
        Some(div) => match &div.text {
            None => Err(String::from_str("can't find text in nomdujoueur div")),
            Some(name) => {
                let (first_name, last_name) = split_name(name.as_str());
                Ok(ItsfPlayer { id, first_name, last_name })
            },
        },
    }
}

/// The player `id` as the registry's page names them. The page must be short
/// enough for the parser.
pub fn parse_player_info(id: u64, body: &str) -> (result: Result<ItsfPlayer, String>)
    requires
        body@.len() <= MAX_PAGE_LENGTH,
    ensures
        tells(result, player_info(id, page_divs(body@))),
{
    let divs = divs_of(body);
    parse_player_info_from(id, &divs)
}

/// The character of a decimal digit.
pub open spec fn digit_char(digit: int) -> char {
    if digit == 0 {
        '0'
    } else if digit == 1 {
        '1'
    } else if digit == 2 {
        '2'
    } else if digit == 3 {
        '3'
    } else if digit == 4 {
        '4'
    } else if digit == 5 {
        '5'
    } else if digit == 6 {
        '6'
    } else if digit == 7 {
        '7'
    } else if digit == 8 {
        '8'
    } else {
        '9'
    }
}

/// A number in decimal digits.
pub open spec fn decimal(n: nat) -> Seq<char>
    decreases n,
{
    if n < 10 {
        seq![digit_char(n as int)]
    } else {
        decimal(n / 10).push(digit_char((n % 10) as int))
    }
}

/// A number in decimal digits, with zeros before it up to eight digits.
pub open spec fn licence_digits(n: nat) -> Seq<char> {
    zeros(
        if decimal(n).len() < 8 {
            (8 - decimal(n).len()) as nat
        } else {
            0
        },
    ) + decimal(n)
}

/// A row of zeros.
pub open spec fn zeros(count: nat) -> Seq<char> {
    Seq::new(count, |i: int| '0')
}

/// The address of the registry's page on the player with the licence number
/// `itsf_id`.
pub open spec fn player_info_address(itsf_id: u64) -> Seq<char> {
    "https://www.tablesoccer.org/page/player&numlic="@ + licence_digits(itsf_id as nat)
}

/// The character of a decimal digit.
fn digit(d: u64) -> (c: char)
    requires
        d < 10,
    ensures
        c == digit_char(d as int),
{
    if d == 0 {
        '0'
    } else if d == 1 {
        '1'
    } else if d == 2 {
        '2'
    } else if d == 3 {
        '3'
    } else if d == 4 {
        '4'
    } else if d == 5 {
        '5'
    } else if d == 6 {
        '6'
    } else if d == 7 {
        '7'
    } else if d == 8 {
        '8'
    } else {
        '9'
    }
}

/// The number of decimal digits of a number.
fn decimal_len(n: u64) -> (len: usize)
    ensures
        len == decimal(n as nat).len(),
        1 <= len <= 20,
    decreases n,
{
    if n < 10 {
        1
    } else {
        let rest = decimal_len(n / 10);
        proof {
            lemma_decimal_len(n as nat);
        }
        rest + 1
    }
}

/// A number below ten to the power of twenty has at most twenty digits.
proof fn lemma_decimal_len(n: nat)
    requires
        n <= u64::MAX,
    ensures
        decimal(n).len() <= 20,
{
    reveal_with_fuel(decimal, 21);
}

/// Appends a number in decimal digits.
fn push_decimal(text: &mut String, n: u64)
    ensures
        final(text)@ == old(text)@ + decimal(n as nat),
    decreases n,
{
    if n >= 10 {
        push_decimal(text, n / 10);
    }
    text.push(digit(n % 10));
    assert(text@ =~= old(text)@ + decimal(n as nat));
}

/// The address of the registry's page on the player with the licence number
/// `itsf_id`.
pub fn player_info_url(itsf_id: u64) -> (url: String)
    ensures
        url@ == player_info_address(itsf_id),
{
    let mut url = String::from_str("https://www.tablesoccer.org/page/player&numlic=");
    let ghost head = url@;
    let len = decimal_len(itsf_id);
    let mut k: usize = len;
    assert(url@ =~= head + zeros(0));
    while k < 8
        invariant
            len <= k,
            len == decimal(itsf_id as nat).len(),
            k > len ==> k <= 8,
            url@ == head + zeros((k - len) as nat),
        decreases 8 - k,
    {
        url.push('0');
        assert(url@ =~= head + zeros((k + 1 - len) as nat));
        k = k + 1;
    }
    push_decimal(&mut url, itsf_id);
    assert(url@ =~= head + (zeros((k - len) as nat) + decimal(itsf_id as nat)));
    url
}

} // verus!
