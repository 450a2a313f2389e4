use tournament_export::fast::PlayerInfos;
use tournament_export::itsf::{
    find_div, is_uppercase, join_words, page_fits, parse_player_info, parse_player_info_from,
    player_info_url, split_name, split_words, to_normalcase, Div, ItsfPlayer, ItsfPlayerDb,
    MAX_PAGE_LENGTH,
};

fn div(class: Option<&str>, text: Option<&str>) -> Div {
    Div { class: class.map(String::from), text: text.map(String::from) }
}

fn strings(words: &[&str]) -> Vec<String> {
    words.iter().map(|w| w.to_string()).collect()
}

#[test]
fn words_without_lowercase_letters_are_uppercase() {
    assert!(is_uppercase("LOVELACE"));
    assert!(is_uppercase("O'NEIL-2"));
    assert!(is_uppercase(""));
    assert!(is_uppercase("ÉCOLE"));
    assert!(!is_uppercase("Lovelace"));
    assert!(!is_uppercase("LOVELACe"));
    assert!(!is_uppercase("école"));
}

#[test]
fn normalcase_keeps_the_first_character() {
    assert_eq!(to_normalcase("LOVELACE"), "Lovelace");
    assert_eq!(to_normalcase("lOVELACE"), "lovelace");
    assert_eq!(to_normalcase("X"), "X");
    assert_eq!(to_normalcase(""), "");
    assert_eq!(to_normalcase("ÉCOLE"), "École");
    assert_eq!(to_normalcase("Aİ"), "Ai\u{307}");
}

#[test]
fn text_is_split_at_every_blank() {
    assert_eq!(split_words("Ada LOVELACE"), strings(&["Ada", "LOVELACE"]));
    assert_eq!(split_words(""), strings(&[""]));
    assert_eq!(split_words("one"), strings(&["one"]));
    assert_eq!(split_words(" a  b "), strings(&["", "a", "", "b", ""]));
}

#[test]
fn words_are_joined_with_blanks() {
    assert_eq!(join_words(&strings(&[])), "");
    assert_eq!(join_words(&strings(&["one"])), "one");
    assert_eq!(join_words(&strings(&["one", "two", "three"])), "one two three");
    assert_eq!(join_words(&strings(&["", "x"])), " x");
}

#[test]
fn name_is_split_in_first_and_last_name() {
    assert_eq!(split_name("LOVELACE Ada"), ("Ada".to_string(), "Lovelace".to_string()));
    assert_eq!(
        split_name("VAN DER BERG Jan  Willem"),
        ("Jan Willem".to_string(), "Van Der Berg".to_string())
    );
    assert_eq!(split_name("Ada"), ("Ada".to_string(), String::new()));
    assert_eq!(split_name(""), (String::new(), String::new()));
    assert_eq!(split_name("Jean DUPONT marie CURIE"), ("Jean marie".to_string(), "Dupont Curie".to_string()));
}

#[test]
fn first_div_of_the_class_is_found() {
    let divs = vec![
        div(None, Some("a")),
        div(Some("other"), Some("b")),
        div(Some("nomdujoueur"), Some("c")),
        div(Some("nomdujoueur"), Some("d")),
    ];
    assert_eq!(find_div(&divs, "nomdujoueur").unwrap().text.as_deref(), Some("c"));
    assert_eq!(find_div(&divs, "other").unwrap().text.as_deref(), Some("b"));
    assert!(find_div(&divs, "nomdu").is_none());
    assert!(find_div(&Vec::new(), "nomdujoueur").is_none());
}

#[test]
fn player_of_the_named_div() {
    let divs = vec![div(Some("x"), Some("NOT Me")), div(Some("nomdujoueur"), Some("HOPPER Grace"))];
    let player = parse_player_info_from(7, &divs).unwrap();
    assert_eq!(player, ItsfPlayer { id: 7, first_name: "Grace".to_string(), last_name: "Hopper".to_string() });
}

#[test]
fn missing_div_and_missing_text_are_told_apart() {
    let none = vec![div(Some("x"), Some("HOPPER Grace")), div(None, None)];
    assert_eq!(parse_player_info_from(7, &none).unwrap_err(), "can't find div nomdujoueur");
    let empty = vec![div(Some("nomdujoueur"), None), div(Some("nomdujoueur"), Some("HOPPER Grace"))];
    assert_eq!(parse_player_info_from(7, &empty).unwrap_err(), "can't find text in nomdujoueur div");
}

#[test]
fn player_is_read_from_a_page() {
    let page = "<html><body><div class=\"header\">Players</div>\
                <div class=\"nomdujoueur\">TURING Alan<span>GBR</span></div>\
                <div class=\"nomdujoueur\">OTHER One</div></body></html>";
    let player = parse_player_info(12345, page).unwrap();
    assert_eq!(player.id, 12345);
    assert_eq!(player.first_name, "Alan");
    assert_eq!(player.last_name, "Turing");
}

#[test]
fn class_must_be_the_whole_attribute() {
    let page = "<div class=\"nomdujoueur big\">TURING Alan</div>";
    assert_eq!(parse_player_info(1, page).unwrap_err(), "can't find div nomdujoueur");
    assert_eq!(parse_player_info(1, "no markup at all").unwrap_err(), "can't find div nomdujoueur");
}

#[test]
fn text_of_a_nested_element_counts_as_first_text() {
    let page = "<div class=\"nomdujoueur\"><b>HOPPER</b> Grace</div>";
    let player = parse_player_info(2, page).unwrap();
    assert_eq!(player.first_name, "");
    assert_eq!(player.last_name, "Hopper");
    let empty = "<div class=\"nomdujoueur\"></div>";
    assert_eq!(parse_player_info(2, empty).unwrap_err(), "can't find text in nomdujoueur div");
}

#[test]
fn address_pads_the_licence_number_to_eight_digits() {
    assert_eq!(player_info_url(0), "https://www.tablesoccer.org/page/player&numlic=00000000");
    assert_eq!(player_info_url(7), "https://www.tablesoccer.org/page/player&numlic=00000007");
    assert_eq!(player_info_url(12345), "https://www.tablesoccer.org/page/player&numlic=00012345");
    assert_eq!(player_info_url(12345678), "https://www.tablesoccer.org/page/player&numlic=12345678");
    assert_eq!(player_info_url(1234567890), "https://www.tablesoccer.org/page/player&numlic=1234567890");
    assert_eq!(
        player_info_url(u64::MAX),
        "https://www.tablesoccer.org/page/player&numlic=18446744073709551615"
    );
}

#[test]
fn known_player_needs_no_download() {
    let mut db = ItsfPlayerDb::new();
    let infos = PlayerInfos { noLicense: 555, playerId: 9 };
    assert_eq!(db.license_to_download(&infos), Some(555));
    db.register(&infos, ItsfPlayer { id: 555, first_name: "A".to_string(), last_name: "B".to_string() });
    assert_eq!(db.license_to_download(&infos), None);
    assert_eq!(db.get(9).unwrap().id, 555);
}

#[test]
fn register_keeps_the_player_that_is_known() {
    let mut db = ItsfPlayerDb::new();
    let infos = PlayerInfos { noLicense: 555, playerId: 9 };
    db.register(&infos, ItsfPlayer { id: 555, first_name: "A".to_string(), last_name: "B".to_string() });
    db.register(&infos, ItsfPlayer { id: 556, first_name: "C".to_string(), last_name: "D".to_string() });
    assert_eq!(db.get(9).unwrap().first_name, "A");
}

#[test]
fn short_pages_fit_the_parser() {
    assert!(page_fits(""));
    assert!(page_fits("<div class=\"nomdujoueur\">TURING Alan</div>"));
    assert_eq!(MAX_PAGE_LENGTH, 536870911);
}

#[test]
fn page_length_counts_characters_not_bytes() {
    let page = "é".repeat(1000);
    assert_eq!(page.len(), 2000);
    assert!(page_fits(&page));
}

#[test]
fn page_beyond_the_limit_does_not_fit() {
    let mut page = String::with_capacity(MAX_PAGE_LENGTH + 1);
    page.extend(std::iter::repeat('a').take(MAX_PAGE_LENGTH));
    assert!(page_fits(&page));
    page.push('a');
    assert!(!page_fits(&page));
}
