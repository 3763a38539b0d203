use std::collections::HashSet;
use std::str::FromStr;

use regex::Regex;
use sum_modpack::modpack::{dedup_ids, Modpack, ModpackError};

const LINK: &str = "https://steamcommunity.com/sharedfiles/filedetails/?id=";

/// What the regex-based reading gives: the IDs of the links, first occurrences only,
/// or `None` where one of them is not a valid `u64`.
fn regex_reading(content: &str) -> Option<Vec<u64>> {
    let pattern =
        Regex::new(r"https://steamcommunity.com/sharedfiles/filedetails/\?id=(\d+)").unwrap();
    let mut ids = Vec::new();
    for c in pattern.captures_iter(content) {
        match c.get(1).unwrap().as_str().parse::<u64>() {
            Ok(v) => ids.push(v),
            Err(_) => return None,
        }
    }
    let mut seen = HashSet::new();
    ids.retain(|id| seen.insert(*id));
    Some(ids)
}

fn ids_of(content: &str) -> Result<Vec<u64>, ()> {
    Modpack::from_content(content).map(|m| m.workshop_ids)
}

#[test]
fn lib_deduplicate_workshop_ids() {
    let modpack = Modpack::from_str(
        r#"
            https://steamcommunity.com/sharedfiles/filedetails/?id=123
            https://steamcommunity.com/sharedfiles/filedetails/?id=123
            "#,
    )
    .unwrap();
    assert_eq!(
        modpack.workshop_ids,
        vec![123],
        "workshop IDs must be de-duplicated",
    );
}

#[test]
fn modpack_deduplicate_workshop_ids() {
    let modpack = Modpack::from_str(
        r#"
            https://steamcommunity.com/sharedfiles/filedetails/?id=123
            https://steamcommunity.com/sharedfiles/filedetails/?id=123
            "#,
    )
    .unwrap();
    assert_eq!(
        modpack.workshop_ids,
        vec![123],
        "workshop IDs must be de-duplicated",
    );
}

#[test]
fn first_occurrence_order_is_kept() {
    let content = format!("{LINK}3 {LINK}1 {LINK}3 {LINK}2 {LINK}1");
    assert_eq!(ids_of(&content), Ok(vec![3, 1, 2]));
}

#[test]
fn html_modpack_links() {
    let content = format!(
        "<tr><td><a href=\"{LINK}450814997\" data-type=\"Link\">{LINK}450814997</a></td></tr>\n\
         <tr><td><a href=\"{LINK}843577117\" data-type=\"Link\">{LINK}843577117</a></td></tr>"
    );
    assert_eq!(ids_of(&content), Ok(vec![450814997, 843577117]));
}

#[test]
fn no_links_give_no_ids() {
    assert_eq!(ids_of(""), Ok(vec![]));
    assert_eq!(ids_of("nothing to see here"), Ok(vec![]));
    assert_eq!(ids_of(&format!("{LINK}abc")), Ok(vec![]));
    assert_eq!(ids_of(&format!("{LINK}")), Ok(vec![]));
}

#[test]
fn digits_stop_at_first_non_digit() {
    assert_eq!(ids_of(&format!("{LINK}12abc34")), Ok(vec![12]));
    assert_eq!(ids_of(&format!("{LINK}007")), Ok(vec![7]));
    assert_eq!(ids_of(&format!("{LINK}1&searchtext=")), Ok(vec![1]));
}

#[test]
fn adjacent_links_are_both_found() {
    assert_eq!(ids_of(&format!("{LINK}5{LINK}6")), Ok(vec![5, 6]));
}

#[test]
fn the_dot_matches_any_character_but_a_line_feed() {
    let odd = "https://steamcommunityécom/sharedfiles/filedetails/?id=42";
    assert_eq!(ids_of(odd), Ok(vec![42]));
    let x = "https://steamcommunityXcom/sharedfiles/filedetails/?id=43";
    assert_eq!(ids_of(x), Ok(vec![43]));
    let newline = "https://steamcommunity\ncom/sharedfiles/filedetails/?id=44";
    assert_eq!(ids_of(newline), Ok(vec![]));
}

#[test]
fn other_characters_must_match_exactly() {
    assert_eq!(ids_of("http://steamcommunity.com/sharedfiles/filedetails/?id=1"), Ok(vec![]));
    assert_eq!(ids_of("https://steamcommunity.com/sharedfiles/filedetails/id=1"), Ok(vec![]));
    assert_eq!(ids_of("HTTPS://steamcommunity.com/sharedfiles/filedetails/?id=1"), Ok(vec![]));
}

#[test]
fn largest_id_fits() {
    assert_eq!(ids_of(&format!("{LINK}18446744073709551615")), Ok(vec![u64::MAX]));
}

#[test]
fn id_too_large_is_refused() {
    assert_eq!(ids_of(&format!("{LINK}18446744073709551616")), Err(()));
    assert_eq!(ids_of(&format!("{LINK}1 {LINK}99999999999999999999999")), Err(()));
    assert_eq!(Modpack::from_str(&format!("{LINK}18446744073709551616")), Err(()));
}

#[test]
fn same_ids_as_the_regex_reading() {
    let samples = vec![
        String::new(),
        format!("{LINK}1"),
        format!("x{LINK}12 y {LINK}7 {LINK}12\n{LINK}0"),
        format!("{LINK}{LINK}5"),
        format!("https://steamcommunity.com{LINK}9"),
        format!("ünïcödé {LINK}31 ✓ {LINK}32✓{LINK}31"),
        format!("{LINK}18446744073709551616"),
        "https://steamcommunity?com/sharedfiles/filedetails/?id=77".to_string(),
        format!("{LINK}12\u{0663}"),
        format!("{LINK}\u{0663}4 {LINK}5"),
        format!("{LINK}7 {LINK}12\u{00bd} {LINK}8\u{00e9}"),
        format!("{LINK}1 {LINK}\u{0967}"),
    ];
    for sample in samples {
        assert_eq!(ids_of(&sample).ok(), regex_reading(&sample), "{sample}");
    }
}

#[test]
fn dedup_keeps_first_occurrences() {
    assert_eq!(dedup_ids(&vec![5, 5, 4, 5, 3, 4]), vec![5, 4, 3]);
    assert_eq!(dedup_ids(&vec![]), Vec::<u64>::new());
    let once = dedup_ids(&vec![9, 8, 9, 7]);
    assert_eq!(dedup_ids(&once), once);
}

#[test]
fn modpack_error_conversions() {
    assert!(matches!(ModpackError::from(()), ModpackError::Unknown));
    let io = std::io::Error::new(std::io::ErrorKind::NotFound, "missing");
    match ModpackError::from(io) {
        ModpackError::IOError(e) => assert_eq!(e.kind(), std::io::ErrorKind::NotFound),
        ModpackError::Unknown => panic!("expected an I/O error"),
    }
}

#[test]
fn reading_back_written_links_gives_the_same_modpack() {
    let content = format!("a {LINK}9 b {LINK}4 {LINK}9 c\n{LINK}00017");
    let r = Modpack::from_str(&content).unwrap();
    let written: Vec<String> = r.workshop_ids.iter().map(|id| format!("{LINK}{id}")).collect();
    assert_eq!(Modpack::from_str(&written.join("\n")), Ok(r));
}

#[test]
fn joined_texts_give_the_first_ids_then_the_new_ones() {
    let s1 = format!("{LINK}1 {LINK}2 {LINK}1");
    let s2 = format!("{LINK}3 {LINK}2 {LINK}4 {LINK}3");
    let a = Modpack::from_str(&s1).unwrap().workshop_ids;
    let b = Modpack::from_str(&s2).unwrap().workshop_ids;
    let mut expected = a.clone();
    expected.extend(b.iter().filter(|id| !a.contains(id)));
    assert_eq!(Modpack::from_str(&format!("{s1}\n{s2}")).unwrap().workshop_ids, expected);
    assert_eq!(expected, vec![1, 2, 3, 4]);
}

#[test]
fn a_link_cut_by_a_line_feed_is_no_link() {
    let s1 = "https://steamcommunity.com/sharedfiles";
    let s2 = "/filedetails/?id=5";
    assert_eq!(ids_of(&format!("{s1}\n{s2}")), Ok(vec![]));
}

#[test]
fn ids_with_digits_of_other_scripts_are_refused() {
    // U+0663 ARABIC-INDIC DIGIT THREE and U+0967 DEVANAGARI DIGIT ONE are decimal digits
    assert_eq!(ids_of(&format!("{LINK}12\u{0663}")), Err(()));
    assert_eq!(ids_of(&format!("{LINK}\u{0663}")), Err(()));
    assert_eq!(ids_of(&format!("{LINK}1 {LINK}\u{0967}2")), Err(()));
    assert_eq!(Modpack::from_str(&format!("{LINK}12\u{0663}")), Err(()));
}

#[test]
fn other_non_ascii_characters_end_an_id() {
    // U+00BD VULGAR FRACTION ONE HALF is numeric but no decimal digit
    assert_eq!(ids_of(&format!("{LINK}12\u{00bd}")), Ok(vec![12]));
    assert_eq!(ids_of(&format!("{LINK}12\u{00e9}")), Ok(vec![12]));
    assert_eq!(ids_of(&format!("{LINK}\u{00bd}")), Ok(vec![]));
}
