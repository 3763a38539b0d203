use sum_modpack::decimal::decimal_string;
use sum_modpack::payloads::{
    create_publishedfileids, FileDetails, PublishedFileDetailsRequest, PublishedFileDetailsResponse,
    PublishedFileDetailsResponseResponse, Tag,
};
use sum_modpack::stats::{
    cumulative_sum, display_filesize, sorted_mods, Mod, ModError, ModStatRow, ModpackStats,
    SortMode,
};

fn item(id: &str, title: &str, size: &str) -> FileDetails {
    FileDetails::Item {
        publishedfileid: id.to_string(),
        title: title.to_string(),
        file_size: size.to_string(),
        tags: vec![Tag { tag: "Mod".to_string() }],
    }
}

fn failed(id: &str, result: u64) -> FileDetails {
    FileDetails::Failed { publishedfileid: id.to_string(), result }
}

fn m(id: u64, title: &str, size: u64) -> Mod {
    Mod { publishedfileid: id, title: title.to_string(), file_size: size }
}

fn stats(mods: Vec<Mod>) -> ModpackStats {
    ModpackStats { mods }
}

#[test]
fn request_has_one_entry_per_id() {
    let req = PublishedFileDetailsRequest::new(&[450814997, 843577117]);
    assert_eq!(req.itemcount, 2);
    assert_eq!(
        req.publishedfileids,
        vec![
            ("publishedfileids[0]".to_string(), 450814997),
            ("publishedfileids[1]".to_string(), 843577117),
        ]
    );
}

#[test]
fn request_keys_count_past_nine() {
    let ids: Vec<u64> = (100..112).collect();
    let entries = create_publishedfileids(&ids);
    assert_eq!(entries.len(), 12);
    assert_eq!(entries[10], ("publishedfileids[10]".to_string(), 110));
    assert_eq!(entries[11], ("publishedfileids[11]".to_string(), 111));
    let mut keys: Vec<&String> = entries.iter().map(|(k, _)| k).collect();
    keys.sort();
    keys.dedup();
    assert_eq!(keys.len(), 12);
}

#[test]
fn empty_request() {
    let req = PublishedFileDetailsRequest::new(&[]);
    assert_eq!(req.itemcount, 0);
    assert!(req.publishedfileids.is_empty());
}

#[test]
fn decimal_strings() {
    assert_eq!(decimal_string(0), "0");
    assert_eq!(decimal_string(7), "7");
    assert_eq!(decimal_string(1234567890), "1234567890");
    assert_eq!(decimal_string(u64::MAX), u64::MAX.to_string());
}

#[test]
fn item_details_give_a_mod() {
    assert_eq!(Mod::try_from(&item("123", "CBA_A3", "5000000")), Ok(m(123, "CBA_A3", 5000000)));
    assert_eq!(Mod::try_from(&item("+7", "Plus", "+0")), Ok(m(7, "Plus", 0)));
}

#[test]
fn unparsable_numbers_give_parse_errors() {
    for (id, size) in [("abc", "1"), ("1", "x"), ("", "1"), ("1", ""), (" 1", "1"), ("-1", "1"), ("1", "18446744073709551616"), ("+", "1")] {
        match Mod::try_from(&item(id, "t", size)) {
            Err(ModError::ParseIntError(_)) => {},
            other => panic!("expected a parse error for ({id:?}, {size:?}), got {other:?}"),
        }
    }
}

#[test]
fn failed_details_give_their_result_code() {
    assert_eq!(Mod::try_from(&failed("42", 9)), Err(ModError::ItemNotFound("42".to_string())));
    assert_eq!(Mod::try_from(&failed("43", 2)), Err(ModError::InvalidResult("43".to_string(), 2)));
}

#[test]
fn mod_error_from_parse_error() {
    let e = "x".parse::<u64>().unwrap_err();
    assert_eq!(ModError::from(e.clone()), ModError::ParseIntError(e));
}

#[test]
fn from_response_skips_details_without_a_mod() {
    let response = PublishedFileDetailsResponse {
        response: PublishedFileDetailsResponseResponse {
            publishedfiledetails: vec![
                item("1", "A", "100"),
                failed("2", 9),
                item("x", "B", "5"),
                item("3", "C", "300"),
                failed("4", 15),
            ],
        },
    };
    let stats = ModpackStats::from_response(&response).unwrap();
    assert_eq!(stats.mods, vec![m(1, "A", 100), m(3, "C", 300)]);
}

#[test]
fn from_empty_response() {
    let stats = ModpackStats::from_response(&PublishedFileDetailsResponse::default()).unwrap();
    assert!(stats.mods.is_empty());
}

#[test]
fn file_sizes_are_shown_in_bytes_kilobytes_or_megabytes() {
    assert_eq!(display_filesize(&0), "0B");
    assert_eq!(display_filesize(&999), "999B");
    assert_eq!(display_filesize(&1000), "1KB");
    assert_eq!(display_filesize(&1001), "2KB");
    assert_eq!(display_filesize(&287_000), "287KB");
    assert_eq!(display_filesize(&999_999), "1000KB");
    assert_eq!(display_filesize(&1_000_000), "1MB");
    assert_eq!(display_filesize(&1_000_001), "2MB");
    assert_eq!(display_filesize(&3_934_000_000), "3,934MB");
    assert_eq!(display_filesize(&1_234_567_000_001), "1,234,568MB");
    assert_eq!(display_filesize(&u64::MAX), "18,446,744,073,710MB");
}

#[test]
fn cumulative_sums() {
    assert_eq!(cumulative_sum(&[1, 2, 3]), vec![1, 3, 6]);
    assert_eq!(cumulative_sum(&[]), Vec::<u64>::new());
    assert_eq!(cumulative_sum(&[u64::MAX - 1, 1]), vec![u64::MAX - 1, u64::MAX]);
}

#[test]
fn total_size_checks_overflow() {
    assert_eq!(stats(vec![m(1, "a", 5), m(2, "b", 7)]).total_size(), Some(12));
    assert_eq!(stats(vec![]).total_size(), Some(0));
    assert_eq!(stats(vec![m(1, "a", u64::MAX), m(2, "b", 1)]).total_size(), None);
}

#[test]
fn sort_mode_default_is_largest() {
    assert_eq!(SortMode::default(), SortMode::Largest);
}

fn titles(mods: &[Mod]) -> Vec<&str> {
    mods.iter().map(|m| m.title.as_str()).collect()
}

#[test]
fn sorting_by_size_and_title() {
    let mods = vec![m(1, "b", 5), m(2, "c", 9), m(3, "a", 5), m(4, "d", 1)];
    assert_eq!(titles(&sorted_mods(&mods, SortMode::Largest)), vec!["c", "a", "b", "d"]);
    assert_eq!(titles(&sorted_mods(&mods, SortMode::Smallest)), vec!["d", "a", "b", "c"]);
    assert_eq!(titles(&sorted_mods(&mods, SortMode::Title)), vec!["a", "b", "c", "d"]);
}

#[test]
fn sorting_titles_like_strings() {
    let mods = vec![m(1, "ab", 1), m(2, "a", 1), m(3, "B", 1), m(4, "é", 1), m(5, "z", 1)];
    let sorted = sorted_mods(&mods, SortMode::Title);
    let mut expected: Vec<&str> = titles(&mods);
    expected.sort();
    assert_eq!(titles(&sorted), expected);
}

#[test]
fn sorting_is_stable() {
    let mods = vec![m(1, "same", 5), m(2, "same", 5), m(3, "same", 5)];
    let ids: Vec<u64> = sorted_mods(&mods, SortMode::Largest).iter().map(|m| m.publishedfileid).collect();
    assert_eq!(ids, vec![1, 2, 3]);
}

#[test]
fn sorting_matches_the_std_stable_sort() {
    let mods = vec![
        m(1, "JSRS SOUNDMOD 2025", 3_934_000_000),
        m(2, "CBA_A3", 5_000_000),
        m(3, "Drakovac", 362_000_000),
        m(4, "Pylon Manager", 2_000_000),
        m(5, "Alternative Running", 2_000_000),
        m(6, "Splendid Smoke", 3_000),
        m(7, "Better Inventory", 107_000),
    ];
    let mut expected = mods.clone();
    expected.sort_by(|a, b| a.title.cmp(&b.title));
    expected.sort_by_key(|b| std::cmp::Reverse(b.file_size));
    assert_eq!(sorted_mods(&mods, SortMode::Largest), expected);
}

#[test]
fn table_rows_have_running_totals() {
    let stats = stats(vec![m(1, "small", 10), m(2, "big", 1000), m(3, "mid", 100)]);
    let rows = stats.table_rows(SortMode::Largest);
    assert_eq!(
        rows,
        vec![
            ModStatRow { index: 1, total_up: 1110, total_down: 1000, size: 1000, title: "big".to_string() },
            ModStatRow { index: 2, total_up: 110, total_down: 1100, size: 100, title: "mid".to_string() },
            ModStatRow { index: 3, total_up: 10, total_down: 1110, size: 10, title: "small".to_string() },
        ]
    );
}

#[test]
fn table_totals_law_on_example() {
    let stats = stats(vec![m(1, "a", 7), m(2, "b", 3), m(3, "c", 11), m(4, "d", 3)]);
    for mode in [SortMode::Largest, SortMode::Smallest, SortMode::Title] {
        let rows = stats.table_rows(mode);
        let total = 24;
        assert_eq!(rows[0].total_up, total);
        assert_eq!(rows[rows.len() - 1].total_down, total);
        for r in &rows {
            assert_eq!(r.total_up + r.total_down, total + r.size);
        }
    }
}

#[test]
fn empty_table() {
    assert!(stats(vec![]).table_rows(SortMode::Title).is_empty());
}

#[test]
fn the_id_error_is_reported_first() {
    let id_err = "".parse::<u64>().unwrap_err();
    assert_eq!(Mod::try_from(&item("", "t", "x")), Err(ModError::ParseIntError(id_err.clone())));
    assert_eq!(
        Mod::from_parsed("".parse::<u64>(), &"t".to_string(), "x".parse::<u64>()),
        Err(ModError::ParseIntError(id_err))
    );
}

#[test]
fn the_size_error_is_reported_when_the_id_parses() {
    let size_err = "-1".parse::<u64>().unwrap_err();
    assert_eq!(Mod::try_from(&item("1", "T", "-1")), Err(ModError::ParseIntError(size_err)));
    assert_eq!(
        Mod::from_parsed(Ok(1), &"T".to_string(), Ok(2)),
        Ok(m(1, "T", 2))
    );
}
