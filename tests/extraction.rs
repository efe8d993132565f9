use veda_scrape::catalog::{extract_layout, Layout, KRAMAM_PATTERN, PADAM_PATTERN, SAMHITA_HEADER_PATTERN};
use veda_scrape::error::ScrapeError;
use veda_scrape::pattern::Pattern;
use veda_scrape::verse::{
    extract_headed_verses, extract_verses, parse_index, verse_from_groups, verses_from_captures,
    verses_from_headers, VerseTable,
};

fn extract(pattern: &str, text: &str) -> (Result<(), ScrapeError>, VerseTable) {
    let p = Pattern::new(pattern).unwrap();
    let mut table = VerseTable::new();
    let r = extract_verses(text, &p, &mut table);
    (r, table)
}

fn summary(table: &VerseTable) -> Vec<(String, [i32; 4], String)> {
    table
        .entries()
        .iter()
        .map(|v| (v.index.clone(), [v.bhaga, v.kanda, v.prasna, v.panasa], v.text.clone()))
        .collect()
}

#[test]
fn padam_sample_yields_two_verses_in_order() {
    let doc = "1.1.1.1 agnim ile\n1.1.1.2  purohitam yajnasya\n";
    let (r, table) = extract(PADAM_PATTERN, doc);
    assert_eq!(r, Ok(()));
    assert_eq!(
        summary(&table),
        vec![
            ("1.1.1.1".to_string(), [1, 1, 1, 1], "agnim ile".to_string()),
            ("1.1.1.2".to_string(), [1, 1, 1, 2], "purohitam yajnasya".to_string()),
        ]
    );
}

#[test]
fn kramam_sample_stops_at_parenthesis() {
    let doc = "T.S.1.2.3.4 - kramam\n iSe tvA  (1)\nT.S.1.2.3.5 - kramam\nUrje tvA\n";
    let (r, table) = extract(KRAMAM_PATTERN, doc);
    assert_eq!(r, Ok(()));
    assert_eq!(
        summary(&table),
        vec![
            ("1.2.3.4".to_string(), [1, 2, 3, 4], "iSe tvA".to_string()),
            ("1.2.3.5".to_string(), [1, 2, 3, 5], "Urje tvA".to_string()),
        ]
    );
}

#[test]
fn samhita_sample_yields_two_verses_in_order() {
    let doc = "TS 1.1.1.1\nfirst verse\nTS 1.1.1.2\n second verse \n";
    let p = Pattern::new(SAMHITA_HEADER_PATTERN).unwrap();
    let mut table = VerseTable::new();
    assert_eq!(extract_headed_verses(doc, &p, &mut table), Ok(()));
    assert_eq!(
        summary(&table),
        vec![
            ("1.1.1.1".to_string(), [1, 1, 1, 1], "first verse".to_string()),
            ("1.1.1.2".to_string(), [1, 1, 1, 2], "second verse".to_string()),
        ]
    );
}

#[test]
fn samhita_verse_runs_to_the_next_header() {
    let doc = "preface\nTS 1.1.1.1\nA\nTS 1.1.1.2\nB\nTS 1.1.1.3\nC";
    let p = Pattern::new(Layout::Samhita.pattern()).unwrap();
    let mut table = VerseTable::new();
    assert_eq!(extract_layout(Layout::Samhita, &p, doc, &mut table), Ok(()));
    let texts: Vec<(String, String)> =
        table.entries().iter().map(|v| (v.index.clone(), v.text.clone())).collect();
    assert_eq!(
        texts,
        vec![
            ("1.1.1.1".to_string(), "A".to_string()),
            ("1.1.1.2".to_string(), "B".to_string()),
            ("1.1.1.3".to_string(), "C".to_string()),
        ]
    );
}

#[test]
fn layout_dispatch_uses_whole_verse_matches() {
    let p = Pattern::new(Layout::Padam.pattern()).unwrap();
    let mut table = VerseTable::new();
    assert_eq!(extract_layout(Layout::Padam, &p, "2.1.1.1 iSe\n", &mut table), Ok(()));
    assert_eq!(summary(&table), vec![("2.1.1.1".to_string(), [2, 1, 1, 1], "iSe".to_string())]);
}

#[test]
fn header_without_following_text_lacks_its_body() {
    let headers = vec![vec![Some("TS 1.1.1.1\n".to_string()), Some("1.1.1.1".to_string())]];
    let pieces = vec!["".to_string()];
    assert_eq!(verses_from_headers(&headers, &pieces).err(), Some(ScrapeError::MissingGroup));
    let pieces = vec!["".to_string(), " body\n".to_string()];
    let vs = verses_from_headers(&headers, &pieces).unwrap();
    assert_eq!(vs.len(), 1);
    assert_eq!(vs[0].text, "body");
}

#[test]
fn layout_patterns_compile() {
    for l in [Layout::Samhita, Layout::Padam, Layout::Kramam] {
        assert!(Pattern::new(l.pattern()).is_ok());
    }
    assert_eq!(Layout::Padam.pattern(), PADAM_PATTERN);
}

#[test]
fn invalid_pattern_is_reported() {
    assert_eq!(Pattern::new("(unclosed").err(), Some(ScrapeError::InvalidPattern));
}

#[test]
fn index_with_three_parts_is_skipped() {
    let (r, table) = extract(r"(\S+) (\S+)", "1.2.3 alpha 1.2.3.4 beta 1.2.3.4.5 gamma");
    assert_eq!(r, Ok(()));
    assert_eq!(summary(&table), vec![("1.2.3.4".to_string(), [1, 2, 3, 4], "beta".to_string())]);
}

#[test]
fn non_numeric_index_part_stops_the_pass() {
    let p = Pattern::new(r"(\S+) (\S+)").unwrap();
    let mut table = VerseTable::new();
    assert_eq!(extract_verses("1.1.1.1 kept", &p, &mut table), Ok(()));
    let r = extract_verses("1.2.3.4 fine 1.x.3.4 bad", &p, &mut table);
    assert_eq!(r, Err(ScrapeError::MalformedIndex));
    assert_eq!(summary(&table), vec![("1.1.1.1".to_string(), [1, 1, 1, 1], "kept".to_string())]);
}

#[test]
fn missing_body_group_is_reported() {
    let (r, table) = extract(r"(\d+\.\d+\.\d+\.\d+)(x)?", "1.2.3.4 y");
    assert_eq!(r, Err(ScrapeError::MissingGroup));
    assert_eq!(table.len(), 0);
}

#[test]
fn later_verse_replaces_earlier_with_same_index() {
    let p = Pattern::new(PADAM_PATTERN).unwrap();
    let mut table = VerseTable::new();
    assert_eq!(extract_verses("1.1.1.1 old\n1.1.1.2 other\n", &p, &mut table), Ok(()));
    assert_eq!(extract_verses("1.1.1.1 new\n", &p, &mut table), Ok(()));
    assert_eq!(
        summary(&table),
        vec![
            ("1.1.1.1".to_string(), [1, 1, 1, 1], "new".to_string()),
            ("1.1.1.2".to_string(), [1, 1, 1, 2], "other".to_string()),
        ]
    );
    assert_eq!(table.position(&"1.1.1.2".to_string()), Some(1));
    assert_eq!(table.position(&"9.9.9.9".to_string()), None);
}

#[test]
fn index_round_trips_through_its_parts() {
    let parts = parse_index("3.12.7.40").unwrap();
    assert_eq!(parts, vec![3, 12, 7, 40]);
    let joined: Vec<String> = parts.iter().map(|n| n.to_string()).collect();
    assert_eq!(joined.join("."), "3.12.7.40");
}

#[test]
fn index_parsing_follows_integer_parsing() {
    assert_eq!(parse_index("1.x.3.4"), None);
    assert_eq!(parse_index("1..3"), None);
    assert_eq!(parse_index(""), None);
    assert_eq!(parse_index("+1.-2"), Some(vec![1, -2]));
    assert_eq!(parse_index("2147483647"), Some(vec![2147483647]));
    assert_eq!(parse_index("2147483648"), None);
    assert_eq!(parse_index("-2147483648"), Some(vec![-2147483648]));
    assert_eq!(parse_index("1.2.3.4.5"), Some(vec![1, 2, 3, 4, 5]));
}

#[test]
fn groups_become_one_verse() {
    let groups = vec![
        Some("7.1.1.1 x".to_string()),
        Some("7.1.1.1".to_string()),
        Some("  body \n".to_string()),
    ];
    let v = verse_from_groups(&groups).unwrap().unwrap();
    assert_eq!((v.bhaga, v.kanda, v.prasna, v.panasa), (7, 1, 1, 1));
    assert_eq!(v.text, "body");
    assert_eq!(verse_from_groups(&vec![Some("a".to_string())]).err(), Some(ScrapeError::MissingGroup));
}

#[test]
fn first_failing_match_decides_the_error() {
    let matches = vec![
        vec![Some("m".to_string()), Some("1.2".to_string()), Some("t".to_string())],
        vec![Some("m".to_string()), Some("q.2".to_string()), Some("t".to_string())],
        vec![Some("m".to_string()), None, Some("t".to_string())],
    ];
    assert_eq!(verses_from_captures(&matches).err(), Some(ScrapeError::MalformedIndex));
}
