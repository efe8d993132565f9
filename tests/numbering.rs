use veda_scrape::numbering::{annotation_pattern, number_lines, number_stripped, strip_index};

#[test]
fn bracketed_number_and_its_whitespace_are_removed() {
    let p = annotation_pattern().unwrap();
    assert_eq!(strip_index(&p, "text [12] more text"), "textmore text");
    assert_eq!(strip_index(&p, "a [1] b [22]"), "ab");
    assert_eq!(strip_index(&p, "no numbers [x] here"), "no numbers [x] here");
    assert_eq!(strip_index(&p, "  [3]  "), "");
}

#[test]
fn empty_lines_take_no_number() {
    let lines = vec!["a".to_string(), "".to_string(), "b".to_string(), "".to_string()];
    let r = number_stripped(1, 2, &lines);
    let got: Vec<(usize, String, String)> = r.iter().map(|a| (a.anuvaka, a.text.clone(), a.key())).collect();
    assert_eq!(
        got,
        vec![
            (1, "a".to_string(), "1.2.1".to_string()),
            (2, "b".to_string(), "1.2.2".to_string()),
        ]
    );
}

#[test]
fn lines_that_strip_to_nothing_take_no_number() {
    let p = annotation_pattern().unwrap();
    let text = "  agnim [1]\r\n\n [2] \nile [3] purohitam\n";
    let r = number_lines(4, 3, &p, text);
    let got: Vec<(i32, i32, usize, String)> =
        r.iter().map(|a| (a.kanda, a.prasna, a.anuvaka, a.text.clone())).collect();
    assert_eq!(
        got,
        vec![
            (4, 3, 1, "agnim".to_string()),
            (4, 3, 2, "ilepurohitam".to_string()),
        ]
    );
}

#[test]
fn key_writes_negative_numbers_with_sign() {
    let lines = vec!["x".to_string()];
    let r = number_stripped(-1, 10, &lines);
    assert_eq!(r[0].key(), "-1.10.1");
}
