use veda_scrape::number::push_int;
use veda_scrape::text::{chars_of, parse_verses, trim_str};

#[test]
fn verses_are_trimmed_lines() {
    assert_eq!(parse_verses("a\r\n b \n\n"), vec!["a", "b", ""]);
    assert_eq!(parse_verses(""), Vec::<String>::new());
    assert_eq!(parse_verses("\n"), vec![""]);
    assert_eq!(parse_verses("x\ny"), vec!["x", "y"]);
}

#[test]
fn trim_removes_unicode_whitespace() {
    assert_eq!(trim_str("\u{3000} agniH \u{a0}\t"), "agniH");
    assert_eq!(trim_str("   "), "");
    assert_eq!(trim_str("a b"), "a b");
    assert_eq!(chars_of("ab"), vec!['a', 'b']);
}

#[test]
fn integers_in_decimal() {
    let mut s = String::from("n=");
    push_int(&mut s, i32::MIN);
    assert_eq!(s, "n=-2147483648");
    let mut t = String::new();
    push_int(&mut t, 0);
    push_int(&mut t, 905);
    assert_eq!(t, "0905");
}
