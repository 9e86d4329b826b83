use logroller::text::{
    decimal_string, is_before, parse_usize, slice_of, sort_names, split_dots, starts_with, to_chars,
};

fn parse(s: &str) -> Option<usize> {
    parse_usize(&to_chars(s))
}

#[test]
fn numbers_are_read_as_std_reads_them() {
    for s in [
        "", "0", "7", "007", "42", "+42", "+", "-1", "++1", "1a", "a1", " 1", "1 ", "1_0",
        "18446744073709551615", "18446744073709551616", "99999999999999999999999",
        "00000000000000000000000000001", "\u{0661}",
    ] {
        assert_eq!(parse(s), s.parse::<usize>().ok(), "{}", s);
    }
}

#[test]
fn numbers_are_written_as_std_writes_them() {
    for n in [0, 1, 9, 10, 11, 99, 100, 1024, 65535, usize::MAX] {
        assert_eq!(decimal_string(n), n.to_string());
        assert_eq!(parse(&decimal_string(n)), Some(n));
    }
}

#[test]
fn texts_are_split_at_dots() {
    for s in ["", ".", "a", "a.b", "app.log.7.gz", ".a", "a.", "..", "a..b"] {
        let parts: Vec<String> =
            split_dots(&to_chars(s)).iter().map(|p| p.iter().collect()).collect();
        let expected: Vec<String> = s.split('.').map(String::from).collect();
        assert_eq!(parts, expected);
    }
}

#[test]
fn prefixes_and_slices() {
    let s = to_chars("app.log.7");
    assert!(starts_with(&s, &to_chars("app.log.")));
    assert!(starts_with(&s, &to_chars("")));
    assert!(!starts_with(&s, &to_chars("app.log.7.")));
    assert!(!starts_with(&s, &to_chars("bpp")));
    assert_eq!(slice_of(&s, 4, 7), to_chars("log"));
    assert_eq!(slice_of(&s, 4, 4), to_chars(""));
}

#[test]
fn names_come_in_the_order_of_their_characters() {
    let names = ["", "a", "a.1", "a.10", "a.2", "aa", "b", "A", "\u{e9}", "\u{1F600}", "z", "\u{ffff}"];
    for x in names {
        for y in names {
            assert_eq!(is_before(&to_chars(x), &to_chars(y)), x < y);
        }
    }
}

#[test]
fn names_are_sorted() {
    let given = ["b", "a.10", "a.2", "", "a.1", "b", "a"];
    let mut expected: Vec<String> = given.iter().map(|s| s.to_string()).collect();
    let sorted = sort_names(expected.clone());
    expected.sort();
    assert_eq!(sorted, expected);
    assert_eq!(sort_names(Vec::new()), Vec::<String>::new());
}
