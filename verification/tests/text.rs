use contact_relay::text::{
    byte_len, chars_of, clone_list, compare, decimal_string, eq_ignoring_ascii_case, find,
    is_blank, push_stars, split_bounds, strip_bounds, to_ascii_lower, trim, trim_bounds,
    Placement,
};

#[test]
fn trim_removes_white_space_at_both_ends_only() {
    assert_eq!(trim("  a b  "), "a b");
    assert_eq!(trim("\t\r\n x\u{a0}\u{2003}"), "x");
    assert_eq!(trim("x"), "x");
    assert_eq!(trim(""), "");
    assert_eq!(trim(" \n "), "");
    for s in ["", " ", "a", " a", "a ", " a b ", "\u{3000}é\u{85}", "\u{feff} a"] {
        assert_eq!(trim(s), s.trim());
    }
}

#[test]
fn blank_means_nothing_but_white_space() {
    assert!(is_blank(""));
    assert!(is_blank(" \t\u{2028}"));
    assert!(!is_blank(" . "));
}

#[test]
fn trim_bounds_stay_within_the_range() {
    let cs = chars_of("ab  cd  ef");
    assert_eq!(trim_bounds(&cs, 2, 8), (4, 6));
    assert_eq!(trim_bounds(&cs, 2, 4), (4, 4));
    assert_eq!(trim_bounds(&cs, 0, 10), (0, 10));
    assert_eq!(trim_bounds(&cs, 5, 5), (5, 5));
}

#[test]
fn chars_are_scalar_values_not_bytes() {
    assert_eq!(chars_of("aé日"), vec!['a', 'é', '日']);
    assert_eq!(byte_len("aé日"), 6);
    assert_eq!(byte_len(""), 0);
}

#[test]
fn compare_orders_as_strings_do() {
    assert_eq!(compare("a", "b"), Placement::Before);
    assert_eq!(compare("b", "a"), Placement::After);
    assert_eq!(compare("a", "a"), Placement::Same);
    assert_eq!(compare("", ""), Placement::Same);
    assert_eq!(compare("", "a"), Placement::Before);
    assert_eq!(compare("ab", "a"), Placement::After);
    assert_eq!(compare("Z", "a"), Placement::Before);
    let samples = ["", "a", "ab", "b", "B", "é", "e", "日本", "z", "~", "\u{10ffff}", "\u{ff5e}"];
    for x in samples {
        for y in samples {
            let expected = if x < y {
                Placement::Before
            } else if x == y {
                Placement::Same
            } else {
                Placement::After
            };
            assert_eq!(compare(x, y), expected);
        }
    }
}

#[test]
fn find_gives_the_first_index_or_the_end() {
    let cs = chars_of("a,b,c");
    assert_eq!(find(&cs, 0, 5, ','), 1);
    assert_eq!(find(&cs, 2, 5, ','), 3);
    assert_eq!(find(&cs, 4, 5, ','), 5);
    assert_eq!(find(&cs, 0, 1, ','), 1);
    assert_eq!(find(&cs, 3, 3, ','), 3);
}

fn pieces(s: &str, sep: char) -> Vec<String> {
    let cs = chars_of(s);
    split_bounds(&cs, 0, cs.len(), sep)
        .into_iter()
        .map(|(a, b)| cs[a..b].iter().collect())
        .collect()
}

#[test]
fn split_keeps_empty_pieces() {
    assert_eq!(pieces("a,b,,c", ','), vec!["a", "b", "", "c"]);
    assert_eq!(pieces("", ','), vec![""]);
    assert_eq!(pieces(",", ','), vec!["", ""]);
    assert_eq!(pieces("abc", ','), vec!["abc"]);
    for s in ["", ";", "a;b", ";a;;b;", "é;日;"] {
        let expected: Vec<String> = s.split(';').map(|p| p.to_string()).collect();
        assert_eq!(pieces(s, ';'), expected);
    }
}

#[test]
fn strip_removes_one_character_at_both_ends() {
    let cs = chars_of("[[a[b]]]");
    assert_eq!(strip_bounds(&cs, 0, 8, '['), (2, 8));
    assert_eq!(strip_bounds(&cs, 0, 8, ']'), (0, 5));
    assert_eq!(strip_bounds(&cs, 2, 8, ']'), (2, 5));
    let all = chars_of("\"\"\"");
    let (a, b) = strip_bounds(&all, 0, 3, '"');
    assert_eq!(a, b);
}

#[test]
fn decimal_writes_base_ten() {
    assert_eq!(decimal_string(0), "0");
    assert_eq!(decimal_string(7), "7");
    assert_eq!(decimal_string(10), "10");
    assert_eq!(decimal_string(1234567890), "1234567890");
    assert_eq!(decimal_string(usize::MAX), usize::MAX.to_string());
}

#[test]
fn ascii_case_is_folded_and_nothing_else() {
    assert_eq!(to_ascii_lower('A'), 'a');
    assert_eq!(to_ascii_lower('Z'), 'z');
    assert_eq!(to_ascii_lower('a'), 'a');
    assert_eq!(to_ascii_lower('@'), '@');
    assert_eq!(to_ascii_lower('['), '[');
    assert_eq!(to_ascii_lower('É'), 'É');
    for c in ['\0', '@', 'A', 'M', 'Z', '[', '`', 'a', 'z', '{', 'À', 'Σ', '\u{10ffff}'] {
        assert_eq!(to_ascii_lower(c), c.to_ascii_lowercase());
    }
    assert!(eq_ignoring_ascii_case("DeBuG", "debug"));
    assert!(eq_ignoring_ascii_case("", ""));
    assert!(!eq_ignoring_ascii_case("debug", "debu"));
    assert!(!eq_ignoring_ascii_case("É", "é"));
}

#[test]
fn stars_are_appended() {
    let mut s = String::from("ab");
    push_stars(&mut s, 3);
    assert_eq!(s, "ab***");
    push_stars(&mut s, 0);
    assert_eq!(s, "ab***");
}

#[test]
fn list_is_copied() {
    let list = vec!["a".to_string(), "".to_string(), "日本".to_string()];
    assert_eq!(clone_list(&list), list);
    assert_eq!(clone_list(&Vec::new()), Vec::<String>::new());
}
