use pdfrip::patterns::build_patterns;
use pdfrip::patterns::last_four_digits;
use pdfrip::patterns::numeric_places;
use pdfrip::patterns::pick_last;
use pdfrip::patterns::templates_for;
use pdfrip::producer::custom_query::CustomQuery;
use pdfrip::producer::Producer;

#[test]
fn patterns_for_two_initials_and_four_digits() {
    let got = build_patterns("t", "C", "1234");
    let want: Vec<String> = [
        "{1234-1234}",
        "{0-9999}",
        "{0-99999}",
        "{0-999999}",
        "tc{0-9999}",
        "tc{0-99999}",
        "tc{0-999999}",
        "TC{0-9999}",
        "TC{0-99999}",
        "TC{0-999999}",
        "Tc{0-9999}",
        "Tc{0-99999}",
        "Tc{0-999999}",
        "tC{0-9999}",
        "tC{0-99999}",
        "tC{0-999999}",
        "tc{1234-1234}",
        "TC{1234-1234}",
        "Tc{1234-1234}",
        "tC{1234-1234}",
    ]
    .iter()
    .map(|s| s.to_string())
    .collect();
    assert_eq!(got, want);
}

#[test]
fn case_goes_by_unicode() {
    let got = build_patterns("é", "ß", "7");
    assert_eq!(got[4], "éß{0-9999}");
    assert_eq!(got[7], "ÉSS{0-9999}");
    assert_eq!(got[19], "éSS{7-7}");
}

#[test]
fn templates_without_initials() {
    let got = templates_for(&Vec::new(), "42");
    let want: Vec<String> =
        ["{42-42}", "{0-9999}", "{0-99999}", "{0-999999}"].iter().map(|s| s.to_string()).collect();
    assert_eq!(got, want);
}

#[test]
fn templates_for_one_name() {
    let got = templates_for(&vec!["ab".to_string()], "9");
    let want: Vec<String> =
        ["{9-9}", "{0-9999}", "{0-99999}", "{0-999999}", "ab{0-9999}", "ab{0-99999}", "ab{0-999999}", "ab{9-9}"]
            .iter()
            .map(|s| s.to_string())
            .collect();
    assert_eq!(got, want);
}

#[test]
fn the_last_four_digits_are_kept() {
    assert_eq!(last_four_digits("123-45-6789"), "6789");
    assert_eq!(last_four_digits("12"), "12");
    assert_eq!(last_four_digits("ab1c2"), "12");
    assert_eq!(last_four_digits(""), "");
    assert_eq!(last_four_digits("none"), "");
    assert_eq!(last_four_digits("98765"), "8765");
    assert_eq!(last_four_digits("1234"), "1234");
}

#[test]
fn numeric_goes_by_unicode() {
    assert_eq!(last_four_digits("é1٣½x"), "1٣½");
    assert_eq!(numeric_places("é1٣½x"), vec![1, 2, 3]);
    assert_eq!(numeric_places("a1b22"), vec![1, 3, 4]);
}

#[test]
fn the_fixed_template_expands_to_the_number_alone() {
    let patterns = build_patterns("a", "b", "1942");
    let mut query = CustomQuery::new(&patterns[16], true).unwrap();
    assert_eq!(query.next(), Ok(Some(b"ab1942".to_vec())));
    assert_eq!(query.next(), Ok(None));
    let mut plain = CustomQuery::new(&patterns[0], false).unwrap();
    assert_eq!(plain.next(), Ok(Some(b"1942".to_vec())));
    assert_eq!(plain.next(), Ok(None));
}

#[test]
fn the_last_places_are_picked() {
    assert_eq!(pick_last("abcdef", &vec![0, 2, 4, 5], 2), "ef");
    assert_eq!(pick_last("abcdef", &vec![0, 2, 4, 5], 4), "acef");
    assert_eq!(pick_last("abcdef", &vec![0, 2, 4, 5], 9), "acef");
    assert_eq!(pick_last("abcdef", &vec![1], 0), "");
    assert_eq!(pick_last("é1٣½x", &vec![0, 3], 4), "é½");
    assert_eq!(pick_last("", &Vec::new(), 4), "");
}
