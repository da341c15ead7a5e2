use pdfrip::producer::custom_query::read_bounds;
use pdfrip::producer::custom_query::read_template;
use pdfrip::producer::custom_query::CustomQuery;
use pdfrip::producer::custom_query::Segment;
use pdfrip::producer::custom_query::TemplateError;
use pdfrip::producer::Producer;

fn expand(template: &str, pad: bool) -> Vec<Vec<u8>> {
    let mut query = CustomQuery::new(template, pad).unwrap();
    let mut out = Vec::new();
    while let Some(candidate) = query.next().unwrap() {
        out.push(candidate);
    }
    out
}

fn strings(items: &[&str]) -> Vec<Vec<u8>> {
    items.iter().map(|s| s.as_bytes().to_vec()).collect()
}

#[test]
fn one_range_after_text() {
    assert_eq!(expand("ab{0-2}", false), strings(&["ab0", "ab1", "ab2"]));
}

#[test]
fn the_last_range_turns_fastest() {
    assert_eq!(expand("{0-1}{0-1}", false), strings(&["00", "01", "10", "11"]));
}

#[test]
fn ranges_of_different_lengths() {
    assert_eq!(
        expand("{1-2}-{7-9}!", false),
        strings(&["1-7!", "1-8!", "1-9!", "2-7!", "2-8!", "2-9!"])
    );
}

#[test]
fn padding_goes_by_the_upper_bound_of_each_range() {
    assert_eq!(expand("{8-12}", true), strings(&["08", "09", "10", "11", "12"]));
    assert_eq!(expand("{9-10}x{0-1}", true), strings(&["09x0", "09x1", "10x0", "10x1"]));
    assert_eq!(expand("{8-12}", false), strings(&["8", "9", "10", "11", "12"]));
}

#[test]
fn text_alone_is_one_candidate() {
    assert_eq!(expand("secret", false), strings(&["secret"]));
    assert_eq!(expand("", false), strings(&[""]));
    let query = CustomQuery::new("secret", true).unwrap();
    assert_eq!(query.size(), 1);
}

#[test]
fn template_size_is_the_product_of_the_ranges() {
    assert_eq!(CustomQuery::new("ab{0-2}", false).unwrap().size(), 3);
    assert_eq!(CustomQuery::new("{0-9999}", false).unwrap().size(), 10000);
    assert_eq!(CustomQuery::new("{0-9}x{0-9}y{5-5}", false).unwrap().size(), 100);
    let huge = format!("{{0-{}}}", usize::MAX);
    assert_eq!(CustomQuery::new(&huge, false).unwrap().size(), usize::MAX);
    assert_eq!(CustomQuery::new("{0-4294967295}{0-4294967295}{0-9}", false).unwrap().size(), usize::MAX);
}

#[test]
fn template_run_ends_and_stays_ended() {
    let mut query = CustomQuery::new("{3-4}", false).unwrap();
    assert_eq!(query.next(), Ok(Some(b"3".to_vec())));
    assert_eq!(query.next(), Ok(Some(b"4".to_vec())));
    assert_eq!(query.next(), Ok(None));
    assert_eq!(query.next(), Ok(None));
}

#[test]
fn unbalanced_braces_are_refused() {
    assert_eq!(CustomQuery::new("ab{0-2", false).err(), Some(TemplateError::UnbalancedBraces));
    assert_eq!(CustomQuery::new("ab0-2}", false).err(), Some(TemplateError::UnbalancedBraces));
    assert_eq!(CustomQuery::new("}{0-2}", false).err(), Some(TemplateError::UnbalancedBraces));
    assert_eq!(CustomQuery::new("{1{2-3}", false).err(), Some(TemplateError::UnbalancedBraces));
    assert_eq!(CustomQuery::new("{", false).err(), Some(TemplateError::UnbalancedBraces));
}

#[test]
fn bounds_that_are_no_numbers_are_refused() {
    assert_eq!(CustomQuery::new("{a-3}", false).err(), Some(TemplateError::NonNumericBound));
    assert_eq!(CustomQuery::new("{1-b}", false).err(), Some(TemplateError::NonNumericBound));
    assert_eq!(CustomQuery::new("{}", false).err(), Some(TemplateError::NonNumericBound));
    assert_eq!(CustomQuery::new("{12}", false).err(), Some(TemplateError::NonNumericBound));
    assert_eq!(CustomQuery::new("{-5}", false).err(), Some(TemplateError::NonNumericBound));
    assert_eq!(CustomQuery::new("{5-}", false).err(), Some(TemplateError::NonNumericBound));
    assert_eq!(CustomQuery::new("{1-2-3}", false).err(), Some(TemplateError::NonNumericBound));
    assert_eq!(CustomQuery::new("{1 - 3}", false).err(), Some(TemplateError::NonNumericBound));
    assert_eq!(
        CustomQuery::new("{0-99999999999999999999999}", false).err(),
        Some(TemplateError::NonNumericBound)
    );
}

#[test]
fn inverted_bounds_are_refused() {
    assert_eq!(CustomQuery::new("{5-1}", false).err(), Some(TemplateError::InvertedBounds));
    assert_eq!(CustomQuery::new("x{10-9}y", true).err(), Some(TemplateError::InvertedBounds));
}

#[test]
fn the_first_fault_from_the_left_is_reported() {
    assert_eq!(CustomQuery::new("{5-1}{a-b}", false).err(), Some(TemplateError::InvertedBounds));
    assert_eq!(CustomQuery::new("{a-b}{5-1}", false).err(), Some(TemplateError::NonNumericBound));
    assert_eq!(CustomQuery::new("{1-2}}", false).err(), Some(TemplateError::UnbalancedBraces));
}

#[test]
fn template_is_split_into_text_and_ranges() {
    let segments = read_template(b"id{007-10}!").unwrap();
    assert_eq!(
        segments,
        vec![Segment::Literal(b"id".to_vec()), Segment::Range(7, 10), Segment::Literal(b"!".to_vec())]
    );
    assert_eq!(read_template(b"").unwrap(), Vec::<Segment>::new());
}

#[test]
fn bounds_are_read_between_two_places() {
    assert_eq!(read_bounds(b"{10-250}", 1, 7), Ok((10, 250)));
    assert_eq!(read_bounds(b"{10-250}", 1, 6), Ok((10, 25)));
    assert_eq!(read_bounds(b"{10-250}", 1, 4), Err(TemplateError::NonNumericBound));
    assert_eq!(read_bounds(b"{10-250}", 0, 7), Err(TemplateError::NonNumericBound));
    assert_eq!(read_bounds(b"3-2", 0, 3), Err(TemplateError::InvertedBounds));
    assert_eq!(read_bounds(b"", 0, 0), Err(TemplateError::NonNumericBound));
}

#[test]
fn text_that_is_not_ascii_is_kept_byte_by_byte() {
    assert_eq!(expand("é{1-2}", false), vec!["é1".as_bytes().to_vec(), "é2".as_bytes().to_vec()]);
}
