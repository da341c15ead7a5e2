use pdfrip::arguments::CustomQueryArgs;
use pdfrip::arguments::DateArgs;
use pdfrip::arguments::DefaultQueryArgs;
use pdfrip::arguments::DictionaryArgs;
use pdfrip::arguments::Method;
use pdfrip::arguments::RangeArgs;
use pdfrip::producer::any::select;
use pdfrip::producer::any::AnyProducer;
use pdfrip::producer::custom_query::TemplateError;
use pdfrip::producer::Producer;

#[test]
fn word_list_strategy_hands_out_the_lines() {
    let method = Method::Wordlist(DictionaryArgs { wordlist: "words.txt".to_string() });
    let mut producer = select(&method, vec![b"one".to_vec(), b"two".to_vec()]).ok().unwrap();
    assert!(matches!(producer, AnyProducer::Wordlist(_)));
    assert_eq!(producer.size(), 2);
    assert_eq!(producer.next(), Ok(Some(b"one".to_vec())));
    assert_eq!(producer.next(), Ok(Some(b"two".to_vec())));
    assert_eq!(producer.next(), Ok(None));
}

#[test]
fn range_strategy_hands_out_the_numbers() {
    let method = Method::Range(RangeArgs {
        add_preceding_zeros: true,
        lower_bound: 98,
        upper_bound: 100,
    });
    let mut producer = select(&method, Vec::new()).ok().unwrap();
    assert!(matches!(producer, AnyProducer::Range(_)));
    assert_eq!(producer.next(), Ok(Some(b"098".to_vec())));
    assert_eq!(producer.next(), Ok(Some(b"099".to_vec())));
    assert_eq!(producer.next(), Ok(Some(b"100".to_vec())));
    assert_eq!(producer.next(), Ok(None));
}

#[test]
fn template_strategy_hands_out_the_expansion() {
    let method = Method::CustomQuery(CustomQueryArgs {
        custom_query: "x{1-2}".to_string(),
        add_preceding_zeros: false,
    });
    let mut producer = select(&method, Vec::new()).ok().unwrap();
    assert!(matches!(producer, AnyProducer::CustomQuery(_)));
    assert_eq!(producer.size(), 2);
    assert_eq!(producer.next(), Ok(Some(b"x1".to_vec())));
    assert_eq!(producer.next(), Ok(Some(b"x2".to_vec())));
    assert_eq!(producer.next(), Ok(None));
}

#[test]
fn template_strategy_refuses_a_bad_template() {
    let method = Method::CustomQuery(CustomQueryArgs {
        custom_query: "x{2-1}".to_string(),
        add_preceding_zeros: false,
    });
    assert_eq!(select(&method, Vec::new()).err(), Some(TemplateError::InvertedBounds));
}

#[test]
fn date_strategy_hands_out_the_dates() {
    let method = Method::Date(DateArgs { start: 1987, end: 1987 });
    let mut producer = select(&method, Vec::new()).ok().unwrap();
    assert!(matches!(producer, AnyProducer::Date(_)));
    assert_eq!(producer.size(), 372);
    assert_eq!(producer.next(), Ok(Some(b"01011987".to_vec())));
}

#[test]
fn brute_force_strategy_hands_out_the_words() {
    let method = Method::DefaultQuery(DefaultQueryArgs { min_length: 1, max_length: 1 });
    let mut producer = select(&method, Vec::new()).ok().unwrap();
    assert!(matches!(producer, AnyProducer::DefaultQuery(_)));
    assert_eq!(producer.size(), 94);
    let mut count = 0;
    while let Some(_) = producer.next().unwrap() {
        count += 1;
    }
    assert_eq!(count, 94);
}
