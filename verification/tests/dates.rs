use pdfrip::producer::dates::pregenerate_dates;
use pdfrip::producer::dates::DateProducer;
use pdfrip::producer::Producer;

#[test]
fn table_has_every_day_of_every_month() {
    let table = pregenerate_dates();
    assert_eq!(table.len(), 372);
    assert_eq!(table[0], b"0101".to_vec());
    assert_eq!(table[1], b"0201".to_vec());
    assert_eq!(table[30], b"3101".to_vec());
    assert_eq!(table[31], b"0102".to_vec());
    assert_eq!(table[371], b"3112".to_vec());
}

#[test]
fn one_year_gives_372_dates_of_that_year() {
    let mut producer = DateProducer::new(2020, 2020);
    let mut got: Vec<Vec<u8>> = Vec::new();
    while let Some(candidate) = producer.next().unwrap() {
        got.push(candidate);
    }
    assert_eq!(got.len(), 372);
    for candidate in &got {
        assert_eq!(candidate.len(), 8);
        assert_eq!(&candidate[4..], b"2020");
    }
    assert_eq!(got[0], b"01012020".to_vec());
    assert_eq!(got[58], b"28022020".to_vec());
    assert_eq!(got[371], b"31122020".to_vec());
    assert_eq!(producer.next(), Ok(None));
}

#[test]
fn the_year_turns_after_372_dates() {
    let mut producer = DateProducer::new(1999, 2000);
    let mut got: Vec<Vec<u8>> = Vec::new();
    while let Some(candidate) = producer.next().unwrap() {
        got.push(candidate);
    }
    assert_eq!(got.len(), 744);
    assert_eq!(got[371], b"31121999".to_vec());
    assert_eq!(got[372], b"01012000".to_vec());
    assert_eq!(got[743], b"31122000".to_vec());
}

#[test]
fn date_estimate_is_372_at_least() {
    assert_eq!(DateProducer::new(2020, 2020).size(), 12 * 31);
    assert_eq!(DateProducer::new(2021, 2020).size(), 12 * 31);
    assert_eq!(DateProducer::new(2020, 2021).size(), 372);
    assert_eq!(DateProducer::new(2000, 2010).size(), 3720);
    assert_eq!(DateProducer::new(0, usize::MAX).size(), usize::MAX);
}

#[test]
fn end_before_start_gives_nothing() {
    let mut producer = DateProducer::new(2021, 2020);
    assert_eq!(producer.next(), Ok(None));
    assert_eq!(producer.next(), Ok(None));
}

#[test]
fn short_years_get_leading_zeros_and_long_years_none() {
    let mut early = DateProducer::new(7, 7);
    assert_eq!(early.next(), Ok(Some(b"01010007".to_vec())));
    let mut late = DateProducer::new(12345, 12345);
    assert_eq!(late.next(), Ok(Some(b"010112345".to_vec())));
}

#[test]
fn the_last_year_of_all_ends_the_run() {
    let mut producer = DateProducer::new(usize::MAX, usize::MAX);
    let mut count = 0;
    while let Some(_) = producer.next().unwrap() {
        count += 1;
    }
    assert_eq!(count, 372);
    assert_eq!(producer.next(), Ok(None));
}
