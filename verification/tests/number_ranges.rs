use pdfrip::producer::number_ranges::RangeProducer;
use pdfrip::producer::Producer;

fn drain(producer: &mut RangeProducer) -> Vec<Vec<u8>> {
    let mut out = Vec::new();
    while let Some(candidate) = producer.next().unwrap() {
        out.push(candidate);
    }
    out
}

#[test]
fn padded_range_is_as_wide_as_its_upper_bound() {
    let mut producer = RangeProducer::new(true, 8, 12);
    let want: Vec<Vec<u8>> = vec![
        b"08".to_vec(),
        b"09".to_vec(),
        b"10".to_vec(),
        b"11".to_vec(),
        b"12".to_vec(),
    ];
    assert_eq!(drain(&mut producer), want);
}

#[test]
fn plain_range_has_no_leading_zeros() {
    let mut producer = RangeProducer::new(false, 8, 12);
    let want: Vec<Vec<u8>> =
        vec![b"8".to_vec(), b"9".to_vec(), b"10".to_vec(), b"11".to_vec(), b"12".to_vec()];
    assert_eq!(drain(&mut producer), want);
}

#[test]
fn range_of_one_number() {
    let mut producer = RangeProducer::new(true, 0, 0);
    assert_eq!(producer.size(), 1);
    assert_eq!(producer.next(), Ok(Some(b"0".to_vec())));
    assert_eq!(producer.next(), Ok(None));
    assert_eq!(producer.size(), 0);
}

#[test]
fn inverted_range_is_empty() {
    let mut producer = RangeProducer::new(false, 5, 4);
    assert_eq!(producer.size(), 0);
    assert_eq!(producer.next(), Ok(None));
}

#[test]
fn range_size_counts_what_is_left() {
    let mut producer = RangeProducer::new(false, 0, 9999);
    assert_eq!(producer.size(), 10000);
    producer.next().unwrap();
    producer.next().unwrap();
    assert_eq!(producer.size(), 9998);
    assert_eq!(RangeProducer::new(false, 0, usize::MAX).size(), usize::MAX);
}

#[test]
fn range_ends_at_the_largest_word() {
    let mut producer = RangeProducer::new(false, usize::MAX - 1, usize::MAX);
    let got = drain(&mut producer);
    assert_eq!(got.len(), 2);
    assert_eq!(got[1], usize::MAX.to_string().into_bytes());
    assert_eq!(producer.next(), Ok(None));
}

#[test]
fn padded_range_to_999() {
    let mut producer = RangeProducer::new(true, 0, 999);
    let got = drain(&mut producer);
    assert_eq!(got.len(), 1000);
    assert_eq!(got[0], b"000".to_vec());
    assert_eq!(got[42], b"042".to_vec());
    assert_eq!(got[999], b"999".to_vec());
}
