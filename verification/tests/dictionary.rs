use pdfrip::producer::dictionary::LineProducer;
use pdfrip::producer::Producer;

#[test]
fn lines_come_in_the_order_of_the_list() {
    let lines: Vec<Vec<u8>> = vec![b"hunter2".to_vec(), b"".to_vec(), b"pass word".to_vec()];
    let mut producer = LineProducer::new(lines);
    assert_eq!(producer.size(), 3);
    assert_eq!(producer.next(), Ok(Some(b"hunter2".to_vec())));
    assert_eq!(producer.size(), 2);
    assert_eq!(producer.next(), Ok(Some(b"".to_vec())));
    assert_eq!(producer.next(), Ok(Some(b"pass word".to_vec())));
    assert_eq!(producer.size(), 0);
    assert_eq!(producer.next(), Ok(None));
    assert_eq!(producer.next(), Ok(None));
}

#[test]
fn empty_list_is_exhausted_at_once() {
    let mut producer = LineProducer::new(Vec::new());
    assert_eq!(producer.size(), 0);
    assert_eq!(producer.next(), Ok(None));
}
