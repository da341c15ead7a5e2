use pdfrip::cracker::PDFCracker;
use pdfrip::cracker::SimpleCache;
use std::cell::Cell;

#[test]
fn cracker_keeps_the_bytes() {
    let cracker = PDFCracker::from_bytes(b"%PDF-1.7".to_vec());
    assert_eq!(cracker.bytes(), &b"%PDF-1.7".to_vec());
    let copy = cracker.clone();
    assert_eq!(copy.bytes(), cracker.bytes());
}

#[test]
fn cache_computes_once_for_each_object() {
    let calls = Cell::new(0);
    let mut cache: SimpleCache<String> = SimpleCache::new();
    let first = cache.get_or_compute(3, 0, || {
        calls.set(calls.get() + 1);
        "three".to_string()
    });
    assert_eq!(first, "three");
    assert_eq!(calls.get(), 1);
    let again = cache.get_or_compute(3, 0, || {
        calls.set(calls.get() + 1);
        "other".to_string()
    });
    assert_eq!(again, "three");
    assert_eq!(calls.get(), 1);
}

#[test]
fn cache_tells_objects_apart_by_number_and_generation() {
    let mut cache: SimpleCache<u32> = SimpleCache::new();
    assert_eq!(cache.get_or_compute(1, 0, || 10), 10);
    assert_eq!(cache.get_or_compute(0, 1, || 20), 20);
    assert_eq!(cache.get_or_compute(1, 1, || 30), 30);
    assert_eq!(cache.get_or_compute(u64::MAX, u64::MAX, || 40), 40);
    assert_eq!(cache.get_or_compute(u64::MAX, 0, || 50), 50);
    assert_eq!(cache.get_or_compute(1, 0, || 0), 10);
    assert_eq!(cache.get_or_compute(0, 1, || 0), 20);
    assert_eq!(cache.get_or_compute(1, 1, || 0), 30);
    assert_eq!(cache.get_or_compute(u64::MAX, u64::MAX, || 0), 40);
    assert_eq!(cache.get_or_compute(u64::MAX, 0, || 0), 50);
}

#[test]
fn cache_keeps_failures_too() {
    let mut cache: SimpleCache<Result<u8, String>> = SimpleCache::new();
    let first = cache.get_or_compute(9, 2, || Err("broken".to_string()));
    assert_eq!(first, Err("broken".to_string()));
    let again = cache.get_or_compute(9, 2, || Ok(1));
    assert_eq!(again, Err("broken".to_string()));
}
