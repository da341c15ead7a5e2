use pdfrip::engine::after_next;
use pdfrip::engine::after_poll;
use pdfrip::engine::conclude;
use pdfrip::engine::feed;
use pdfrip::engine::open_channels;
use pdfrip::engine::Decision;
use pdfrip::engine::Polled;
use pdfrip::engine::Pulled;
use pdfrip::engine::Stop;
use pdfrip::engine::BUFFER_SIZE;
use pdfrip::producer::dictionary::LineProducer;
use pdfrip::producer::number_ranges::RangeProducer;
use pdfrip::producer::Producer;
use std::cell::Cell;

#[test]
fn candidate_channel_is_bounded_and_success_channel_is_not() {
    let channels = open_channels();
    assert_eq!(BUFFER_SIZE, 200);
    assert_eq!(channels.candidates.capacity(), Some(200));
    assert_eq!(channels.work.capacity(), Some(200));
    assert_eq!(channels.reports.capacity(), None);
    assert_eq!(channels.successes.capacity(), None);
    channels.candidates.send(b"abc".to_vec()).unwrap();
    assert_eq!(channels.work.recv(), Ok(b"abc".to_vec()));
    channels.reports.send(b"xyz".to_vec()).unwrap();
    assert_eq!(channels.successes.recv(), Ok(b"xyz".to_vec()));
}

#[test]
fn a_reported_password_ends_the_run_at_once() {
    let channels = open_channels();
    channels.reports.send(b"opensesame".to_vec()).unwrap();
    let mut producer = RangeProducer::new(false, 0, 1000);
    let calls = Cell::new(0);
    let callback = || calls.set(calls.get() + 1);
    let outcome = feed(&mut producer, channels.candidates, &channels.successes, &callback);
    assert_eq!(outcome.stop, Stop::Found);
    assert_eq!(outcome.found, Some(b"opensesame".to_vec()));
    assert_eq!(outcome.handed_out, 0);
    assert_eq!(calls.get(), 0);
    assert_eq!(producer.size(), 1001);
}

#[test]
fn with_no_worker_left_nothing_is_handed_out() {
    let channels = open_channels();
    drop(channels.reports);
    let mut producer = RangeProducer::new(false, 0, 9);
    let callback = || {};
    let outcome = feed(&mut producer, channels.candidates, &channels.successes, &callback);
    assert_eq!(outcome.stop, Stop::WorkersGone);
    assert_eq!(outcome.found, None);
    assert_eq!(producer.size(), 10);
}

#[test]
fn a_success_reported_before_the_workers_end_is_not_lost() {
    let channels = open_channels();
    channels.reports.send(b"late".to_vec()).unwrap();
    drop(channels.reports);
    let mut producer = LineProducer::new(Vec::new());
    let callback = || {};
    let outcome = feed(&mut producer, channels.candidates, &channels.successes, &callback);
    assert_eq!(outcome.found, Some(b"late".to_vec()));
}

#[test]
fn an_exhausted_producer_had_every_candidate_handed_out() {
    let channels = open_channels();
    let work = channels.work;
    let reports = channels.reports;
    let candidates = channels.candidates;
    let successes = channels.successes;
    let calls = Cell::new(0usize);
    let mut producer = RangeProducer::new(false, 0, 999);
    let seen = crossbeam::thread::scope(|scope| {
        let worker = scope.spawn(move |_| {
            let mut seen: Vec<Vec<u8>> = Vec::new();
            while let Ok(candidate) = work.recv() {
                seen.push(candidate);
            }
            drop(reports);
            seen
        });
        let callback = || calls.set(calls.get() + 1);
        let outcome = feed(&mut producer, candidates, &successes, &callback);
        assert_eq!(outcome.stop, Stop::Exhausted);
        assert_eq!(outcome.found, None);
        assert_eq!(outcome.handed_out, 1000);
        worker.join().unwrap()
    })
    .unwrap();
    assert_eq!(calls.get(), 1000);
    assert_eq!(producer.next(), Ok(None));
    assert_eq!(seen.len(), 1000);
    assert_eq!(seen[0], b"0".to_vec());
    assert_eq!(seen[999], b"999".to_vec());
}

#[test]
fn a_worker_that_finds_the_password_wins() {
    let channels = open_channels();
    let work = channels.work;
    let reports = channels.reports;
    let candidates = channels.candidates;
    let successes = channels.successes;
    let mut producer = RangeProducer::new(true, 0, 9999);
    let outcome = crossbeam::thread::scope(|scope| {
        for _ in 0..4 {
            let work = work.clone();
            let reports = reports.clone();
            scope.spawn(move |_| {
                while let Ok(candidate) = work.recv() {
                    if candidate == b"4711".to_vec() {
                        let _ = reports.send(candidate);
                        return;
                    }
                }
            });
        }
        drop(work);
        drop(reports);
        let callback = || {};
        feed(&mut producer, candidates, &successes, &callback)
    })
    .unwrap();
    assert_eq!(outcome.found, Some(b"4711".to_vec()));
    assert!(outcome.handed_out >= 4712 || outcome.stop != Stop::Found);
    assert_eq!(producer.size(), 10000 - outcome.handed_out);
}

#[test]
fn steps_after_a_look_into_the_successes() {
    assert!(matches!(after_poll(Polled::Empty), Decision::Continue));
    assert!(matches!(after_poll(Polled::Disconnected), Decision::Drain(Stop::WorkersGone)));
    match after_poll(Polled::Found(b"pw".to_vec())) {
        Decision::Finish(password) => assert_eq!(password, b"pw".to_vec()),
        _ => panic!("a reported password ends the run"),
    }
}

#[test]
fn steps_after_a_call_of_the_producer() {
    match after_next(Ok(Some(b"c".to_vec()))) {
        Pulled::Dispatch(candidate) => assert_eq!(candidate, b"c".to_vec()),
        _ => panic!("a candidate goes to the workers"),
    }
    assert!(matches!(after_next(Ok(None)), Pulled::Drain(Stop::Exhausted)));
    assert!(matches!(
        after_next(Err("Couldn't find character in character set".to_string())),
        Pulled::Drain(Stop::ProducerFailed)
    ));
}

#[test]
fn the_early_password_goes_before_the_late_one() {
    let both = conclude(Stop::Found, 7, Some(b"a".to_vec()), Some(b"b".to_vec()));
    assert_eq!(both.found, Some(b"a".to_vec()));
    assert_eq!(both.stop, Stop::Found);
    assert_eq!(both.handed_out, 7);
    let late = conclude(Stop::Exhausted, 3, None, Some(b"b".to_vec()));
    assert_eq!(late.found, Some(b"b".to_vec()));
    assert_eq!(late.stop, Stop::Exhausted);
    assert_eq!(late.handed_out, 3);
    let none = conclude(Stop::WorkersGone, 0, None, None);
    assert_eq!(none.found, None);
    assert_eq!(none.handed_out, 0);
}

struct Broken {
    left: usize,
}

impl Producer for Broken {
    fn next(&mut self) -> Result<Option<Vec<u8>>, String> {
        if self.left == 0 {
            Err("the source broke".to_string())
        } else {
            self.left -= 1;
            Ok(Some(b"x".to_vec()))
        }
    }

    fn size(&self) -> usize {
        self.left
    }
}

#[test]
fn a_failure_of_the_producer_is_told_apart_from_exhaustion() {
    let channels = open_channels();
    let work = channels.work;
    let reports = channels.reports;
    let candidates = channels.candidates;
    let successes = channels.successes;
    let mut producer = Broken { left: 5 };
    let outcome = crossbeam::thread::scope(|scope| {
        scope.spawn(move |_| {
            while let Ok(_) = work.recv() {}
            drop(reports);
        });
        let callback = || {};
        feed(&mut producer, candidates, &successes, &callback)
    })
    .unwrap();
    assert_eq!(outcome.stop, Stop::ProducerFailed);
    assert_eq!(outcome.found, None);
    assert_eq!(outcome.handed_out, 5);
}
