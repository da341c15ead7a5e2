use pdfrip::producer::Producer;
use pdfrip::producer::alphabet::rank_in;
use pdfrip::producer::alphabet::sorted_set;
use pdfrip::producer::default_query::DefaultQuery;
use pdfrip::producer::odometer::power_capped;
use std::collections::HashSet;

fn drain(query: &mut DefaultQuery) -> Vec<Vec<u8>> {
    let mut out = Vec::new();
    while let Some(candidate) = query.next().unwrap() {
        out.push(candidate);
    }
    out
}

#[test]
fn toy_alphabet_turns_the_first_byte_fastest() {
    let mut query = DefaultQuery::with_alphabet(&b"01".to_vec(), 2, 1).unwrap();
    assert_eq!(query.size(), 6);
    let got = drain(&mut query);
    let want: Vec<Vec<u8>> = vec![
        b"1".to_vec(),
        b"00".to_vec(),
        b"10".to_vec(),
        b"01".to_vec(),
        b"11".to_vec(),
        b"000".to_vec(),
    ];
    assert_eq!(got, want);
}

#[test]
fn exhaustion_is_reported_again_and_again() {
    let mut query = DefaultQuery::with_alphabet(&b"ab".to_vec(), 1, 1).unwrap();
    assert_eq!(query.next(), Ok(Some(b"b".to_vec())));
    assert_eq!(query.next(), Ok(Some(b"aa".to_vec())));
    assert_eq!(query.next(), Ok(None));
    assert_eq!(query.next(), Ok(None));
    assert_eq!(query.next(), Ok(None));
}

#[test]
fn alphabet_is_sorted_and_has_no_byte_twice() {
    let mut shuffled = DefaultQuery::with_alphabet(&b"1001".to_vec(), 2, 1).unwrap();
    let mut plain = DefaultQuery::with_alphabet(&b"01".to_vec(), 2, 1).unwrap();
    assert_eq!(drain(&mut shuffled), drain(&mut plain));
}

#[test]
fn empty_alphabet_is_refused() {
    assert!(DefaultQuery::with_alphabet(&Vec::new(), 3, 1).is_none());
}

#[test]
fn printable_run_starts_after_the_first_word() {
    let mut query = DefaultQuery::new(2, 1);
    assert_eq!(query.next(), Ok(Some(b"\"".to_vec())));
    assert_eq!(query.next(), Ok(Some(b"#".to_vec())));
}

#[test]
fn printable_run_has_as_many_candidates_as_estimated() {
    let mut query = DefaultQuery::new(2, 1);
    let size = query.size();
    assert_eq!(size, 94 + 94 * 94);
    let got = drain(&mut query);
    assert_eq!(got.len(), size);
    assert_eq!(got[92], b"~".to_vec());
    assert_eq!(got[93], b"!!".to_vec());
    assert_eq!(got[94], b"\"!".to_vec());
    assert_eq!(got[size - 2], b"~~".to_vec());
    assert_eq!(got[size - 1], b"!!!".to_vec());
}

#[test]
fn no_candidate_comes_twice() {
    let mut query = DefaultQuery::new(2, 1);
    let got = drain(&mut query);
    let distinct: HashSet<Vec<u8>> = got.iter().cloned().collect();
    assert_eq!(distinct.len(), got.len());
}

#[test]
fn shorter_candidates_come_first() {
    let mut query = DefaultQuery::with_alphabet(&b"xyz".to_vec(), 4, 2).unwrap();
    let got = drain(&mut query);
    assert_eq!(got.len(), 9 + 27 + 81);
    for pair in got.windows(2) {
        assert!(pair[0].len() <= pair[1].len());
    }
    assert_eq!(got[0].len(), 2);
    assert_eq!(got[got.len() - 1].len(), 5);
}

#[test]
fn every_candidate_is_over_the_alphabet() {
    let mut query = DefaultQuery::new(2, 2);
    let got = drain(&mut query);
    for candidate in &got {
        for byte in candidate {
            assert!((33..=126).contains(byte));
        }
    }
}

#[test]
fn min_above_max_runs_over_the_min_length_alone() {
    let mut query = DefaultQuery::with_alphabet(&b"01".to_vec(), 1, 2).unwrap();
    assert_eq!(query.size(), 0);
    let got = drain(&mut query);
    let want: Vec<Vec<u8>> =
        vec![b"10".to_vec(), b"01".to_vec(), b"11".to_vec(), b"000".to_vec()];
    assert_eq!(got, want);
}

#[test]
fn size_stops_at_the_largest_word() {
    assert_eq!(DefaultQuery::new(40, 1).size(), usize::MAX);
    assert_eq!(DefaultQuery::new(4, 4).size(), 94 * 94 * 94 * 94);
    assert_eq!(DefaultQuery::new(3, 2).size(), 94 * 94 + 94 * 94 * 94);
}

#[test]
fn size_of_a_one_byte_alphabet_counts_the_lengths() {
    let query = DefaultQuery::with_alphabet(&b"a".to_vec(), 7, 3).unwrap();
    assert_eq!(query.size(), 5);
}

#[test]
fn rank_in_finds_what_is_there() {
    let alphabet = b"acegi".to_vec();
    assert_eq!(rank_in(&alphabet, b'a'), Some(0));
    assert_eq!(rank_in(&alphabet, b'e'), Some(2));
    assert_eq!(rank_in(&alphabet, b'i'), Some(4));
    assert_eq!(rank_in(&alphabet, b'b'), None);
    assert_eq!(rank_in(&alphabet, b'z'), None);
    assert_eq!(rank_in(&Vec::new(), b'a'), None);
}

#[test]
fn sorted_set_orders_and_drops_repeats() {
    assert_eq!(sorted_set(&b"banana".to_vec()), b"abn".to_vec());
    assert_eq!(sorted_set(&Vec::new()), Vec::<u8>::new());
    assert_eq!(sorted_set(&vec![255, 0, 255]), vec![0, 255]);
}

#[test]
fn power_capped_gives_up_on_overflow() {
    assert_eq!(power_capped(94, 0), Some(1));
    assert_eq!(power_capped(94, 2), Some(8836));
    assert_eq!(power_capped(2, 63), Some(1usize << 63));
    assert_eq!(power_capped(2, 64), None);
    assert_eq!(power_capped(1, 4_000_000_000), Some(1));
    assert_eq!(power_capped(0, 0), Some(1));
    assert_eq!(power_capped(0, 5), Some(0));
}

#[test]
fn every_word_but_the_first_is_tried() {
    let mut query = DefaultQuery::with_alphabet(&b"abc".to_vec(), 3, 2).unwrap();
    let got: HashSet<Vec<u8>> = drain(&mut query).into_iter().collect();
    let letters = b"abc";
    for x in letters {
        for y in letters {
            let two = vec![*x, *y];
            assert_eq!(got.contains(&two), two != b"aa".to_vec());
            for z in letters {
                assert!(got.contains(&vec![*x, *y, *z]));
            }
        }
    }
    assert!(got.contains(&b"aaaa".to_vec()));
    assert_eq!(got.len(), 9 + 27);
}
