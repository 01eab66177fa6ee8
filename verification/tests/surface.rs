use changes_trie::surface::{lower_bound_max_digest, surface_iterator};
use changes_trie::types::Configuration;

fn config(digest_interval: u32, digest_levels: u32) -> Configuration {
    Configuration { digest_interval, digest_levels }
}

fn surface(config: &Configuration, max: u64, begin: u64, end: u64) -> Vec<(u64, u32)> {
    let mut iter = surface_iterator(config, max, begin, end).unwrap();
    let mut points: Vec<(u64, u32)> = Vec::new();
    loop {
        match iter.next() {
            Some(Ok(point)) => points.push(point),
            Some(Err(message)) => panic!("{}", message),
            None => return points,
        }
    }
}

#[test]
fn the_topmost_digest_is_found() {
    let config = config(4, 2);
    assert_eq!(lower_bound_max_digest(&config, 16, 0, 16), Ok((16, 0, 16, 2)));
    assert_eq!(lower_bound_max_digest(&config, 16, 13, 16), Ok((16, 12, 4, 1)));
    assert_eq!(lower_bound_max_digest(&config, 16, 7, 7), Ok((7, 7, 1, 0)));
    assert_eq!(lower_bound_max_digest(&config, 7, 1, 7), Ok((7, 4, 1, 0)));
    assert_eq!(lower_bound_max_digest(&config, 8, 1, 7), Ok((8, 4, 4, 1)));
    assert_eq!(lower_bound_max_digest(&config, 30, 2, 26), Ok((28, 16, 4, 1)));
    assert_eq!(lower_bound_max_digest(&config, 17, 0, 17), Ok((17, 16, 1, 0)));
}

#[test]
fn invalid_ranges_have_no_topmost_digest() {
    let message = Err("invalid changes range".to_string());
    assert_eq!(lower_bound_max_digest(&config(4, 2), 16, 0, 17), message);
    assert_eq!(lower_bound_max_digest(&config(4, 2), 16, 9, 8), message);
    assert!(surface_iterator(&config(4, 2), 16, 9, 8).is_err());
    assert!(surface_iterator(&config(4, 2), 16, 0, 17).is_err());
}

#[test]
fn the_surface_descends_to_the_beginning() {
    let config = config(4, 2);
    assert_eq!(surface(&config, 16, 0, 16), vec![(16, 2)]);
    assert_eq!(
        surface(&config, 23, 0, 23),
        vec![(23, 0), (22, 0), (21, 0), (20, 1), (16, 2)]
    );
    assert_eq!(
        surface(&config, 30, 10, 26),
        vec![(28, 1), (24, 1), (20, 1), (16, 2)]
    );
    assert_eq!(surface(&config, 16, 12, 16), vec![(16, 1), (12, 0)]);
    assert_eq!(surface(&config, 16, 5, 5), vec![(5, 0)]);
    assert_eq!(surface(&config, 16, 0, 0), vec![(0, 0)]);
    assert_eq!(surface(&config, 3, 0, 3), vec![(3, 0), (2, 0), (1, 0)]);
}

#[test]
fn the_surface_stays_at_its_end() {
    let config = config(4, 2);
    let mut iter = surface_iterator(&config, 17, 0, 17).unwrap();
    assert_eq!(iter.next(), Some(Ok((17, 0))));
    assert_eq!(iter.next(), Some(Ok((16, 2))));
    assert_eq!(iter.next(), None);
    assert_eq!(iter.next(), None);
}

#[test]
fn the_surface_spans_every_range_without_gap_or_overlap() {
    for (interval, levels) in [(0, 3), (1, 2), (2, 3), (3, 2), (4, 2), (5, 0)] {
        let config = config(interval, levels);
        for max in 1..40u64 {
            for end in 1..=max {
                for begin in 0..=end {
                    let points = surface(&config, max, begin, end);
                    let step = |level: u32| (interval as u64).pow(level);
                    assert!(points[0].0 >= end && points[0].0 <= max);
                    assert!(points[0].0 - step(points[0].1) < end);
                    for pair in points.windows(2) {
                        assert_eq!(pair[0].0 - step(pair[0].1), pair[1].0);
                    }
                    let (block, level) = points[points.len() - 1];
                    let below = block - step(level);
                    assert!(below == 0 || below < begin);
                }
            }
        }
    }
}

#[test]
fn levels_that_do_not_fit_are_not_used() {
    let config = config(u32::MAX, 3);
    let high = u64::MAX;
    assert_eq!(
        lower_bound_max_digest(&config, high, 0, 10),
        Ok((u32::MAX as u64, 0, u32::MAX, 1))
    );
    // digests of level one are built here, those of level two have no representable span
    assert_eq!(lower_bound_max_digest(&config, high, 0, high), Ok((high, high - u32::MAX as u64, u32::MAX, 1)));
    // the digest around the end would be beyond the last block number
    let config = Configuration { digest_interval: 10, digest_levels: 1 };
    assert_eq!(
        lower_bound_max_digest(&config, high, high - 2, high),
        Ok((high, high - 2, 1, 0))
    );
}

#[test]
fn without_an_interval_there_are_no_digests() {
    assert_eq!(lower_bound_max_digest(&config(0, 5), 10, 2, 9), Ok((9, 2, 1, 0)));
    assert_eq!(surface(&config(0, 5), 10, 7, 9), vec![(9, 0), (8, 0), (7, 0)]);
}
