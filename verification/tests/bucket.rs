use kafka_light::bucket::{push_history_shares, push_pair_shares, Share};
use kafka_light::polls::{discard, newest, record, Sample};

fn at(t: u64, offset: i64) -> Sample {
    Sample { at: t, offset }
}

#[test]
fn pair_inside_one_bucket() {
    let mut out = Vec::new();
    push_pair_shares(&mut out, at(12, 5), at(17, 9), 0, 10, 4);
    assert_eq!(out, vec![Share { bucket: 1, delta: 4, overlap: 5, span: 5 }]);
}

#[test]
fn pair_over_several_buckets() {
    let mut out = Vec::new();
    push_pair_shares(&mut out, at(107, 0), at(132, 50), 100, 10, 5);
    assert_eq!(
        out,
        vec![
            Share { bucket: 0, delta: 50, overlap: 3, span: 25 },
            Share { bucket: 1, delta: 50, overlap: 10, span: 25 },
            Share { bucket: 2, delta: 50, overlap: 10, span: 25 },
            Share { bucket: 3, delta: 50, overlap: 2, span: 25 },
        ]
    );
    let total: u64 = out.iter().map(|s| s.overlap).sum();
    assert_eq!(total, 25);
}

#[test]
fn pair_starting_before_the_window() {
    let mut out = Vec::new();
    push_pair_shares(&mut out, at(80, 0), at(115, 7), 100, 10, 5);
    assert_eq!(
        out,
        vec![
            Share { bucket: 0, delta: 7, overlap: 10, span: 35 },
            Share { bucket: 1, delta: 7, overlap: 5, span: 35 },
        ]
    );
}

#[test]
fn pair_reaching_beyond_the_last_bucket() {
    let mut out = Vec::new();
    push_pair_shares(&mut out, at(15, 0), at(45, 3), 0, 10, 2);
    assert_eq!(out, vec![Share { bucket: 1, delta: 3, overlap: 5, span: 30 }]);
}

#[test]
fn pair_outside_the_window_has_no_share() {
    let mut out = Vec::new();
    push_pair_shares(&mut out, at(1, 0), at(9, 3), 10, 10, 2);
    push_pair_shares(&mut out, at(1, 0), at(10, 3), 10, 10, 2);
    push_pair_shares(&mut out, at(30, 0), at(40, 3), 10, 10, 2);
    push_pair_shares(&mut out, at(12, 0), at(18, 3), 10, 10, 0);
    assert!(out.is_empty());
}

#[test]
fn pair_ending_on_a_boundary_has_no_empty_share() {
    let mut out = Vec::new();
    push_pair_shares(&mut out, at(5, 0), at(20, 30), 0, 10, 4);
    assert_eq!(
        out,
        vec![
            Share { bucket: 0, delta: 30, overlap: 5, span: 15 },
            Share { bucket: 1, delta: 30, overlap: 10, span: 15 },
        ]
    );
}

#[test]
fn negative_growth_is_shared_like_any_other() {
    let mut out = Vec::new();
    push_pair_shares(&mut out, at(0, 10), at(10, 4), 0, 5, 2);
    assert_eq!(
        out,
        vec![
            Share { bucket: 0, delta: -6, overlap: 5, span: 10 },
            Share { bucket: 1, delta: -6, overlap: 5, span: 10 },
        ]
    );
}

#[test]
fn history_shares_follow_the_pairs() {
    let polls = vec![at(0, 0), at(4, 8), at(12, 8), at(20, 28)];
    let mut out = vec![Share { bucket: 9, delta: 1, overlap: 1, span: 1 }];
    push_history_shares(&mut out, &polls, 0, 10, 2);
    assert_eq!(
        out,
        vec![
            Share { bucket: 9, delta: 1, overlap: 1, span: 1 },
            Share { bucket: 0, delta: 8, overlap: 4, span: 4 },
            Share { bucket: 0, delta: 0, overlap: 6, span: 8 },
            Share { bucket: 1, delta: 0, overlap: 2, span: 8 },
            Share { bucket: 1, delta: 20, overlap: 8, span: 8 },
        ]
    );
    assert!(out.iter().all(|s| s.delta >= 0 && s.overlap > 0));
}

#[test]
fn history_with_one_sample_has_no_share() {
    let mut out = Vec::new();
    push_history_shares(&mut out, &vec![at(3, 3)], 0, 10, 2);
    push_history_shares(&mut out, &Vec::new(), 0, 10, 2);
    assert!(out.is_empty());
}

#[test]
fn record_replaces_a_sample_of_the_same_time() {
    let mut polls = vec![at(1, 1), at(5, 5)];
    record(&mut polls, at(5, 9));
    assert_eq!(polls, vec![at(1, 1), at(5, 9)]);
    record(&mut polls, at(1, 0));
    assert_eq!(polls, vec![at(1, 0), at(5, 9)]);
    record(&mut polls, at(0, 7));
    record(&mut polls, at(3, 3));
    record(&mut polls, at(8, 8));
    assert_eq!(polls, vec![at(0, 7), at(1, 0), at(3, 3), at(5, 9), at(8, 8)]);
    assert_eq!(newest(&polls), Some(at(8, 8)));
    assert_eq!(newest(&Vec::new()), None);
}

#[test]
fn discard_drops_only_older_samples() {
    let mut polls = vec![at(1, 1), at(5, 5), at(9, 9)];
    discard(&mut polls, 5);
    assert_eq!(polls, vec![at(5, 5), at(9, 9)]);
    discard(&mut polls, 0);
    assert_eq!(polls, vec![at(5, 5), at(9, 9)]);
    discard(&mut polls, 10);
    assert!(polls.is_empty());
    discard(&mut polls, 10);
    assert!(polls.is_empty());
}
