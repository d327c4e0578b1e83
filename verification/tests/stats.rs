use kafka_light::polls::Sample;
use kafka_light::scrape::Message;
use kafka_light::stats::{Series, Slope, Stats, Topic, TopicStats};

const S: u64 = 1_000_000_000;

fn offsets(now: u64, topic: &str, partition: i32, offset: i64) -> Message {
    Message::PartitionOffsets { now, topic: topic.to_string(), partition, offset }
}

fn finished(now: u64, topic: &str) -> Message {
    Message::RoundFinished { now, topic: topic.to_string() }
}

fn live(name: &str) -> Topic {
    Topic { name: name.to_string(), stat_idx: 0 }
}

fn rate_of(stats: &TopicStats) -> Option<f64> {
    stats.rate.as_ref().map(|terms| {
        terms.iter().map(|t: &Slope| t.delta as f64 / (t.nanos as f64 / 1e9)).sum::<f64>()
    })
}

fn bucket_values(series: &Series, width: u64) -> Vec<f64> {
    let mut values = vec![0.0f64; series.xs.len()];
    for share in &series.shares {
        values[share.bucket] +=
            share.delta as f64 * (share.overlap as f64 / width as f64) / (share.span as f64 / 1e9);
    }
    values
}

#[test]
fn single_partition_two_rounds() {
    let mut stats = Stats::ingesting(10 * S);
    let redraw = stats
        .ingest(&vec![
            offsets(0, "t", 0, 100),
            finished(0, "t"),
            offsets(10 * S, "t", 0, 200),
            finished(10 * S, "t"),
        ])
        .unwrap();
    assert!(redraw);
    let base = stats.basestats();
    assert_eq!(base.len(), 1);
    assert_eq!(base[0].topic, live("t"));
    assert_eq!(base[0].total, 200);
    assert_eq!(base[0].seen, 100);
    assert_eq!(base[0].rate, Some(vec![Slope { delta: 100, nanos: 10 * S }]));
    assert!((rate_of(&base[0]).unwrap() - 10.0).abs() < 1e-9);

    let series = stats.rates(&live("t"), 10 * S, 10 * S).unwrap();
    assert_eq!(series.xs, vec![-(15 * S as i128)]);
    let values = bucket_values(&series, 10 * S);
    assert_eq!(values.len(), 1);
    assert!((values[0] - 10.0).abs() < 1e-9);
}

#[test]
fn straddling_boundary() {
    let mut stats = Stats::ingesting(10 * S);
    stats
        .ingest(&vec![
            offsets(0, "t", 0, 0),
            finished(0, "t"),
            offsets(15 * S, "t", 0, 300),
            finished(20 * S, "t"),
        ])
        .unwrap();
    let series = stats.rates(&live("t"), 20 * S, 10 * S).unwrap();
    assert_eq!(series.xs.len(), 2);
    assert_eq!(series.shares.len(), 2);
    assert_eq!(series.shares[0].bucket, 0);
    assert_eq!(series.shares[0].overlap, 10 * S);
    assert_eq!(series.shares[1].bucket, 1);
    assert_eq!(series.shares[1].overlap, 5 * S);
    assert_eq!(series.shares[0].span, 15 * S);
    assert_eq!(series.shares[0].delta, 300);
    let values = bucket_values(&series, 10 * S);
    assert!((values[0] - 20.0).abs() < 1e-9);
    assert!((values[1] - 10.0).abs() < 1e-9);
    let mass: f64 = values.iter().map(|v| v * 10.0).sum();
    assert!((mass - 300.0).abs() < 1e-9 * 300.0);
}

#[test]
fn bucket_positions_count_back_from_now() {
    let mut stats = Stats::ingesting(10 * S);
    stats
        .ingest(&vec![
            offsets(0, "t", 0, 0),
            finished(0, "t"),
            offsets(30 * S, "t", 0, 30),
            finished(30 * S, "t"),
        ])
        .unwrap();
    let series = stats.rates(&live("t"), 40 * S, 10 * S).unwrap();
    // x = k * width - ((now - start) + width / 2)
    assert_eq!(series.xs, vec![-45 * S as i128, -35 * S as i128, -25 * S as i128]);
}

#[test]
fn topic_reset() {
    let mut stats = Stats::ingesting(10 * S);
    stats
        .ingest(&vec![
            offsets(0, "t", 0, 1000),
            offsets(1, "t", 1, 1050),
            finished(2, "t"),
            offsets(10 * S, "t", 0, 1020),
            offsets(10 * S + 1, "t", 1, 1080),
            finished(10 * S + 2, "t"),
        ])
        .unwrap();
    // Both partitions come back far below where they were.
    let redraw = stats
        .ingest(&vec![
            offsets(20 * S, "t", 0, 50),
            offsets(20 * S + 1, "t", 1, 60),
            finished(20 * S + 2, "t"),
        ])
        .unwrap();
    assert!(!redraw);
    let base = stats.basestats();
    assert_eq!(base.len(), 2);
    assert_eq!(base[0].topic, Topic { name: "t".to_string(), stat_idx: 0 });
    assert_eq!((base[0].total, base[0].seen, base[0].rate.clone()), (0, 0, None));
    assert_eq!(base[1].topic, Topic { name: "t".to_string(), stat_idx: 1 });
    assert_eq!((base[1].total, base[1].seen), (2100, 50));

    stats
        .ingest(&vec![
            offsets(30 * S, "t", 0, 50),
            offsets(30 * S + 1, "t", 1, 60),
            finished(30 * S + 2, "t"),
            offsets(40 * S, "t", 0, 54),
            offsets(40 * S + 1, "t", 1, 66),
            finished(40 * S + 2, "t"),
        ])
        .unwrap();
    let base = stats.basestats();
    assert_eq!(base.len(), 2);
    assert_eq!(base[0].topic.stat_idx, 0);
    assert_eq!((base[0].total, base[0].seen), (120, 10));
    assert_eq!(base[1].topic.stat_idx, 1);
    assert_eq!((base[1].total, base[1].seen), (2100, 50));
}

#[test]
fn generation_break_keeps_old_generation() {
    let mut stats = Stats::ingesting(10 * S);
    stats.ingest(&vec![offsets(0, "t", 0, 500), offsets(10, "t", 0, 700), finished(20, "t")]).unwrap();
    let old = stats.polls(&live("t"), 0);
    stats.ingest(&vec![offsets(30, "t", 0, 5), finished(40, "t")]).unwrap();
    assert_eq!(stats.polls(&live("t"), 0), Vec::<Sample>::new());
    assert_eq!(stats.polls(&Topic { name: "t".to_string(), stat_idx: 1 }, 0), old);
    assert_eq!(old, vec![Sample { at: 0, offset: 500 }, Sample { at: 10, offset: 700 }]);
}

#[test]
fn half_of_partitions_decreasing_is_still_healthy() {
    let mut stats = Stats::ingesting(10 * S);
    stats.ingest(&vec![offsets(0, "t", 0, 10), offsets(1, "t", 1, 10), finished(2, "t")]).unwrap();
    // One of two partitions goes back: 1 <= 2 / 2.
    let redraw = stats
        .ingest(&vec![offsets(10, "t", 0, 5), offsets(11, "t", 1, 12), finished(12, "t")])
        .unwrap();
    assert!(redraw);
    assert_eq!(stats.basestats().len(), 1);
    assert_eq!(stats.polls(&live("t"), 0), vec![Sample { at: 0, offset: 10 }]);
    assert_eq!(
        stats.polls(&live("t"), 1),
        vec![Sample { at: 1, offset: 10 }, Sample { at: 11, offset: 12 }]
    );
}

#[test]
fn round_without_samples_changes_nothing() {
    let mut stats = Stats::ingesting(10 * S);
    let redraw = stats.ingest(&vec![finished(5, "nobody")]).unwrap();
    assert!(!redraw);
    assert!(stats.basestats().is_empty());
    stats.ingest(&vec![offsets(0, "t", 0, 1), finished(1, "t")]).unwrap();
    let redraw = stats.ingest(&vec![finished(9, "t")]).unwrap();
    assert!(!redraw);
    // The scraped interval still ends where the one healthy round ended.
    assert_eq!(stats.rates(&live("t"), 9, 1).unwrap().xs.len(), 0);
}

#[test]
fn samples_are_kept_in_time_order() {
    let mut stats = Stats::ingesting(10 * S);
    stats
        .ingest(&vec![
            offsets(30, "t", 0, 100),
            offsets(10, "t", 0, 100),
            offsets(20, "t", 0, 150),
            offsets(20, "t", 0, 170),
            offsets(40, "t", 0, 99),
        ])
        .unwrap();
    let polls = stats.polls(&live("t"), 0);
    assert_eq!(
        polls,
        vec![
            Sample { at: 10, offset: 100 },
            Sample { at: 20, offset: 170 },
            Sample { at: 30, offset: 100 },
        ]
    );
    assert!(polls.windows(2).all(|w| w[0].at < w[1].at));
}

#[test]
fn samples_in_time_order_never_go_down() {
    let mut stats = Stats::ingesting(10 * S);
    stats
        .ingest(&vec![
            offsets(10, "t", 0, 100),
            offsets(20, "t", 0, 90),
            offsets(30, "t", 0, 100),
            offsets(40, "t", 0, 250),
            offsets(50, "t", 0, 249),
        ])
        .unwrap();
    let polls = stats.polls(&live("t"), 0);
    assert_eq!(polls.len(), 3);
    assert!(polls.windows(2).all(|w| w[0].at < w[1].at && w[0].offset <= w[1].offset));
}

#[test]
fn window_discard() {
    let mut stats = Stats::ingesting(10 * S);
    let mut msgs = Vec::new();
    for i in 0..=10u64 {
        msgs.push(offsets(i * 10 * S, "t", 0, (i * 7) as i64));
    }
    stats.ingest(&msgs).unwrap();
    stats.discard_before(100 * S);
    assert_eq!(
        stats.polls(&live("t"), 0),
        vec![Sample { at: 90 * S, offset: 63 }, Sample { at: 100 * S, offset: 70 }]
    );
}

#[test]
fn discard_before_the_epoch_does_nothing() {
    let mut stats = Stats::ingesting(10 * S);
    stats.ingest(&vec![offsets(0, "t", 0, 1), offsets(S, "t", 0, 2)]).unwrap();
    stats.discard_before(5 * S);
    assert_eq!(stats.polls(&live("t"), 0).len(), 2);
    stats.discard_before(10 * S + 1);
    assert_eq!(stats.polls(&live("t"), 0), vec![Sample { at: S, offset: 2 }]);
}

#[test]
fn metadata_failure_is_kept_until_a_healthy_round() {
    let mut stats = Stats::ingesting(10 * S);
    let redraw = stats.ingest(&vec![Message::MetadataQueryFail("broker down".to_string())]).unwrap();
    assert!(redraw);
    assert_eq!(stats.metadata_error, Some("broker down".to_string()));
    let redraw = stats.ingest(&vec![offsets(0, "t", 0, 1)]).unwrap();
    assert!(!redraw);
    assert_eq!(stats.metadata_error, Some("broker down".to_string()));
    let redraw = stats.ingest(&vec![finished(1, "t")]).unwrap();
    assert!(redraw);
    assert_eq!(stats.metadata_error, None);
}

#[test]
fn broker_failure_stops_ingestion() {
    let mut stats = Stats::ingesting(10 * S);
    let err = stats
        .ingest(&vec![
            offsets(0, "t", 0, 1),
            Message::BrokerQueryFail("no leader".to_string()),
            offsets(1, "t", 0, 2),
        ])
        .unwrap_err();
    assert_eq!(err.at, 1);
    assert_eq!(err.reason, "no leader");
    assert_eq!(stats.polls(&live("t"), 0), vec![Sample { at: 0, offset: 1 }]);
}

#[test]
fn rates_are_absent_without_a_committed_round() {
    let mut stats = Stats::ingesting(10 * S);
    stats.ingest(&vec![offsets(5, "t", 0, 1)]).unwrap();
    assert!(stats.rates(&live("t"), 10, 1).is_none());
    assert!(stats.rates(&live("other"), 10, 1).is_none());
    stats.ingest(&vec![finished(6, "t")]).unwrap();
    assert!(stats.rates(&live("t"), 10, 1).is_some());
    // The first healthy round ended after `now`.
    assert!(stats.rates(&live("t"), 5, 1).is_none());
    assert!(stats.rates(&Topic { name: "t".to_string(), stat_idx: 1 }, 10, 1).is_none());
}

#[test]
fn basestats_sums_over_partitions() {
    let mut stats = Stats::ingesting(10 * S);
    stats
        .ingest(&vec![
            offsets(0, "a", 0, 10),
            offsets(0, "a", 1, 100),
            offsets(2 * S, "a", 0, 30),
            offsets(4 * S, "a", 1, 140),
            offsets(0, "a", 2, 5),
            offsets(0, "b", 0, 7),
        ])
        .unwrap();
    let base = stats.basestats();
    assert_eq!(base.len(), 2);
    assert_eq!(base[0].topic, live("a"));
    assert_eq!(base[0].total, 30 + 140 + 5);
    assert_eq!(base[0].seen, 20 + 40);
    assert_eq!(
        base[0].rate,
        Some(vec![Slope { delta: 20, nanos: 2 * S }, Slope { delta: 40, nanos: 4 * S }])
    );
    assert!((rate_of(&base[0]).unwrap() - 20.0).abs() < 1e-9);
    assert_eq!(base[1].topic, live("b"));
    assert_eq!((base[1].total, base[1].seen, base[1].rate.clone()), (7, 0, None));
}

#[test]
fn sums_do_not_overflow_at_the_ends_of_the_offset_range() {
    let mut stats = Stats::ingesting(10 * S);
    stats
        .ingest(&vec![
            offsets(0, "t", 0, i64::MIN),
            offsets(1, "t", 0, i64::MAX),
            offsets(0, "t", 1, i64::MAX),
        ])
        .unwrap();
    let base = stats.basestats();
    assert_eq!(base[0].total, 2 * i64::MAX as i128);
    assert_eq!(base[0].seen, i64::MAX as i128 - i64::MIN as i128);
    assert_eq!(base[0].rate, Some(vec![Slope { delta: u64::MAX as i128, nanos: 1 }]));
}
