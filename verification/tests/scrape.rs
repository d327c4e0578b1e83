use kafka_light::scrape::{
    insert_task, query_shift, scale_draw, task_lt, topic_jitter, Message, Pace, PartitionMeta, QueryTask,
    Round, State, Step, TopicMeta,
};
use rand::RngCore;

const S: u64 = 1_000_000_000;

fn topic(name: &str, leaders: &[i32]) -> TopicMeta {
    TopicMeta {
        name: name.to_string(),
        partitions: leaders
            .iter()
            .enumerate()
            .map(|(i, l)| PartitionMeta { id: i as i32, leader: *l })
            .collect(),
    }
}

fn task(when: u64, topic: &str, partition: i32) -> QueryTask {
    QueryTask { when, topic: topic.to_string(), partition, leader: 0 }
}

fn keys(tasks: &Vec<QueryTask>) -> Vec<(u64, String, i32)> {
    tasks.iter().map(|t| (t.when, t.topic.clone(), t.partition)).collect()
}

fn draw(name: &str) -> u64 {
    rand_seeder::SipHasher::from(name).into_rng().next_u64()
}

/// Walks the round to its end; every query of a partition led by a broker in `down` fails.
fn walk(round: &mut Round, shared: &mut State, down: &[i32], leaders: &[(String, i32, i32)]) -> Vec<String> {
    let mut log = Vec::new();
    loop {
        match round.next() {
            Step::Query { when: _, topic, partition } => {
                let leader = leaders
                    .iter()
                    .find(|(t, p, _)| *t == topic && *p == partition)
                    .map(|(_, _, l)| *l)
                    .unwrap();
                let high = if down.contains(&leader) { None } else { Some(1000 + partition as i64) };
                match round.answer(high, 77, shared) {
                    Some(Message::PartitionOffsets { now, topic, partition, offset }) => {
                        assert_eq!(now, 77);
                        log.push(format!("offsets {} {} {}", topic, partition, offset));
                    }
                    Some(other) => panic!("unexpected {:?}", other),
                    None => log.push(format!("failed {} {}", topic, partition)),
                }
            }
            Step::Finished { topic } => log.push(format!("finished {}", topic)),
            Step::Again => {}
            Step::Done => break,
        }
    }
    log
}

#[test]
fn jitter_determinism() {
    let shift = query_shift(10 * S, 4);
    assert_eq!(shift, 2_500_000_000);
    let first = topic_jitter("orders", shift);
    let second = topic_jitter("orders", shift);
    assert_eq!(first, second);
    assert!(first < shift);
    let expected = ((shift as u128 * (draw("orders") >> 11) as u128) >> 53) as u64;
    assert_eq!(first, expected);
    let names = ["orders", "payments", "clicks", "logs", "audit"];
    let mut jitters: Vec<u64> = names.iter().map(|n| topic_jitter(n, shift)).collect();
    jitters.sort();
    jitters.dedup();
    assert_eq!(jitters.len(), names.len());
}

#[test]
fn draws_are_scaled_to_a_part_of_the_shift() {
    assert_eq!(scale_draw(0, 1000), 0);
    assert_eq!(scale_draw(2047, 1000), 0);
    assert_eq!(scale_draw(1 << 63, 1000), 500);
    assert_eq!(scale_draw(1 << 62, 1000), 250);
    assert_eq!(scale_draw(u64::MAX, 1000), 999);
    assert_eq!(scale_draw(u64::MAX, u64::MAX), u64::MAX - 2048);
    assert_eq!(scale_draw(u64::MAX, 0), 0);
}

#[test]
fn jitter_of_nothing_is_nothing() {
    assert_eq!(query_shift(10 * S, 0), 0);
    assert_eq!(topic_jitter("orders", 0), 0);
    assert_eq!(query_shift(3, 4), 0);
}

#[test]
fn plan_spreads_partitions_over_the_interval() {
    let metas = vec![topic("orders", &[1, 2, 3, 1])];
    let shared = State::new(10 * S);
    let round = Round::plan(&metas, 100 * S, 10 * S, &shared);
    let shift = 2_500_000_000u64;
    let jitter = ((shift as u128 * (draw("orders") >> 11) as u128) >> 53) as u64;
    let tasks = round.tasks();
    assert_eq!(tasks.len(), 4);
    for (i, t) in tasks.iter().enumerate() {
        assert_eq!(t.when, 100 * S + jitter + shift * i as u64);
        assert_eq!(t.topic, "orders");
        assert_eq!(t.partition, i as i32);
        assert!(t.when < 110 * S);
    }
    assert_eq!(tasks.iter().map(|t| t.leader).collect::<Vec<_>>(), vec![1, 2, 3, 1]);
}

#[test]
fn plan_orders_tasks_of_all_topics_by_time() {
    let metas = vec![topic("b", &[1, 1, 1]), topic("a", &[2, 2]), topic("empty", &[]), topic("c", &[3])];
    let shared = State::new(10 * S);
    let round = Round::plan(&metas, 0, 10 * S, &shared);
    let tasks = round.tasks();
    assert_eq!(tasks.len(), 6);
    assert!(tasks.windows(2).all(|w| task_lt(&w[0], &w[1])));
    let mut sorted = keys(tasks);
    sorted.sort();
    assert_eq!(sorted, keys(tasks));
    assert_eq!(tasks.iter().filter(|t| t.topic == "b").count(), 3);
    assert_eq!(tasks.iter().filter(|t| t.topic == "a").count(), 2);
    assert_eq!(tasks.iter().filter(|t| t.topic == "c").count(), 1);
}

#[test]
fn tasks_are_ordered_by_time_then_topic_then_partition() {
    assert!(task_lt(&task(1, "z", 9), &task(2, "a", 0)));
    assert!(!task_lt(&task(2, "a", 0), &task(1, "z", 9)));
    assert!(task_lt(&task(1, "a", 9), &task(1, "b", 0)));
    assert!(task_lt(&task(1, "a", 9), &task(1, "ab", 0)));
    assert!(task_lt(&task(1, "Z", 0), &task(1, "a", 0)));
    assert!(!task_lt(&task(1, "b", 0), &task(1, "a", 9)));
    assert!(task_lt(&task(1, "a", 1), &task(1, "a", 2)));
    assert!(!task_lt(&task(1, "a", 2), &task(1, "a", 2)));
    assert!(task_lt(&task(1, "", 2), &task(1, "a", 0)));
}

#[test]
fn insert_task_keeps_the_schedule_a_set() {
    let mut tasks = Vec::new();
    insert_task(&mut tasks, task(5, "a", 0));
    insert_task(&mut tasks, task(3, "b", 0));
    insert_task(&mut tasks, task(5, "a", 1));
    insert_task(&mut tasks, task(4, "a", 0));
    insert_task(&mut tasks, QueryTask { when: 5, topic: "a".to_string(), partition: 0, leader: 42 });
    assert_eq!(
        keys(&tasks),
        vec![
            (3, "b".to_string(), 0),
            (4, "a".to_string(), 0),
            (5, "a".to_string(), 0),
            (5, "a".to_string(), 1),
        ]
    );
    assert_eq!(tasks[2].leader, 0);
}

#[test]
fn every_topic_is_finished_after_its_last_partition() {
    let metas = vec![topic("a", &[1, 1]), topic("b", &[2, 2, 2])];
    let mut shared = State::new(10 * S);
    let mut round = Round::plan(&metas, 0, 10 * S, &shared);
    let leaders: Vec<(String, i32, i32)> =
        round.tasks().iter().map(|t| (t.topic.clone(), t.partition, t.leader)).collect();
    let log = walk(&mut round, &mut shared, &[], &leaders);
    assert_eq!(log.len(), 7);
    for name in ["a", "b"] {
        let done = log.iter().position(|l| *l == format!("finished {}", name)).unwrap();
        let last = log.iter().rposition(|l| l.starts_with(&format!("offsets {} ", name))).unwrap();
        assert!(last < done);
        assert_eq!(log.iter().filter(|l| **l == format!("finished {}", name)).count(), 1);
    }
    assert!(log.contains(&"offsets a 1 1001".to_string()));
    assert!(matches!(round.next(), Step::Done));
    assert!(round.answer(Some(1), 0, &mut shared).is_none());
}

#[test]
fn quarantine_healing() {
    let metas = vec![topic("t", &[3, 3, 4])];
    let mut shared = State::new(10 * S);
    let mut round = Round::plan(&metas, 0, 10 * S, &shared);
    let leaders: Vec<(String, i32, i32)> =
        round.tasks().iter().map(|t| (t.topic.clone(), t.partition, t.leader)).collect();
    let log = walk(&mut round, &mut shared, &[3], &leaders);
    // The first partition led by 3 fails, the second one is not even tried.
    assert_eq!(log, vec!["failed t 0", "offsets t 2 1002", "finished t"]);
    assert!(shared.is_bad(3));
    assert!(!shared.is_bad(4));
    assert_eq!(shared.bad_brokers(), vec![3]);

    // While 3 is in quarantine, the next round keeps away from it.
    let mut round = Round::plan(&metas, 10 * S, 10 * S, &shared);
    let log = walk(&mut round, &mut shared, &[3], &leaders);
    assert_eq!(log, vec!["offsets t 2 1002", "finished t"]);

    // The prober finds 3 answering again.
    let mut probe = shared.drain();
    assert!(!shared.is_bad(3));
    assert!(probe.wants(3));
    assert!(!probe.wants(4));
    probe.record(3, true);
    assert!(!probe.wants(3));
    probe.record(3, false);
    shared.replace(probe);
    assert!(!shared.is_bad(3));
    assert!(shared.bad_brokers().is_empty());

    let mut round = Round::plan(&metas, 20 * S, 10 * S, &shared);
    let log = walk(&mut round, &mut shared, &[], &leaders);
    assert_eq!(log, vec!["offsets t 0 1000", "offsets t 1 1001", "offsets t 2 1002", "finished t"]);
}

#[test]
fn probe_tests_every_suspect_once() {
    let mut shared = State::new(S);
    shared.quarantine(1);
    shared.quarantine(2);
    shared.quarantine(5);
    shared.quarantine(2);
    let mut bad = shared.bad_brokers();
    bad.sort();
    assert_eq!(bad, vec![1, 2, 5]);
    let mut probe = shared.drain();
    probe.record(1, false);
    assert!(!probe.wants(1));
    // A later answer from the same broker is not asked for and changes nothing.
    probe.record(1, true);
    probe.record(2, true);
    // A broker that was not in quarantine is none of the prober's business.
    probe.record(9, false);
    assert_eq!(probe.failed(), vec![1]);
    // 5 leads nothing any more: it is released untested.
    shared.quarantine(7);
    shared.replace(probe);
    assert_eq!(shared.bad_brokers(), vec![1]);
    assert_eq!(shared.query_interval(), S);
}

#[test]
fn default_state_is_empty() {
    let state = State::default();
    assert!(state.bad_brokers().is_empty());
    assert_eq!(state.query_interval(), 0);
}

#[test]
fn pace_sleeps_to_the_deadline_and_drops_debt() {
    let mut pace = Pace { next: 100 };
    pace.advance(50);
    assert_eq!(pace.next, 150);
    assert_eq!(pace.rest(120), Some(30));
    assert_eq!(pace.next, 150);
    assert_eq!(pace.rest(150), Some(0));
    assert_eq!(pace.rest(180), None);
    assert_eq!(pace.next, 180);
}
