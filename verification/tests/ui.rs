use kafka_light::stats::{Topic, TopicStats};
use kafka_light::text::{decimal, right_align, text_lt, zero_padded};
use kafka_light::ui::{
    bucket_size, date_length, discard_point, format_time, is_quit, label_age, label_columns, long_time,
    plot_size, rate_label_steps, sort_stats, DateTime, Driver, KeyPress,
};

const S: u64 = 1_000_000_000;

fn entry(name: &str, stat_idx: usize, seen: i128, total: i128) -> TopicStats {
    TopicStats { topic: Topic { name: name.to_string(), stat_idx }, total, seen, rate: None }
}

#[test]
fn stats_are_listed_live_first_then_busiest_first() {
    let sorted = sort_stats(vec![
        entry("old", 1, 900, 900),
        entry("quiet", 0, 0, 70),
        entry("busy", 0, 50, 10),
        entry("silent", 0, 0, 80),
        entry("busier", 0, 60, 1),
        entry("older", 2, 5000, 5000),
        entry("tie", 0, 50, 20),
    ]);
    let names: Vec<&str> = sorted.iter().map(|s| s.topic.name.as_str()).collect();
    assert_eq!(names, vec!["busier", "tie", "busy", "silent", "quiet", "old", "older"]);
    assert!(sort_stats(Vec::new()).is_empty());
}

#[test]
fn sorting_keeps_every_entry() {
    let sorted = sort_stats(vec![entry("a", 0, 1, 1), entry("a", 0, 1, 1), entry("b", 0, 1, 1)]);
    assert_eq!(sorted.len(), 3);
    assert_eq!(sorted.iter().filter(|s| s.topic.name == "a").count(), 2);
}

#[test]
fn samples_are_kept_a_tenth_longer_than_the_window() {
    assert_eq!(discard_point(100 * S, 60 * S), Some(34 * S));
    assert_eq!(discard_point(66 * S, 60 * S), Some(0));
    assert_eq!(discard_point(66 * S - 1, 60 * S), None);
    assert_eq!(discard_point(u64::MAX, u64::MAX), None);
    assert_eq!(discard_point(5, 0), Some(5));
}

#[test]
fn quit_keys() {
    let key = |c: char, only_control: bool| KeyPress { key: Some(c), only_control };
    assert!(is_quit(key('q', false)));
    assert!(is_quit(key('q', true)));
    assert!(is_quit(key('c', true)));
    assert!(is_quit(key('d', true)));
    assert!(!is_quit(key('c', false)));
    assert!(!is_quit(key('d', false)));
    assert!(!is_quit(key('x', true)));
    assert!(!is_quit(KeyPress { key: None, only_control: true }));
}

#[test]
fn driver_draws_on_change_and_once_a_second() {
    let mut driver = Driver::new(0);
    assert!(driver.tick(0, false));
    assert!(!driver.tick(S / 2, false));
    assert!(driver.tick(S / 2, true));
    assert!(!driver.tick(S, false));
    assert!(driver.tick(S + 1, false));
    assert_eq!(driver.last_draw, S + 1);
    assert!(!driver.tick(S + 2, false));
    assert!(!driver.input(Some(KeyPress { key: Some('x'), only_control: false })));
    assert!(driver.tick(S + 3, false));
    assert!(!driver.input(None));
    assert!(driver.redraw);
    assert!(driver.input(Some(KeyPress { key: Some('q'), only_control: false })));
}

#[test]
fn plot_needs_more_than_two_columns_and_rows() {
    assert_eq!(plot_size(100, 40), Some((91, 38)));
    assert_eq!(plot_size(12, 5), Some((3, 3)));
    assert_eq!(plot_size(11, 40), None);
    assert_eq!(plot_size(100, 4), None);
    assert_eq!(plot_size(0, 0), None);
    assert_eq!(bucket_size(900 * S, 90), 5 * S);
    assert_eq!(bucket_size(100, 90), 0);
}

#[test]
fn time_labels() {
    assert!(!long_time(6 * 3600 * S));
    assert!(long_time(6 * 3600 * S + 1));
    assert_eq!(date_length(false), 8);
    assert_eq!(date_length(true), 19);
    assert_eq!(label_columns(40, false), vec![1, 14, 27, 40]);
    assert_eq!(label_columns(40, true), vec![1, 25]);
    assert_eq!(label_columns(0, true), Vec::<u16>::new());
    assert_eq!(label_age(60 * S, 1, 40), 58_500_000_000);
    assert_eq!(label_age(60 * S, 40, 40), 0);
    assert_eq!(label_age(u64::MAX, 0, 7), u64::MAX);
    assert_eq!(rate_label_steps(38), 3);
    assert_eq!(rate_label_steps(9), 1);
    assert_eq!(rate_label_steps(19), 1);
    assert_eq!(rate_label_steps(20), 2);
}

#[test]
fn times_are_written_with_leading_zeros() {
    let t = DateTime { year: 2021, month: 3, day: 9, hour: 7, minute: 5, second: 0 };
    assert_eq!(format_time(t, false), "07:05:00");
    assert_eq!(format_time(t, true), "2021-03-09 07:05:00");
    let t = DateTime { year: 987, month: 12, day: 31, hour: 23, minute: 59, second: 59 };
    assert_eq!(format_time(t, true), "0987-12-31 23:59:59");
    let t = DateTime { year: -5, month: 1, day: 1, hour: 0, minute: 0, second: 0 };
    assert_eq!(format_time(t, true), format!("{:04}-01-01 00:00:00", -5));
    let t = DateTime { year: 12345, month: 1, day: 1, hour: 0, minute: 0, second: 0 };
    assert_eq!(format_time(t, true), "12345-01-01 00:00:00");
}

#[test]
fn numbers_in_decimal() {
    assert_eq!(decimal(0), "0");
    assert_eq!(decimal(7), "7");
    assert_eq!(decimal(1203), "1203");
    assert_eq!(decimal(u32::MAX), "4294967295");
    assert_eq!(zero_padded(7, 3), "007");
    assert_eq!(zero_padded(1234, 2), "1234");
    assert_eq!(zero_padded(0, 0), "0");
}

#[test]
fn cells_are_aligned_to_the_right() {
    assert_eq!(right_align("1.50k".to_string(), 7), "  1.50k");
    assert_eq!(right_align("1234567".to_string(), 7), "1234567");
    assert_eq!(right_align("12345678".to_string(), 7), "12345678");
    assert_eq!(right_align(String::new(), 3), "   ");
    // The width counts bytes.
    assert_eq!(right_align("µs".to_string(), 4), " µs");
}

#[test]
fn dictionary_order() {
    assert!(text_lt("a", "b"));
    assert!(text_lt("", "a"));
    assert!(!text_lt("", ""));
    assert!(text_lt("abc", "abd"));
    assert!(text_lt("ab", "abc"));
    assert!(!text_lt("abc", "ab"));
    assert!(!text_lt("b", "a"));
    assert_eq!(text_lt("zebra", "Ärger"), "zebra" < "Ärger");
}
