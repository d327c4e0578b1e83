use kafka_light::colors::{Color, ColorAssignment, LineColor};
use kafka_light::stats::{Topic, TopicStats};

fn entry(name: &str, stat_idx: usize, seen: i128) -> TopicStats {
    TopicStats { topic: Topic { name: name.to_string(), stat_idx }, total: seen, seen, rate: None }
}

fn live(name: &str) -> Topic {
    Topic { name: name.to_string(), stat_idx: 0 }
}

#[test]
fn palette_has_seven_colors() {
    assert_eq!(
        LineColor::all_variants(),
        vec![
            LineColor::Blue,
            LineColor::Yellow,
            LineColor::Red,
            LineColor::Green,
            LineColor::Magenta,
            LineColor::Cyan,
            LineColor::White,
        ]
    );
    assert_eq!(LineColor::Magenta.into(), Color::Magenta);
    assert_eq!(LineColor::Blue.into(), Color::Blue);
}

#[test]
fn uncolored_topics_are_gray() {
    let colors = ColorAssignment::new();
    assert_eq!(colors.len(), 0);
    assert_eq!(colors.get(&live("a")), Color::Gray);
    assert!(colors.colored_topic_names().is_empty());
}

#[test]
fn busy_live_topics_get_distinct_colors() {
    let mut colors = ColorAssignment::new();
    colors.compute(&vec![entry("a", 0, 50), entry("b", 0, 0), entry("c", 0, 7), entry("a", 1, 90)]);
    assert_eq!(colors.len(), 2);
    let mut names = colors.colored_topic_names();
    names.sort();
    assert_eq!(names, vec!["a", "c"]);
    assert_ne!(colors.get(&live("a")), Color::Gray);
    assert_ne!(colors.get(&live("c")), Color::Gray);
    assert_ne!(colors.get(&live("a")), colors.get(&live("c")));
    assert_eq!(colors.get(&live("b")), Color::Gray);
    assert_eq!(colors.get(&Topic { name: "a".to_string(), stat_idx: 1 }), Color::Gray);
}

#[test]
fn colors_are_kept_while_a_topic_stays_on_top() {
    let mut colors = ColorAssignment::new();
    colors.compute(&vec![entry("a", 0, 5), entry("b", 0, 4), entry("c", 0, 3)]);
    let a = colors.get(&live("a"));
    let c = colors.get(&live("c"));
    colors.compute(&vec![entry("c", 0, 9), entry("d", 0, 8), entry("a", 0, 5)]);
    assert_eq!(colors.get(&live("a")), a);
    assert_eq!(colors.get(&live("c")), c);
    assert_eq!(colors.get(&live("b")), Color::Gray);
    let d = colors.get(&live("d"));
    assert!(d != Color::Gray && d != a && d != c);
    assert_eq!(colors.len(), 3);
}

#[test]
fn only_as_many_topics_as_colors() {
    let names = ["a", "b", "c", "d", "e", "f", "g", "h", "i"];
    let stats: Vec<TopicStats> = names.iter().map(|n| entry(n, 0, 10)).collect();
    let mut colors = ColorAssignment::new();
    colors.compute(&stats);
    assert_eq!(colors.len(), 7);
    let mut seen: Vec<Color> = names[..7].iter().map(|n| colors.get(&live(n))).collect();
    assert!(!seen.contains(&Color::Gray));
    seen.sort_by_key(|c| format!("{:?}", c));
    seen.dedup();
    assert_eq!(seen.len(), 7);
    assert_eq!(colors.get(&live("h")), Color::Gray);
    // The next seven take over; every color is free again.
    let shifted: Vec<TopicStats> = names[2..].iter().map(|n| entry(n, 0, 10)).collect();
    colors.compute(&shifted);
    assert_eq!(colors.len(), 7);
    assert_eq!(colors.get(&live("a")), Color::Gray);
    assert_ne!(colors.get(&live("i")), Color::Gray);
}

#[test]
fn a_topic_listed_twice_gets_one_color() {
    let mut colors = ColorAssignment::new();
    colors.compute(&vec![entry("a", 0, 5), entry("a", 0, 5)]);
    assert_eq!(colors.len(), 1);
    colors.compute(&Vec::new());
    assert_eq!(colors.len(), 0);
}
