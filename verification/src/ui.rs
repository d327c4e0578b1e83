//! What the display driver decides: when to draw, in which order to list the
//! topics, how to lay out the chart, and how to write times and table cells.

use vstd::prelude::*;
use vstd::seq_lib::{to_multiset_build, to_multiset_insert};
use vstd::string::*;
use crate::stats::{TopicStats, TopicStatsView, stats_views};
use crate::text::{digits, padded, zero_padded};

verus! {

/// Nanoseconds in one second.
pub const SECOND: u64 = 1_000_000_000;

/// Whether `a` is listed before `b`: live generations first, then the topic
/// that has seen more, then the one with the greater total.
pub open spec fn ranks_before(a: TopicStatsView, b: TopicStatsView) -> bool {
    a.topic.1 < b.topic.1 || (a.topic.1 == b.topic.1 && (a.seen > b.seen || (a.seen == b.seen && a.total
        > b.total)))
}

/// No entry is listed after one that it ranks before.
pub open spec fn ranked(list: Seq<TopicStatsView>) -> bool {
    forall|i: int, j: int| 0 <= i < j < list.len() ==> !ranks_before(list[j], list[i])
}

fn ranks_lt(a: &TopicStats, b: &TopicStats) -> (r: bool)
    ensures
        r == ranks_before(a@, b@),
{
    a.topic.stat_idx < b.topic.stat_idx || (a.topic.stat_idx == b.topic.stat_idx && (a.seen > b.seen || (
    a.seen == b.seen && a.total > b.total)))
}

/// Puts the statistics in the order they are listed in: the same entries,
/// ranked.
pub fn sort_stats(stats: Vec<TopicStats>) -> (r: Vec<TopicStats>)
    ensures
        ranked(stats_views(r@)),
        stats_views(r@).to_multiset() == stats_views(stats@).to_multiset(),
{
    broadcast use vstd::seq_lib::group_to_multiset_ensures;

    let ghost all = stats_views(stats@).to_multiset();
    let mut rest = stats;
    let mut out: Vec<TopicStats> = Vec::new();
    proof {
        assert(stats_views(out@) =~= Seq::<TopicStatsView>::empty());
        assert(stats_views(out@).to_multiset() =~= vstd::multiset::Multiset::<TopicStatsView>::empty());
        assert(stats_views(out@).to_multiset().add(stats_views(rest@).to_multiset()) =~= all);
    }
    while rest.len() > 0
        invariant
            ranked(stats_views(out@)),
            stats_views(out@).to_multiset().add(stats_views(rest@).to_multiset()) == all,
        decreases rest@.len(),
    {
        let ghost rest_before = stats_views(rest@);
        let ghost out_before = stats_views(out@);
        let s = rest.pop().unwrap();
        proof {
            assert(stats_views(rest@) =~= rest_before.drop_last());
            assert(rest_before =~= stats_views(rest@).push(s@));
            to_multiset_build(stats_views(rest@), s@);
        }
        let n = out.len();
        let mut p: usize = 0;
        while p < n && ranks_lt(&out[p], &s)
            invariant
                n == out@.len(),
                out_before == stats_views(out@),
                p <= n,
                forall|j: int| 0 <= j < p ==> ranks_before(#[trigger] out_before[j], s@),
            decreases n - p,
        {
            p = p + 1;
        }
        let ghost sv = s@;
        out.insert(p, s);
        proof {
            let cur = stats_views(out@);
            assert(cur =~= out_before.insert(p as int, sv));
            to_multiset_insert(out_before, p as int, sv);
            assert forall|i: int, j: int| 0 <= i < j < cur.len() implies !ranks_before(cur[j], cur[i]) by {
                if j < p {
                    assert(cur[i] == out_before[i] && cur[j] == out_before[j]);
                } else if j == p {
                    assert(cur[i] == out_before[i]);
                } else {
                    assert(cur[j] == out_before[j - 1]);
                    if i < p {
                        assert(cur[i] == out_before[i]);
                    } else if i == p {
                        if j - 1 > p {
                            assert(!ranks_before(out_before[j - 1], out_before[p as int]));
                        }
                    } else {
                        assert(cur[i] == out_before[i - 1]);
                    }
                }
            }
            assert(cur.to_multiset().add(stats_views(rest@).to_multiset()) =~= all);
        }
    }
    proof {
        assert(stats_views(rest@) =~= Seq::<TopicStatsView>::empty());
        assert(stats_views(rest@).to_multiset() =~= vstd::multiset::Multiset::<TopicStatsView>::empty());
        assert(stats_views(out@).to_multiset().add(stats_views(rest@).to_multiset()) =~= stats_views(
            out@,
        ).to_multiset());
    }
    out
}

/// How far back samples are kept: the visible window and a tenth more.
pub open spec fn retention(draw_interval: u64) -> int {
    draw_interval as int * 11 / 10
}

/// The time before which samples may be discarded at `now`; none while the
/// retention reaches back beyond the epoch.
pub fn discard_point(now: u64, draw_interval: u64) -> (r: Option<u64>)
    ensures
        r == if retention(draw_interval) <= now {
            Some((now - retention(draw_interval)) as u64)
        } else {
            None::<u64>
        },
{
    let keep: u128 = (draw_interval as u128) * 11 / 10;
    if keep <= now as u128 {
        Some(now - (keep as u64))
    } else {
        None
    }
}

/// A key press: the character of the key, if it has one, and whether control
/// was the one modifier held.
#[derive(Clone, Copy, PartialEq, Eq, Structural, Debug)]
pub struct KeyPress {
    pub key: Option<char>,
    pub only_control: bool,
}

/// Whether the key press asks to quit: `q`, or `c` or `d` with control.
pub open spec fn quits(k: KeyPress) -> bool {
    k.key == Some('q') || (k.only_control && (k.key == Some('c') || k.key == Some('d')))
}

/// Whether the key press asks to quit.
pub fn is_quit(k: KeyPress) -> (r: bool)
    ensures
        r == quits(k),
{
    match k.key {
        Some(c) => c == 'q' || (k.only_control && (c == 'c' || c == 'd')),
        None => false,
    }
}

/// When the display is drawn.
#[derive(Clone, Copy, PartialEq, Eq, Structural, Debug)]
pub struct Driver {
    /// Whether something changed since the last drawing.
    pub redraw: bool,
    /// When the drawing clock was last reset.
    pub last_draw: u64,
}

impl Driver {
    /// A driver that draws at its first tick.
    pub fn new(now: u64) -> (r: Driver)
        ensures
            r == (Driver { redraw: true, last_draw: now }),
    {
        Driver { redraw: true, last_draw: now }
    }

    /// One turn of the loop at `now`; `changed` says whether the store took
    /// in anything that shows. Says whether to draw: when something changed
    /// since the last drawing, and in any case once more than a second has
    /// passed on the drawing clock.
    pub fn tick(&mut self, now: u64, changed: bool) -> (draw: bool)
        ensures
            draw == (old(self).redraw || changed || now - old(self).last_draw > SECOND),
            !final(self).redraw,
            final(self).last_draw == if now - old(self).last_draw > SECOND {
                now
            } else {
                old(self).last_draw
            },
    {
        let mut draw = self.redraw || changed;
        if now > self.last_draw && now - self.last_draw > SECOND {
            draw = true;
            self.last_draw = now;
        }
        self.redraw = false;
        draw
    }

    /// Takes in an input event: a key press, or nothing for any other event.
    /// Every event asks for a redraw; the result says whether to quit.
    pub fn input(&mut self, key: Option<KeyPress>) -> (quit: bool)
        ensures
            final(self).redraw,
            final(self).last_draw == old(self).last_draw,
            quit == (key matches Some(k) && quits(k)),
    {
        self.redraw = true;
        match key {
            Some(k) => is_quit(k),
            None => false,
        }
    }
}

/// Columns left of the chart that the axis labels take.
pub const CHART_MARGIN_X: u16 = 9;

/// Rows below the chart that the axis labels take.
pub const CHART_MARGIN_Y: u16 = 2;

/// The size of the plot inside an area of the screen, after the margins for
/// the axis labels; none if no more than two columns or rows are left.
pub fn plot_size(area_width: u16, area_height: u16) -> (r: Option<(u16, u16)>)
    ensures
        r == if area_width > CHART_MARGIN_X + 2 && area_height > CHART_MARGIN_Y + 2 {
            Some(((area_width - CHART_MARGIN_X) as u16, (area_height - CHART_MARGIN_Y) as u16))
        } else {
            None::<(u16, u16)>
        },
{
    let width = area_width.saturating_sub(CHART_MARGIN_X);
    let height = area_height.saturating_sub(CHART_MARGIN_Y);
    let least = if width < height { width } else { height };
    if least <= 2 {
        None
    } else {
        Some((width, height))
    }
}

/// The width of a bucket: two buckets to every column of the plot.
pub fn bucket_size(draw_interval: u64, width: u16) -> (r: u64)
    requires
        width > 0,
    ensures
        r == draw_interval as int / (width as int * 2),
{
    draw_interval / (width as u64 * 2)
}

/// Six hours: windows longer than this are labelled with dates.
pub const LONG_WINDOW: u64 = 21_600_000_000_000;

/// Whether the time labels carry the date.
pub fn long_time(draw_interval: u64) -> (r: bool)
    ensures
        r == (draw_interval > LONG_WINDOW),
{
    draw_interval > LONG_WINDOW
}

/// How many characters a time label takes.
pub fn date_length(long: bool) -> (r: u16)
    ensures
        r == if long { 19u16 } else { 8u16 },
{
    if long { 19 } else { 8 }
}

/// The space between two time labels.
pub const LABEL_SPACE: u16 = 5;

/// Column of time label `k`: the labels start at column 1 and stand one
/// label and one space apart.
pub open spec fn label_column(k: int, long: bool) -> int {
    if long { 1 + k * 24 } else { 1 + k * 13 }
}

/// The columns of the time labels that fit into `width` columns.
pub fn label_columns(width: u16, long: bool) -> (r: Vec<u16>)
    ensures
        forall|k: int| 0 <= k < r@.len() ==> r@[k] == label_column(k, long) && r@[k] <= width,
        label_column(r@.len() as int, long) > width,
{
    let step: u16 = date_length(long) + LABEL_SPACE;
    let mut out: Vec<u16> = Vec::new();
    let mut col: u32 = 1;
    while col <= width as u32
        invariant
            step == if long { 24u16 } else { 13u16 },
            col == label_column(out@.len() as int, long),
            out@.len() <= col,
            col <= width + step,
            forall|k: int| 0 <= k < out@.len() ==> out@[k] == label_column(k, long) && out@[k] <= width,
        decreases width + step - col,
    {
        let ghost k = out@.len() as int;
        proof {
            assert(label_column(k + 1, long) == label_column(k, long) + step);
        }
        let ghost prev = out@;
        out.push(col as u16);
        proof {
            assert(out@[k] == label_column(k, long));
            assert forall|j: int| 0 <= j < out@.len() implies out@[j] == label_column(j, long) && out@[j]
                <= width by {
                if j < k {
                    assert(out@[j] == prev[j]);
                }
            }
        }
        col = col + step as u32;
    }
    out
}

/// How long before now the label at `column` stands, in a plot of `width`
/// columns that shows `draw_interval`: the part of the window to its right.
pub fn label_age(draw_interval: u64, column: u16, width: u16) -> (r: u64)
    requires
        0 < width,
        column <= width,
    ensures
        r == draw_interval as int * (width - column) / (width as int),
{
    proof {
        let d = draw_interval as int;
        let w = width as int;
        let c = (width - column) as int;
        assert(0 <= d * c / w <= d) by (nonlinear_arith)
            requires
                0 <= c <= w,
                w > 0,
                d >= 0,
        ;
        assert(0 <= d * c <= 0xffff_ffff_ffff_ffff * 0xffff) by (nonlinear_arith)
            requires
                0 <= c <= 0xffff,
                0 <= d <= 0xffff_ffff_ffff_ffff,
        ;
    }
    let wide: u128 = (draw_interval as u128) * ((width - column) as u128) / (width as u128);
    wide as u64
}

/// How many steps the rate axis is labelled in.
pub fn rate_label_steps(height: u16) -> (r: u16)
    ensures
        r == if height / 10 > 1 { (height / 10) as u16 } else { 1u16 },
{
    let tenth = height / 10;
    if tenth > 1 { tenth } else { 1 }
}


/// A calendar date and time of day.
#[derive(Clone, Copy, PartialEq, Eq, Structural, Debug)]
pub struct DateTime {
    pub year: i32,
    pub month: u32,
    pub day: u32,
    pub hour: u32,
    pub minute: u32,
    pub second: u32,
}

/// The year in at least four characters, the sign of a negative year among
/// them.
pub open spec fn year_text(year: i32) -> Seq<char> {
    if year >= 0 {
        padded(digits(year as nat), 4)
    } else {
        seq!['-'] + padded(digits((-year) as nat), 3)
    }
}

/// The time of day as `hh:mm:ss`.
pub open spec fn clock_text(t: DateTime) -> Seq<char> {
    padded(digits(t.hour as nat), 2) + seq![':'] + padded(digits(t.minute as nat), 2) + seq![':'] + padded(
        digits(t.second as nat),
        2,
    )
}

/// The date as `yyyy-mm-dd`.
pub open spec fn date_text(t: DateTime) -> Seq<char> {
    year_text(t.year) + seq!['-'] + padded(digits(t.month as nat), 2) + seq!['-'] + padded(
        digits(t.day as nat),
        2,
    )
}

/// The label of a time: the time of day, with the date before it if `long`.
pub open spec fn time_text(t: DateTime, long: bool) -> Seq<char> {
    if long {
        date_text(t) + seq![' '] + clock_text(t)
    } else {
        clock_text(t)
    }
}

/// Writes the label of a time.
pub fn format_time(time: DateTime, long: bool) -> (r: String)
    ensures
        r@ == time_text(time, long),
{
    proof {
        reveal_strlit(":");
        reveal_strlit("-");
        reveal_strlit(" ");
        assert(":"@ =~= seq![':']);
        assert("-"@ =~= seq!['-']);
        assert(" "@ =~= seq![' ']);
    }
    let mut r = String::new();
    if long {
        if time.year >= 0 {
            r.append(zero_padded(time.year as u32, 4).as_str());
        } else {
            r.append("-");
            let below: u32 = (-(time.year as i64)) as u32;
            r.append(zero_padded(below, 3).as_str());
        }
        r.append("-");
        r.append(zero_padded(time.month, 2).as_str());
        r.append("-");
        r.append(zero_padded(time.day, 2).as_str());
        r.append(" ");
        proof {
            assert(r@ =~= date_text(time) + seq![' ']);
        }
    }
    let ghost head = r@;
    r.append(zero_padded(time.hour, 2).as_str());
    r.append(":");
    r.append(zero_padded(time.minute, 2).as_str());
    r.append(":");
    r.append(zero_padded(time.second, 2).as_str());
    proof {
        assert(r@ =~= head + clock_text(time));
        assert(r@ =~= time_text(time, long));
    }
    r
}

} // verus!
