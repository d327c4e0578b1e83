//! Which of the busiest topics is drawn in which color.

use vstd::prelude::*;
use crate::stats::{Topic, TopicStats, TopicStatsView, stats_views};

verus! {

/// A color of the palette.
#[derive(Debug, Clone, Copy, PartialEq, Eq, Structural, Hash)]
pub enum LineColor {
    Blue,
    Yellow,
    Red,
    Green,
    Magenta,
    Cyan,
    White,
}

/// A color to draw in: one of the palette, or the neutral gray.
#[derive(Debug, Clone, Copy, PartialEq, Eq, Structural, Hash)]
pub enum Color {
    Gray,
    Blue,
    Yellow,
    Red,
    Green,
    Magenta,
    Cyan,
    White,
}

/// The palette, in the order its colors are handed out.
pub open spec fn palette() -> Seq<LineColor> {
    seq![
        LineColor::Blue,
        LineColor::Yellow,
        LineColor::Red,
        LineColor::Green,
        LineColor::Magenta,
        LineColor::Cyan,
        LineColor::White,
    ]
}

/// The color to draw a palette color in.
pub open spec fn shade(c: LineColor) -> Color {
    match c {
        LineColor::Blue => Color::Blue,
        LineColor::Yellow => Color::Yellow,
        LineColor::Red => Color::Red,
        LineColor::Green => Color::Green,
        LineColor::Magenta => Color::Magenta,
        LineColor::Cyan => Color::Cyan,
        LineColor::White => Color::White,
    }
}

impl LineColor {
    /// The whole palette.
    pub fn all_variants() -> (r: Vec<LineColor>)
        ensures
            r@ == palette(),
    {
        let mut r: Vec<LineColor> = Vec::new();
        r.push(LineColor::Blue);
        r.push(LineColor::Yellow);
        r.push(LineColor::Red);
        r.push(LineColor::Green);
        r.push(LineColor::Magenta);
        r.push(LineColor::Cyan);
        r.push(LineColor::White);
        proof {
            assert(r@ =~= palette());
        }
        r
    }

    /// The color to draw this palette color in.
    pub fn into(self) -> (r: Color)
        ensures
            r == shade(self),
    {
        match self {
            LineColor::Blue => Color::Blue,
            LineColor::Yellow => Color::Yellow,
            LineColor::Red => Color::Red,
            LineColor::Green => Color::Green,
            LineColor::Magenta => Color::Magenta,
            LineColor::Cyan => Color::Cyan,
            LineColor::White => Color::White,
        }
    }
}

/// One topic and the color it is drawn in.
pub struct Assigned {
    pub topic: (Seq<char>, usize),
    pub color: LineColor,
}

/// Whether the topic has a color.
pub open spec fn has_color(a: Seq<Assigned>, t: (Seq<char>, usize)) -> bool {
    exists|i: int| 0 <= i < a.len() && (#[trigger] a[i]).topic == t
}

/// The color of a topic that has one.
pub open spec fn color_of(a: Seq<Assigned>, t: (Seq<char>, usize)) -> LineColor {
    a[choose|i: int| 0 <= i < a.len() && (#[trigger] a[i]).topic == t].color
}

/// No topic has two colors and no color goes to two topics.
pub open spec fn distinct(a: Seq<Assigned>) -> bool {
    forall|i: int, j: int| 0 <= i < j < a.len() ==> a[i].topic != a[j].topic && a[i].color != a[j].color
}

/// Whether the topic is among the first `m` entries of the statistics, has
/// seen messages and is a live generation.
pub open spec fn top_dog_within(stats: Seq<TopicStatsView>, m: int, t: (Seq<char>, usize)) -> bool {
    exists|k: int| 0 <= k < m && #[trigger] is_dog_at(stats, k, t)
}

/// Whether entry `k` of the statistics is the topic, has seen messages and is
/// a live generation.
pub open spec fn is_dog_at(stats: Seq<TopicStatsView>, k: int, t: (Seq<char>, usize)) -> bool {
    0 <= k < stats.len() && stats[k].topic == t && stats[k].seen > 0 && t.1 == 0
}

/// Whether the topic earns a color: it is among the first entries of the
/// statistics, as many as the palette has colors, has seen messages and is a
/// live generation.
pub open spec fn top_dog(stats: Seq<TopicStatsView>, t: (Seq<char>, usize)) -> bool {
    top_dog_within(stats, 7, t)
}

/// The colors of the topics that have one.
pub struct ColorAssignment {
    inner: Vec<(Topic, LineColor)>,
}

impl View for ColorAssignment {
    type V = Seq<Assigned>;

    closed spec fn view(&self) -> Seq<Assigned> {
        entries(self.inner@)
    }
}

spec fn entries(v: Seq<(Topic, LineColor)>) -> Seq<Assigned> {
    Seq::new(v.len(), |i: int| Assigned { topic: v[i].0@, color: v[i].1 })
}

spec fn topic_views(v: Seq<Topic>) -> Seq<(Seq<char>, usize)> {
    Seq::new(v.len(), |i: int| v[i]@)
}

/// A list without repeats, all of whose items occur in another list, is no
/// longer than that list.
proof fn lemma_distinct_within<A>(a: Seq<A>, b: Seq<A>)
    requires
        a.no_duplicates(),
        forall|i: int| 0 <= i < a.len() ==> b.contains(#[trigger] a[i]),
    ensures
        a.len() <= b.len(),
{
    broadcast use vstd::seq_lib::seq_to_set_is_finite;

    a.unique_seq_to_set();
    b.lemma_cardinality_of_set();
    assert(a.to_set().subset_of(b.to_set())) by {
        assert forall|x: A| a.to_set().contains(x) implies b.to_set().contains(x) by {
            let i = choose|i: int| 0 <= i < a.len() && a[i] == x;
            assert(b.contains(a[i]));
        }
    }
    vstd::set_lib::lemma_len_subset(a.to_set(), b.to_set());
}

fn same_topic(a: &Topic, b: &Topic) -> (r: bool)
    ensures
        r == (a@ == b@),
{
    a.stat_idx == b.stat_idx && a.name == b.name
}

fn copy_topic(t: &Topic) -> (r: Topic)
    ensures
        r@ == t@,
{
    Topic { name: t.name.clone(), stat_idx: t.stat_idx }
}

fn find_topic(list: &Vec<Topic>, t: &Topic) -> (r: bool)
    ensures
        r == topic_views(list@).contains(t@),
{
    let n = list.len();
    let mut i: usize = 0;
    while i < n
        invariant
            n == list@.len(),
            i <= n,
            forall|j: int| 0 <= j < i ==> topic_views(list@)[j] != t@,
        decreases n - i,
    {
        if same_topic(&list[i], t) {
            proof {
                assert(topic_views(list@)[i as int] == t@);
            }
            return true;
        }
        i = i + 1;
    }
    false
}

fn find_entry(list: &Vec<(Topic, LineColor)>, t: &Topic) -> (r: Option<usize>)
    ensures
        match r {
            Some(i) => i < list@.len() && entries(list@)[i as int].topic == t@,
            None => !has_color(entries(list@), t@),
        },
{
    let n = list.len();
    let mut i: usize = 0;
    while i < n
        invariant
            n == list@.len(),
            i <= n,
            forall|j: int| 0 <= j < i ==> entries(list@)[j].topic != t@,
        decreases n - i,
    {
        if same_topic(&list[i].0, t) {
            return Some(i);
        }
        i = i + 1;
    }
    None
}

/// Whether some entry uses the color.
spec fn uses(a: Seq<Assigned>, c: LineColor) -> bool {
    exists|i: int| 0 <= i < a.len() && (#[trigger] a[i]).color == c
}

fn color_used(list: &Vec<(Topic, LineColor)>, c: LineColor) -> (r: bool)
    ensures
        r == uses(entries(list@), c),
{
    let n = list.len();
    let mut i: usize = 0;
    while i < n
        invariant
            n == list@.len(),
            i <= n,
            forall|j: int| 0 <= j < i ==> (#[trigger] entries(list@)[j]).color != c,
        decreases n - i,
    {
        if list[i].1 == c {
            proof {
                assert(entries(list@)[i as int].color == c);
            }
            return true;
        }
        i = i + 1;
    }
    false
}

/// The first color of the palette that no entry uses.
fn free_color(list: &Vec<(Topic, LineColor)>) -> (c: LineColor)
    requires
        distinct(entries(list@)),
        list@.len() < 7,
    ensures
        forall|i: int| 0 <= i < list@.len() ==> (#[trigger] entries(list@)[i]).color != c,
{
    let colors = LineColor::all_variants();
    let mut k: usize = 0;
    while k < 7
        invariant
            colors@ == palette(),
            k <= 7,
            forall|j: int| 0 <= j < k ==> uses(entries(list@), #[trigger] palette()[j]),
        decreases 7 - k,
    {
        if !color_used(list, colors[k]) {
            return colors[k];
        }
        k = k + 1;
    }
    proof {
        let used = Seq::new(list@.len(), |i: int| entries(list@)[i].color);
        assert(palette().no_duplicates());
        assert forall|j: int| 0 <= j < palette().len() implies used.contains(#[trigger] palette()[j]) by {
            assert(uses(entries(list@), palette()[j]));
            let i = choose|i: int| 0 <= i < list@.len() && (#[trigger] entries(list@)[i]).color == palette()[j];
            assert(used[i] == palette()[j]);
        }
        lemma_distinct_within(palette(), used);
        assert(false);
    }
    LineColor::White
}

proof fn lemma_push_contains<A>(s: Seq<A>, a: A, t: A)
    ensures
        s.push(a).contains(t) <==> s.contains(t) || t == a,
{
    if s.push(a).contains(t) {
        let i = choose|i: int| 0 <= i < s.push(a).len() && s.push(a)[i] == t;
        if i < s.len() {
            assert(s[i] == t);
        }
    }
    if s.contains(t) {
        let i = choose|i: int| 0 <= i < s.len() && s[i] == t;
        assert(s.push(a)[i] == t);
    }
    if t == a {
        assert(s.push(a)[s.len() as int] == t);
    }
}

proof fn lemma_dog_step(stats: Seq<TopicStatsView>, m: int, t: (Seq<char>, usize))
    requires
        0 <= m,
    ensures
        top_dog_within(stats, m + 1, t) <==> top_dog_within(stats, m, t) || is_dog_at(stats, m, t),
{
    if top_dog_within(stats, m + 1, t) {
        let k = choose|k: int| 0 <= k < m + 1 && #[trigger] is_dog_at(stats, k, t);
        if k < m {
            assert(top_dog_within(stats, m, t));
        }
    }
    if top_dog_within(stats, m, t) {
        let k = choose|k: int| 0 <= k < m && #[trigger] is_dog_at(stats, k, t);
        assert(is_dog_at(stats, k, t));
    }
}

proof fn lemma_dog_bound(stats: Seq<TopicStatsView>, m: int, t: (Seq<char>, usize))
    requires
        m >= stats.len() || m >= 7,
    ensures
        top_dog_within(stats, m, t) ==> m >= 7 || top_dog_within(stats, 7, t),
        top_dog_within(stats, 7, t) && m <= 7 ==> top_dog_within(stats, m, t),
{
    if top_dog_within(stats, m, t) && m < 7 {
        let k = choose|k: int| 0 <= k < m && #[trigger] is_dog_at(stats, k, t);
        assert(is_dog_at(stats, k, t));
    }
    if top_dog_within(stats, 7, t) && m <= 7 {
        let k = choose|k: int| 0 <= k < 7 && #[trigger] is_dog_at(stats, k, t);
        assert(is_dog_at(stats, k, t));
    }
}

/// In a list where no topic occurs twice, the color of a topic is the color
/// of the entry that names it.
proof fn lemma_color_at(a: Seq<Assigned>, i: int)
    requires
        distinct(a),
        0 <= i < a.len(),
    ensures
        has_color(a, a[i].topic),
        color_of(a, a[i].topic) == a[i].color,
{
    let t = a[i].topic;
    let c = choose|c: int| 0 <= c < a.len() && (#[trigger] a[c]).topic == t;
    if c < i {
        assert(a[c].topic != a[i].topic);
    }
    if i < c {
        assert(a[i].topic != a[c].topic);
    }
}

/// The topics that earn a color, each once.
fn top_dogs(basestats: &Vec<TopicStats>) -> (dogs: Vec<Topic>)
    ensures
        topic_views(dogs@).no_duplicates(),
        dogs@.len() <= 7,
        forall|t: (Seq<char>, usize)|
            #![trigger topic_views(dogs@).contains(t)]
            #![trigger top_dog(stats_views(basestats@), t)]
            topic_views(dogs@).contains(t) <==> top_dog(stats_views(basestats@), t),
{
    let ghost stats = stats_views(basestats@);
    let mut dogs: Vec<Topic> = Vec::new();
    let n = basestats.len();
    let mut i: usize = 0;
    proof {
        assert forall|t: (Seq<char>, usize)|
            #![trigger topic_views(dogs@).contains(t)]
            #![trigger top_dog_within(stats, 0, t)]
            topic_views(dogs@).contains(t) <==> top_dog_within(stats, 0, t) by {}
    }
    while i < n && i < 7
        invariant
            n == basestats@.len(),
            stats == stats_views(basestats@),
            i <= n,
            i <= 7,
            dogs@.len() <= i,
            topic_views(dogs@).no_duplicates(),
            forall|t: (Seq<char>, usize)|
                #![trigger topic_views(dogs@).contains(t)]
                #![trigger top_dog_within(stats, i as int, t)]
                topic_views(dogs@).contains(t) <==> top_dog_within(stats, i as int, t),
        decreases n - i,
    {
        let s = &basestats[i];
        let ghost prev = topic_views(dogs@);
        let ghost sv = s.topic@;
        proof {
            assert(stats[i as int] == s@);
        }
        let fresh = s.seen > 0 && s.topic.stat_idx == 0 && !find_topic(&dogs, &s.topic);
        if fresh {
            dogs.push(copy_topic(&s.topic));
            proof {
                assert(topic_views(dogs@) =~= prev.push(sv));
            }
        }
        proof {
            let cur = topic_views(dogs@);
            assert forall|t: (Seq<char>, usize)|
                #![trigger cur.contains(t)]
                #![trigger top_dog_within(stats, i + 1, t)]
                cur.contains(t) <==> top_dog_within(stats, i + 1, t) by {
                lemma_dog_step(stats, i as int, t);
                assert(prev.contains(t) <==> top_dog_within(stats, i as int, t));
                if fresh {
                    lemma_push_contains(prev, sv, t);
                }
            }
        }
        i = i + 1;
    }
    proof {
        assert forall|t: (Seq<char>, usize)|
            #![trigger topic_views(dogs@).contains(t)]
            #![trigger top_dog(stats, t)]
            topic_views(dogs@).contains(t) <==> top_dog(stats, t) by {
            assert(topic_views(dogs@).contains(t) <==> top_dog_within(stats, i as int, t));
            if i < 7 {
                lemma_dog_bound(stats, i as int, t);
            }
        }
    }
    dogs
}

/// The entries whose topic is among `dogs`, in their old order.
fn keep_dogs(inner: &Vec<(Topic, LineColor)>, dogs: &Vec<Topic>) -> (kept: Vec<(Topic, LineColor)>)
    requires
        distinct(entries(inner@)),
    ensures
        distinct(entries(kept@)),
        forall|x: Assigned| #[trigger]
            entries(kept@).contains(x) <==> entries(inner@).contains(x) && topic_views(dogs@).contains(
                x.topic,
            ),
{
    let ghost before = entries(inner@);
    let mut kept: Vec<(Topic, LineColor)> = Vec::new();
    let m = inner.len();
    let mut j: usize = 0;
    proof {
        assert(before.take(0) =~= Seq::<Assigned>::empty());
    }
    while j < m
        invariant
            m == inner@.len(),
            before == entries(inner@),
            distinct(before),
            j <= m,
            distinct(entries(kept@)),
            forall|x: Assigned| #[trigger]
                entries(kept@).contains(x) <==> before.take(j as int).contains(x) && topic_views(
                    dogs@,
                ).contains(x.topic),
        decreases m - j,
    {
        let ghost prev = entries(kept@);
        let ghost e = before[j as int];
        let keep = find_topic(dogs, &inner[j].0);
        if keep {
            kept.push((copy_topic(&inner[j].0), inner[j].1));
            proof {
                let cur = entries(kept@);
                assert(cur =~= prev.push(e));
                assert forall|x: int, y: int| 0 <= x < y < cur.len() implies cur[x].topic != cur[y].topic
                    && cur[x].color != cur[y].color by {
                    if y == prev.len() {
                        assert(cur[x] == prev[x]);
                        assert(prev.contains(prev[x]));
                        assert(before.take(j as int).contains(prev[x]));
                        let b = choose|b: int| 0 <= b < j && before.take(j as int)[b] == prev[x];
                        assert(before[b] == prev[x]);
                        assert(before[b].topic != before[j as int].topic);
                    } else {
                        assert(cur[x] == prev[x] && cur[y] == prev[y]);
                    }
                }
            }
        }
        proof {
            let cur = entries(kept@);
            assert(before.take(j + 1) =~= before.take(j as int).push(e));
            assert forall|x: Assigned| #[trigger]
                cur.contains(x) <==> before.take(j + 1).contains(x) && topic_views(dogs@).contains(
                    x.topic,
                ) by {
                lemma_push_contains(before.take(j as int), e, x);
                assert(prev.contains(x) <==> before.take(j as int).contains(x) && topic_views(dogs@).contains(
                    x.topic,
                ));
                if keep {
                    lemma_push_contains(prev, e, x);
                }
            }
        }
        j = j + 1;
    }
    proof {
        assert(before.take(m as int) =~= before);
    }
    kept
}

/// Gives the next topic of `dogs` a free color unless it has one.
fn color_dog(kept: &mut Vec<(Topic, LineColor)>, dogs: &Vec<Topic>, k: usize)
    requires
        k < dogs@.len(),
        dogs@.len() <= 7,
        topic_views(dogs@).no_duplicates(),
        distinct(entries(old(kept)@)),
        forall|x: Assigned| #[trigger]
            entries(old(kept)@).contains(x) ==> topic_views(dogs@).contains(x.topic),
    ensures
        distinct(entries(final(kept)@)),
        has_color(entries(final(kept)@), topic_views(dogs@)[k as int]),
        forall|x: Assigned| #[trigger]
            entries(final(kept)@).contains(x) ==> entries(old(kept)@).contains(x) || (x.topic == topic_views(
                dogs@,
            )[k as int] && !has_color(entries(old(kept)@), x.topic)),
        forall|x: Assigned| #[trigger]
            entries(old(kept)@).contains(x) ==> entries(final(kept)@).contains(x),
{
    let ghost prev = entries(kept@);
    let ghost dv = topic_views(dogs@)[k as int];
    match find_entry(kept, &dogs[k]) {
        Some(i) => {
            proof {
                assert(prev[i as int].topic == dv);
            }
        },
        None => {
            proof {
                // The topics that hold a color and this one are all different
                // and all earn a color, so they are fewer than the colors.
                let held = Seq::new(prev.len(), |x: int| prev[x].topic).push(dv);
                assert forall|x: int, y: int|
                    0 <= x < held.len() && 0 <= y < held.len() && x != y implies held[x] != held[y] by {
                    if x < prev.len() && y < prev.len() {
                        if x < y {
                            assert(prev[x].topic != prev[y].topic);
                        } else {
                            assert(prev[y].topic != prev[x].topic);
                        }
                    } else if x < prev.len() {
                        assert(prev[x].topic != dv);
                    } else {
                        assert(prev[y].topic != dv);
                    }
                }
                assert forall|x: int| 0 <= x < held.len() implies topic_views(dogs@).contains(
                    #[trigger] held[x],
                ) by {
                    if x < prev.len() {
                        assert(prev.contains(prev[x]));
                    } else {
                        assert(topic_views(dogs@)[k as int] == dv);
                    }
                }
                lemma_distinct_within(held, topic_views(dogs@));
            }
            let c = free_color(kept);
            kept.push((copy_topic(&dogs[k]), c));
            proof {
                let cur = entries(kept@);
                let e = Assigned { topic: dv, color: c };
                assert(cur =~= prev.push(e));
                assert forall|x: int, y: int| 0 <= x < y < cur.len() implies cur[x].topic != cur[y].topic
                    && cur[x].color != cur[y].color by {
                    if y == prev.len() {
                        assert(cur[x] == prev[x]);
                    } else {
                        assert(cur[x] == prev[x] && cur[y] == prev[y]);
                    }
                }
                assert(cur[prev.len() as int].topic == dv);
                assert forall|x: Assigned| #[trigger] cur.contains(x) implies prev.contains(x) || (x.topic == dv
                    && !has_color(prev, x.topic)) by {
                    lemma_push_contains(prev, e, x);
                }
                assert forall|x: Assigned| #[trigger] prev.contains(x) implies cur.contains(x) by {
                    lemma_push_contains(prev, e, x);
                }
            }
        },
    }
}

impl ColorAssignment {
    /// No topic has a color.
    pub fn new() -> (r: ColorAssignment)
        ensures
            r@.len() == 0,
            distinct(r@),
    {
        ColorAssignment { inner: Vec::new() }
    }

    /// Brings the colors up to date with the statistics, which are expected
    /// busiest first.
    ///
    /// Afterwards exactly the topics that earn a color have one. A topic that
    /// had a color and still earns one keeps it; the others get colors that
    /// nobody else holds.
    pub fn compute(&mut self, basestats: &Vec<TopicStats>)
        requires
            distinct(old(self)@),
        ensures
            distinct(final(self)@),
            forall|t: (Seq<char>, usize)|
                has_color(final(self)@, t) <==> top_dog(stats_views(basestats@), t),
            forall|t: (Seq<char>, usize)|
                has_color(old(self)@, t) && has_color(final(self)@, t) ==> color_of(final(self)@, t)
                    == color_of(old(self)@, t),
    {
        let ghost before = self@;
        let ghost stats = stats_views(basestats@);
        let dogs = top_dogs(basestats);
        let mut kept = keep_dogs(&self.inner, &dogs);
        let d = dogs.len();
        let mut k: usize = 0;
        while k < d
            invariant
                d == dogs@.len(),
                d <= 7,
                k <= d,
                topic_views(dogs@).no_duplicates(),
                distinct(before),
                distinct(entries(kept@)),
                forall|x: Assigned| #[trigger]
                    entries(kept@).contains(x) ==> topic_views(dogs@).contains(x.topic),
                forall|x: Assigned| #[trigger]
                    entries(kept@).contains(x) ==> before.contains(x) || !has_color(before, x.topic),
                forall|x: Assigned|
                    before.contains(x) && topic_views(dogs@).contains(x.topic) ==> #[trigger] entries(
                        kept@,
                    ).contains(x),
                forall|y: int| 0 <= y < k ==> has_color(entries(kept@), #[trigger] topic_views(dogs@)[y]),
            decreases d - k,
        {
            let ghost prev = entries(kept@);
            color_dog(&mut kept, &dogs, k);
            proof {
                let cur = entries(kept@);
                let dv = topic_views(dogs@)[k as int];
                assert(topic_views(dogs@).contains(dv));
                assert forall|x: Assigned| #[trigger] cur.contains(x) implies before.contains(x) || !has_color(
                    before,
                    x.topic,
                ) by {
                    if !prev.contains(x) && has_color(before, x.topic) {
                        // An entry of this topic would have been kept.
                        let b = choose|b: int| 0 <= b < before.len() && (#[trigger] before[b]).topic == x.topic;
                        assert(before.contains(before[b]));
                        assert(prev.contains(before[b]));
                        let p = choose|p: int| 0 <= p < prev.len() && prev[p] == before[b];
                        assert(prev[p].topic == x.topic);
                    }
                }
                assert forall|x: Assigned|
                    before.contains(x) && topic_views(dogs@).contains(x.topic) implies #[trigger] cur.contains(
                    x,
                ) by {
                    assert(prev.contains(x));
                }
                assert forall|y: int| 0 <= y < k + 1 implies has_color(cur, #[trigger] topic_views(dogs@)[y]) by {
                    if y < k {
                        let t = topic_views(dogs@)[y];
                        let p = choose|p: int| 0 <= p < prev.len() && (#[trigger] prev[p]).topic == t;
                        assert(prev.contains(prev[p]));
                        assert(cur.contains(prev[p]));
                        let q = choose|q: int| 0 <= q < cur.len() && cur[q] == prev[p];
                        assert(cur[q].topic == t);
                    }
                }
            }
            k = k + 1;
        }
        self.inner = kept;
        proof {
            let after = self@;
            assert forall|t: (Seq<char>, usize)| has_color(after, t) <==> top_dog(stats, t) by {
                if has_color(after, t) {
                    let x = choose|x: int| 0 <= x < after.len() && (#[trigger] after[x]).topic == t;
                    assert(after.contains(after[x]));
                    assert(topic_views(dogs@).contains(t));
                }
                if top_dog(stats, t) {
                    assert(topic_views(dogs@).contains(t));
                    let y = choose|y: int| 0 <= y < d && topic_views(dogs@)[y] == t;
                    assert(has_color(after, topic_views(dogs@)[y]));
                }
            }
            assert forall|t: (Seq<char>, usize)| has_color(before, t) && has_color(after, t) implies color_of(
                after,
                t,
            ) == color_of(before, t) by {
                let x = choose|x: int| 0 <= x < after.len() && (#[trigger] after[x]).topic == t;
                assert(after.contains(after[x]));
                assert(before.contains(after[x]));
                let b = choose|b: int| 0 <= b < before.len() && before[b] == after[x];
                lemma_color_at(after, x);
                lemma_color_at(before, b);
            }
        }
    }

    /// The color to draw the topic in: its own, or gray if it has none.
    pub fn get(&self, topic: &Topic) -> (r: Color)
        requires
            distinct(self@),
        ensures
            r == if has_color(self@, topic@) { shade(color_of(self@, topic@)) } else { Color::Gray },
    {
        match find_entry(&self.inner, topic) {
            Some(i) => {
                proof {
                    let a = self@;
                    let c = choose|c: int| 0 <= c < a.len() && (#[trigger] a[c]).topic == topic@;
                    if c < i {
                        assert(a[c].topic != a[i as int].topic);
                    }
                    if i < c {
                        assert(a[i as int].topic != a[c].topic);
                    }
                }
                self.inner[i].1.into()
            },
            None => Color::Gray,
        }
    }

    /// The names of the topics that have a color.
    pub fn colored_topic_names(&self) -> (r: Vec<String>)
        ensures
            r@.len() == self@.len(),
            forall|i: int| 0 <= i < r@.len() ==> (#[trigger] r@[i])@ == self@[i].topic.0,
    {
        let mut out: Vec<String> = Vec::new();
        let n = self.inner.len();
        let mut i: usize = 0;
        while i < n
            invariant
                n == self.inner@.len(),
                i <= n,
                out@.len() == i,
                forall|j: int| 0 <= j < i ==> (#[trigger] out@[j])@ == self@[j].topic.0,
            decreases n - i,
        {
            out.push(self.inner[i].0.name.clone());
            i = i + 1;
        }
        out
    }

    /// How many topics have a color.
    pub fn len(&self) -> (r: usize)
        ensures
            r == self@.len(),
    {
        self.inner.len()
    }
}

} // verus!
