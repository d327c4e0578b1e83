//! The statistics store: per-topic offset histories, split into generations
//! wherever a topic was found reset.

use vstd::prelude::*;
use vstd::set_lib::{lemma_int_range, lemma_len_subset, set_int_range};
use crate::bucket::{Share, history_shares, push_history_shares, lemma_shares_nonnegative};
use crate::polls::{
    Sample, increasing, monotone, latest, put, retained, newest, record, discard, lemma_put_increasing,
    lemma_put_monotone, lemma_retained,
};
use crate::scrape::{Message, MessageView, message_views};

verus! {

/// One incarnation of a topic: `stat_idx` 0 is the live one, 1 the one before
/// it, and so on.
#[derive(Debug, Clone, PartialEq, Eq, Hash)]
pub struct Topic {
    pub name: String,
    pub stat_idx: usize,
}

impl View for Topic {
    type V = (Seq<char>, usize);

    open spec fn view(&self) -> (Seq<char>, usize) {
        (self.name@, self.stat_idx)
    }
}

/// The samples of one partition.
#[derive(Debug)]
pub struct Partition {
    id: i32,
    polls: Vec<Sample>,
}

/// A partition as its id and its samples in time order.
pub struct PartitionView {
    pub id: i32,
    pub polls: Seq<Sample>,
}

impl View for Partition {
    type V = PartitionView;

    closed spec fn view(&self) -> PartitionView {
        PartitionView { id: self.id, polls: self.polls@ }
    }
}

/// The history of one generation of a topic.
#[derive(Debug)]
pub struct TopicData {
    partitions: Vec<Partition>,
    scraped_interval: Option<(u64, u64)>,
    decreased: usize,
    scraped: usize,
}

/// A generation as plain data.
pub struct TopicDataView {
    /// The partitions seen so far, in the order they were first seen.
    pub partitions: Seq<PartitionView>,
    /// When the first and the latest healthy round ended.
    pub scraped_interval: Option<(u64, u64)>,
    /// Samples of the current round that were rejected for going backwards.
    pub decreased: usize,
    /// Samples of the current round, rejected or not.
    pub scraped: usize,
}

/// A counter one step further; it stays at the top of its range.
pub open spec fn bump(n: usize) -> usize {
    if n < usize::MAX { (n + 1) as usize } else { n }
}

impl TopicDataView {
    /// A generation that has seen nothing.
    pub open spec fn empty() -> TopicDataView {
        TopicDataView { partitions: Seq::empty(), scraped_interval: None, decreased: 0, scraped: 0 }
    }

    /// Every history is in time order and no partition occurs twice.
    pub open spec fn wf(self) -> bool {
        &&& forall|i: int| 0 <= i < self.partitions.len() ==> increasing(#[trigger] self.partitions[i].polls)
        &&& forall|i: int, j: int|
            0 <= i < j < self.partitions.len() ==> self.partitions[i].id != self.partitions[j].id
    }

    /// Whether partition `id` has been seen.
    pub open spec fn has(self, id: i32) -> bool {
        exists|i: int| 0 <= i < self.partitions.len() && #[trigger] self.partitions[i].id == id
    }

    /// Where partition `id` is kept, if it has been seen.
    pub open spec fn slot(self, id: i32) -> int {
        choose|i: int| 0 <= i < self.partitions.len() && #[trigger] self.partitions[i].id == id
    }

    /// The samples of partition `id`; none if it has not been seen.
    pub open spec fn polls(self, id: i32) -> Seq<Sample> {
        if self.has(id) { self.partitions[self.slot(id)].polls } else { Seq::empty() }
    }

    /// Whether a sample with `offset` would take partition `id` backwards.
    pub open spec fn goes_back(self, id: i32, offset: i64) -> bool {
        latest(self.polls(id)) matches Some(l) && l.offset > offset
    }

    /// The generation after a sample for partition `id` came in. A sample
    /// below the partition's latest offset is counted and dropped; any other
    /// is recorded.
    pub open spec fn record(self, id: i32, s: Sample) -> TopicDataView {
        if self.goes_back(id, s.offset) {
            TopicDataView { decreased: bump(self.decreased), scraped: bump(self.scraped), ..self }
        } else if self.has(id) {
            TopicDataView {
                partitions: self.partitions.update(
                    self.slot(id),
                    PartitionView { id, polls: put(self.polls(id), s) },
                ),
                scraped: bump(self.scraped),
                ..self
            }
        } else {
            TopicDataView {
                partitions: self.partitions.push(PartitionView { id, polls: seq![s] }),
                scraped: bump(self.scraped),
                ..self
            }
        }
    }

    /// Whether the round was healthy: at most half of the partitions went
    /// backwards.
    pub open spec fn healthy(self) -> bool {
        self.decreased <= self.partitions.len() / 2
    }

    /// The generation after a healthy round that ended at `t`.
    pub open spec fn commit(self, t: u64) -> TopicDataView {
        TopicDataView {
            scraped_interval: Some(
                (
                    match self.scraped_interval {
                        Some(iv) => iv.0,
                        None => t,
                    },
                    t,
                ),
            ),
            decreased: 0,
            scraped: 0,
            ..self
        }
    }

    /// The generation with every history cut down to what was taken at
    /// `cutoff` or later.
    pub open spec fn discard(self, cutoff: u64) -> TopicDataView {
        TopicDataView {
            partitions: Seq::new(
                self.partitions.len(),
                |i: int|
                    PartitionView {
                        id: self.partitions[i].id,
                        polls: retained(self.partitions[i].polls, cutoff),
                    },
            ),
            ..self
        }
    }
}

impl View for TopicData {
    type V = TopicDataView;

    closed spec fn view(&self) -> TopicDataView {
        TopicDataView {
            partitions: self.partitions@.map_values(|p: Partition| p@),
            scraped_interval: self.scraped_interval,
            decreased: self.decreased,
            scraped: self.scraped,
        }
    }
}

impl Default for TopicData {
    fn default() -> (r: TopicData)
        ensures
            r@ == TopicDataView::empty(),
    {
        let r = TopicData { partitions: Vec::new(), scraped_interval: None, decreased: 0, scraped: 0 };
        proof {
            assert(r@.partitions =~= Seq::empty());
        }
        r
    }
}

impl TopicData {
    /// Index of partition `id`, if it has been seen.
    fn find(&self, id: i32) -> (r: Option<usize>)
        requires
            self@.wf(),
        ensures
            match r {
                Some(i) => self@.has(id) && self@.slot(id) == i && i < self@.partitions.len(),
                None => !self@.has(id),
            },
    {
        let n = self.partitions.len();
        let mut i: usize = 0;
        while i < n
            invariant
                self@.wf(),
                n == self.partitions@.len(),
                i <= n,
                forall|j: int| 0 <= j < i ==> self@.partitions[j].id != id,
            decreases n - i,
        {
            if self.partitions[i].id == id {
                proof {
                    assert(self@.partitions[i as int].id == id);
                }
                return Some(i);
            }
            i = i + 1;
        }
        None
    }

    /// Takes in one sample for partition `id`.
    pub fn ingest(&mut self, id: i32, s: Sample)
        requires
            old(self)@.wf(),
        ensures
            final(self)@ == old(self)@.record(id, s),
            final(self)@.wf(),
    {
        let ghost before = self@;
        match self.find(id) {
            Some(i) => {
                let back = match newest(&self.partitions[i].polls) {
                    Some(l) => l.offset > s.offset,
                    None => false,
                };
                assert(back == before.goes_back(id, s.offset));
                if back {
                    if self.decreased < usize::MAX {
                        self.decreased = self.decreased + 1;
                    }
                } else {
                    record(&mut self.partitions[i].polls, s);
                    proof {
                        assert(self@.partitions =~= before.partitions.update(
                            i as int,
                            PartitionView { id, polls: put(before.polls(id), s) },
                        ));
                    }
                }
            },
            None => {
                let mut polls: Vec<Sample> = Vec::new();
                polls.push(s);
                self.partitions.push(Partition { id, polls });
                proof {
                    assert(polls@ =~= seq![s]);
                    assert(self@.partitions =~= before.partitions.push(PartitionView { id, polls: seq![s] }));
                }
            },
        }
        if self.scraped < usize::MAX {
            self.scraped = self.scraped + 1;
        }
        proof {
            assert(self@.partitions =~= before.record(id, s).partitions);
        }
    }
}


/// All generations of one topic, oldest first; the last one is live.
#[derive(Debug)]
struct TopicHistory {
    name: String,
    generations: Vec<TopicData>,
}

/// A topic's generations as plain data, oldest first.
pub struct HistoryView {
    pub name: Seq<char>,
    pub generations: Seq<TopicDataView>,
}

impl HistoryView {
    /// There is a live generation, and every generation is well formed.
    pub open spec fn wf(self) -> bool {
        &&& self.generations.len() > 0
        &&& forall|g: int| 0 <= g < self.generations.len() ==> (#[trigger] self.generations[g]).wf()
    }

    /// The live generation.
    pub open spec fn live(self) -> TopicDataView {
        self.generations.last()
    }

    /// The history with its live generation replaced.
    pub open spec fn with_live(self, g: TopicDataView) -> HistoryView {
        HistoryView { generations: self.generations.update(self.generations.len() - 1, g), ..self }
    }

    /// The history with a fresh generation opened after the live one.
    pub open spec fn reopened(self) -> HistoryView {
        HistoryView { generations: self.generations.push(TopicDataView::empty()), ..self }
    }

    /// The history with every generation cut down to what was taken at
    /// `cutoff` or later.
    pub open spec fn discard(self, cutoff: u64) -> HistoryView {
        HistoryView {
            generations: Seq::new(self.generations.len(), |g: int| self.generations[g].discard(cutoff)),
            ..self
        }
    }
}

impl View for TopicHistory {
    type V = HistoryView;

    closed spec fn view(&self) -> HistoryView {
        HistoryView { name: self.name@, generations: self.generations@.map_values(|g: TopicData| g@) }
    }
}

/// The store: every topic's history, the polling period, and the latest
/// metadata failure that no healthy round has cleared yet.
#[derive(Debug)]
pub struct Stats {
    data: Vec<TopicHistory>,
    scrape_interval: u64,
    pub metadata_error: Option<String>,
}

/// The store as plain data.
pub struct StatsView {
    /// The topics, in the order they were first seen.
    pub topics: Seq<HistoryView>,
    pub scrape_interval: u64,
    pub metadata_error: Option<Seq<char>>,
}

impl StatsView {
    /// Every topic is well formed and no topic name occurs twice.
    pub open spec fn wf(self) -> bool {
        &&& forall|i: int| 0 <= i < self.topics.len() ==> (#[trigger] self.topics[i]).wf()
        &&& forall|i: int, j: int| 0 <= i < j < self.topics.len() ==> self.topics[i].name != self.topics[j].name
    }

    /// Whether a topic of this name has been seen.
    pub open spec fn knows(self, name: Seq<char>) -> bool {
        exists|i: int| 0 <= i < self.topics.len() && #[trigger] self.topics[i].name == name
    }

    /// Where the topic of this name is kept, if it has been seen.
    pub open spec fn slot(self, name: Seq<char>) -> int {
        choose|i: int| 0 <= i < self.topics.len() && #[trigger] self.topics[i].name == name
    }

    /// The history of the topic of this name.
    pub open spec fn history(self, name: Seq<char>) -> HistoryView {
        self.topics[self.slot(name)]
    }

    /// The store with the history of a known topic replaced.
    pub open spec fn with_history(self, name: Seq<char>, h: HistoryView) -> StatsView {
        StatsView { topics: self.topics.update(self.slot(name), h), ..self }
    }

    /// The store after a sample came in: it goes to the live generation of its
    /// topic, which is created if the topic is new.
    pub open spec fn record(self, topic: Seq<char>, partition: i32, s: Sample) -> StatsView {
        if self.knows(topic) {
            let h = self.history(topic);
            self.with_history(topic, h.with_live(h.live().record(partition, s)))
        } else {
            StatsView {
                topics: self.topics.push(
                    HistoryView { name: topic, generations: seq![TopicDataView::empty().record(partition, s)] },
                ),
                ..self
            }
        }
    }

    /// Whether the round of `topic` that ends now brought any sample.
    pub open spec fn round_counts(self, topic: Seq<char>) -> bool {
        self.knows(topic) && self.history(topic).live().scraped > 0
    }

    /// Whether the round of `topic` that ends now brought samples and was
    /// healthy.
    pub open spec fn round_commits(self, topic: Seq<char>) -> bool {
        self.round_counts(topic) && self.history(topic).live().healthy()
    }

    /// The store after the round of `topic` ended at `t`. A round without
    /// samples changes nothing. A healthy round is committed and clears the
    /// metadata failure. Any other round opens a new generation.
    pub open spec fn finish_round(self, topic: Seq<char>, t: u64) -> StatsView {
        if !self.round_counts(topic) {
            self
        } else if self.round_commits(topic) {
            let h = self.history(topic);
            StatsView { metadata_error: None, ..self.with_history(topic, h.with_live(h.live().commit(t))) }
        } else {
            self.with_history(topic, self.history(topic).reopened())
        }
    }

    /// The store after one message. A broker failure leaves it as it is.
    pub open spec fn apply(self, msg: MessageView) -> StatsView {
        match msg {
            MessageView::PartitionOffsets { now, topic, partition, offset } => self.record(
                topic,
                partition,
                Sample { at: now, offset },
            ),
            MessageView::RoundFinished { now, topic } => self.finish_round(topic, now),
            MessageView::MetadataQueryFail(e) => StatsView { metadata_error: Some(e), ..self },
            MessageView::BrokerQueryFail(_) => self,
        }
    }

    /// Whether the message asks for the display to be drawn again.
    pub open spec fn redraws(self, msg: MessageView) -> bool {
        match msg {
            MessageView::PartitionOffsets { .. } => false,
            MessageView::RoundFinished { now, topic } => self.round_commits(topic),
            MessageView::MetadataQueryFail(_) => true,
            MessageView::BrokerQueryFail(_) => false,
        }
    }

    /// The store after a list of messages, taken in order.
    pub open spec fn apply_all(self, msgs: Seq<MessageView>) -> StatsView
        decreases msgs.len(),
    {
        if msgs.len() == 0 {
            self
        } else {
            self.apply_all(msgs.drop_last()).apply(msgs.last())
        }
    }

    /// Whether any message of the list, taken in order, asks for a redraw.
    pub open spec fn any_redraw(self, msgs: Seq<MessageView>) -> bool
        decreases msgs.len(),
    {
        if msgs.len() == 0 {
            false
        } else {
            self.any_redraw(msgs.drop_last()) || self.apply_all(msgs.drop_last()).redraws(msgs.last())
        }
    }

    /// The store with every history cut down to what was taken at `cutoff` or
    /// later.
    pub open spec fn discard(self, cutoff: u64) -> StatsView {
        StatsView { topics: Seq::new(self.topics.len(), |i: int| self.topics[i].discard(cutoff)), ..self }
    }
}

impl View for Stats {
    type V = StatsView;

    closed spec fn view(&self) -> StatsView {
        StatsView {
            topics: self.data@.map_values(|h: TopicHistory| h@),
            scrape_interval: self.scrape_interval,
            metadata_error: match self.metadata_error {
                Some(e) => Some(e@),
                None => None,
            },
        }
    }
}

/// A message that the store cannot take in.
#[derive(Debug)]
pub struct IngestError {
    /// Position of the message in the list handed to [`Stats::ingest`].
    pub at: usize,
    /// What the message said.
    pub reason: String,
}

/// Makes sure the list of generations has a live one and says where it is.
fn back_or_push(generations: &mut Vec<TopicData>) -> (last: usize)
    ensures
        last == final(generations)@.len() - 1,
        old(generations)@.len() > 0 ==> final(generations)@ == old(generations)@,
        old(generations)@.len() == 0 ==> final(generations)@.len() == 1 && final(generations)@[0]@
            == TopicDataView::empty(),
{
    if generations.len() == 0 {
        generations.push(Default::default());
    }
    generations.len() - 1
}

impl Stats {
    /// An empty store for a sampler that polls every `scrape_interval`.
    pub fn ingesting(scrape_interval: u64) -> (r: Stats)
        ensures
            r@ == (StatsView { topics: Seq::empty(), scrape_interval, metadata_error: None }),
            r@.wf(),
    {
        let r = Stats { data: Vec::new(), scrape_interval, metadata_error: None };
        proof {
            assert(r@.topics =~= Seq::empty());
        }
        r
    }

    /// Index of the topic of this name, if it has been seen.
    fn find(&self, name: &String) -> (r: Option<usize>)
        requires
            self@.wf(),
        ensures
            match r {
                Some(i) => self@.knows(name@) && self@.slot(name@) == i && i < self@.topics.len(),
                None => !self@.knows(name@),
            },
    {
        let n = self.data.len();
        let mut i: usize = 0;
        while i < n
            invariant
                self@.wf(),
                n == self.data@.len(),
                i <= n,
                forall|j: int| 0 <= j < i ==> self@.topics[j].name != name@,
            decreases n - i,
        {
            if self.data[i].name == *name {
                proof {
                    assert(self@.topics[i as int].name == name@);
                }
                return Some(i);
            }
            i = i + 1;
        }
        None
    }

    /// Takes in one sample.
    fn record(&mut self, topic: &String, partition: i32, s: Sample)
        requires
            old(self)@.wf(),
        ensures
            final(self)@ == old(self)@.record(topic@, partition, s),
            final(self)@.wf(),
    {
        let ghost before = self@;
        match self.find(topic) {
            Some(i) => {
                let ghost h = before.topics[i as int];
                let g = back_or_push(&mut self.data[i].generations);
                self.data[i].generations[g].ingest(partition, s);
                proof {
                    let live = h.live().record(partition, s);
                    assert(self.data@[i as int]@.generations =~= h.generations.update(g as int, live));
                    assert(self@.topics =~= before.topics.update(i as int, h.with_live(live)));
                }
            },
            None => {
                let mut first: TopicData = Default::default();
                first.ingest(partition, s);
                let mut generations: Vec<TopicData> = Vec::new();
                generations.push(first);
                let h = TopicHistory { name: topic.clone(), generations };
                proof {
                    assert(h@.generations =~= seq![TopicDataView::empty().record(partition, s)]);
                }
                self.data.push(h);
                proof {
                    assert(self@.topics =~= before.topics.push(h@));
                }
            },
        }
    }

    /// Closes the round of `topic` that ended at `t`; says whether the display
    /// is to be drawn again.
    fn finish_round(&mut self, topic: &String, t: u64) -> (redraw: bool)
        requires
            old(self)@.wf(),
        ensures
            final(self)@ == old(self)@.finish_round(topic@, t),
            redraw == old(self)@.round_commits(topic@),
            final(self)@.wf(),
    {
        let ghost before = self@;
        match self.find(topic) {
            Some(i) => {
                let ghost h = before.topics[i as int];
                let g = self.data[i].generations.len() - 1;
                if self.data[i].generations[g].scraped > 0 {
                    let parts = self.data[i].generations[g].partitions.len();
                    if self.data[i].generations[g].decreased <= parts / 2 {
                        let start = match self.data[i].generations[g].scraped_interval {
                            Some(iv) => iv.0,
                            None => t,
                        };
                        self.data[i].generations[g].scraped_interval = Some((start, t));
                        self.data[i].generations[g].decreased = 0;
                        self.data[i].generations[g].scraped = 0;
                        self.metadata_error = None;
                        proof {
                            let live = h.live().commit(t);
                            assert(self.data@[i as int]@.generations[g as int].partitions
                                =~= h.live().partitions);
                            assert(self.data@[i as int]@.generations =~= h.generations.update(g as int, live));
                            assert(self@.topics =~= before.topics.update(i as int, h.with_live(live)));
                        }
                        true
                    } else {
                        self.data[i].generations.push(Default::default());
                        proof {
                            assert(self.data@[i as int]@.generations =~= h.generations.push(
                                TopicDataView::empty(),
                            ));
                            assert(self@.topics =~= before.topics.update(i as int, h.reopened()));
                        }
                        false
                    }
                } else {
                    false
                }
            },
            None => false,
        }
    }

    /// Takes in one message; says whether the display is to be drawn again.
    /// A broker failure is not taken in: the store stays as it is.
    pub fn apply(&mut self, msg: &Message) -> (redraw: bool)
        requires
            old(self)@.wf(),
        ensures
            final(self)@ == old(self)@.apply(msg@),
            redraw == old(self)@.redraws(msg@),
            final(self)@.wf(),
    {
        match msg {
            Message::PartitionOffsets { now, topic, partition, offset } => {
                self.record(topic, *partition, Sample { at: *now, offset: *offset });
                false
            },
            Message::RoundFinished { now, topic } => self.finish_round(topic, *now),
            Message::MetadataQueryFail(e) => {
                self.metadata_error = Some(e.clone());
                true
            },
            Message::BrokerQueryFail(_) => false,
        }
    }

    /// Takes in the messages in order, up to the first broker failure.
    ///
    /// Without a broker failure in the list, all messages are taken in and the
    /// result says whether any of them asks for a redraw. Otherwise the
    /// messages before the first broker failure are taken in, and the error
    /// holds that failure and its place in the list.
    pub fn ingest(&mut self, msgs: &Vec<Message>) -> (r: Result<bool, IngestError>)
        requires
            old(self)@.wf(),
        ensures
            final(self)@.wf(),
            match r {
                Ok(redraw) => {
                    &&& forall|j: int| 0 <= j < msgs@.len() ==> !(#[trigger] msgs@[j] is BrokerQueryFail)
                    &&& final(self)@ == old(self)@.apply_all(message_views(msgs@))
                    &&& redraw == old(self)@.any_redraw(message_views(msgs@))
                },
                Err(e) => {
                    &&& e.at < msgs@.len()
                    &&& msgs@[e.at as int]@ == MessageView::BrokerQueryFail(e.reason@)
                    &&& forall|j: int| 0 <= j < e.at ==> !(#[trigger] msgs@[j] is BrokerQueryFail)
                    &&& final(self)@ == old(self)@.apply_all(message_views(msgs@).take(e.at as int))
                },
            },
    {
        let ghost before = self@;
        let ghost views = message_views(msgs@);
        let n = msgs.len();
        let mut redraw = false;
        let mut failure: Option<IngestError> = None;
        let mut i: usize = 0;
        proof {
            assert(views.take(0) =~= Seq::<MessageView>::empty());
        }
        while i < n && failure.is_none()
            invariant
                n == msgs@.len(),
                views == message_views(msgs@),
                i <= n,
                self@.wf(),
                forall|j: int| 0 <= j < i ==> !(#[trigger] msgs@[j] is BrokerQueryFail),
                self@ == before.apply_all(views.take(i as int)),
                redraw == before.any_redraw(views.take(i as int)),
                failure matches Some(e) ==> e.at == i && i < n && msgs@[i as int]@
                    == MessageView::BrokerQueryFail(e.reason@),
            decreases n - i, (if failure is None { 1int } else { 0int }),
        {
            let msg = &msgs[i];
            proof {
                let cur = views.take(i + 1);
                assert(cur.drop_last() =~= views.take(i as int));
                assert(cur.last() == msg@);
            }
            match msg {
                Message::BrokerQueryFail(e) => {
                    failure = Some(IngestError { at: i, reason: e.clone() });
                },
                _ => {
                    let more = self.apply(msg);
                    redraw = redraw || more;
                    i = i + 1;
                },
            }
        }
        proof {
            assert(views.take(n as int) =~= views);
        }
        match failure {
            Some(e) => Err(e),
            None => Ok(redraw),
        }
    }
}


/// One term of a rate: an offset growth and the time it took.
#[derive(Clone, Copy, PartialEq, Eq, Structural, Debug)]
pub struct Slope {
    /// Growth between the last two samples of a partition.
    pub delta: i128,
    /// Nanoseconds between those samples; never zero.
    pub nanos: u64,
}

/// The base statistics of one generation of a topic.
///
/// The rate is the sum of `delta / nanos` over its terms, one term for each
/// partition with at least two samples; it is absent if there is no such
/// partition.
#[derive(Debug)]
pub struct TopicStats {
    pub topic: Topic,
    /// Sum over the partitions of the latest offset.
    pub total: i128,
    /// Sum over the partitions of the growth from the first to the latest
    /// sample.
    pub seen: i128,
    pub rate: Option<Vec<Slope>>,
}

/// [`TopicStats`] as plain data.
pub struct TopicStatsView {
    pub topic: (Seq<char>, usize),
    pub total: int,
    pub seen: int,
    pub rate: Option<Seq<Slope>>,
}

impl View for TopicStats {
    type V = TopicStatsView;

    open spec fn view(&self) -> TopicStatsView {
        TopicStatsView {
            topic: self.topic@,
            total: self.total as int,
            seen: self.seen as int,
            rate: match self.rate {
                Some(r) => Some(r@),
                None => None,
            },
        }
    }
}

/// The views of a list of statistics, in order.
pub open spec fn stats_views(list: Seq<TopicStats>) -> Seq<TopicStatsView> {
    Seq::new(list.len(), |i: int| list[i]@)
}

/// The latest offset of a history; zero for an empty one.
pub open spec fn last_offset(polls: Seq<Sample>) -> int {
    if polls.len() == 0 { 0 } else { polls.last().offset as int }
}

/// The growth from the first to the latest sample; zero for an empty history.
pub open spec fn growth(polls: Seq<Sample>) -> int {
    if polls.len() == 0 { 0 } else { polls.last().offset - polls[0].offset }
}

/// The rate term of a history: the step between its last two samples, if it
/// has two.
pub open spec fn slope(polls: Seq<Sample>) -> Seq<Slope> {
    if polls.len() < 2 {
        Seq::empty()
    } else {
        seq![
            Slope {
                delta: (polls[polls.len() - 1].offset - polls[polls.len() - 2].offset) as i128,
                nanos: (polls[polls.len() - 1].at - polls[polls.len() - 2].at) as u64,
            },
        ]
    }
}

/// Sum of the latest offsets of the partitions.
pub open spec fn total_of(parts: Seq<PartitionView>) -> int
    decreases parts.len(),
{
    if parts.len() == 0 {
        0
    } else {
        total_of(parts.drop_last()) + last_offset(parts.last().polls)
    }
}

/// Sum of the growths of the partitions.
pub open spec fn seen_of(parts: Seq<PartitionView>) -> int
    decreases parts.len(),
{
    if parts.len() == 0 {
        0
    } else {
        seen_of(parts.drop_last()) + growth(parts.last().polls)
    }
}

/// The rate terms of the partitions, in order.
pub open spec fn slopes_of(parts: Seq<PartitionView>) -> Seq<Slope>
    decreases parts.len(),
{
    if parts.len() == 0 {
        Seq::empty()
    } else {
        slopes_of(parts.drop_last()) + slope(parts.last().polls)
    }
}

/// The shares of all partitions over `count` buckets, partition after
/// partition.
pub open spec fn shares_of(parts: Seq<PartitionView>, origin: u64, width: u64, count: usize) -> Seq<Share>
    decreases parts.len(),
{
    if parts.len() == 0 {
        Seq::empty()
    } else {
        shares_of(parts.drop_last(), origin, width, count) + history_shares(
            parts.last().polls,
            origin,
            width,
            count,
        )
    }
}

/// Where bucket `k` is drawn: the distance of its middle from `now`, counted
/// back from the start of the scraped interval. Negative, in nanoseconds.
pub open spec fn bucket_x(k: int, start: u64, now: u64, width: u64) -> int {
    k * width - ((now - start) + width / 2)
}

/// The rate series of one generation.
///
/// `xs` holds where each bucket is drawn, in nanoseconds relative to now.
/// The rate of a bucket is the sum over the shares that name it; `shares`
/// lists them partition after partition, sample pair after sample pair.
#[derive(Debug)]
pub struct Series {
    pub xs: Vec<i128>,
    pub shares: Vec<Share>,
}

/// [`Series`] as plain data.
pub struct SeriesView {
    pub xs: Seq<i128>,
    pub shares: Seq<Share>,
}

impl View for Series {
    type V = SeriesView;

    open spec fn view(&self) -> SeriesView {
        SeriesView { xs: self.xs@, shares: self.shares@ }
    }
}

/// The view of a series that may be absent.
pub open spec fn series_view(r: Option<Series>) -> Option<SeriesView> {
    match r {
        Some(s) => Some(s@),
        None => None,
    }
}

impl TopicDataView {
    /// The base statistics of this generation, for the topic `name` at
    /// position `idx` counted back from the live generation.
    pub open spec fn summary(self, name: Seq<char>, idx: usize) -> TopicStatsView {
        TopicStatsView {
            topic: (name, idx),
            total: total_of(self.partitions),
            seen: seen_of(self.partitions),
            rate: if slopes_of(self.partitions).len() == 0 {
                None
            } else {
                Some(slopes_of(self.partitions))
            },
        }
    }

    /// How many whole buckets of `width` fit into the scraped interval.
    pub open spec fn bucket_count(self, width: u64) -> int {
        match self.scraped_interval {
            Some(iv) => if iv.0 <= iv.1 && width > 0 { (iv.1 - iv.0) / (width as int) } else { 0 },
            None => 0,
        }
    }

    /// The rate series at `now` over buckets of `width`: none before the
    /// first healthy round, and none if that round ended after `now`.
    pub open spec fn rates(self, now: u64, width: u64) -> Option<SeriesView> {
        match self.scraped_interval {
            Some(iv) => if iv.0 <= now {
                Some(
                    SeriesView {
                        xs: Seq::new(
                            self.bucket_count(width) as nat,
                            |k: int| bucket_x(k, iv.0, now, width) as i128,
                        ),
                        shares: shares_of(self.partitions, iv.0, width, self.bucket_count(width) as usize),
                    },
                )
            } else {
                None
            },
            None => None,
        }
    }
}

impl HistoryView {
    /// The base statistics of every generation, the live one first.
    pub open spec fn basestats(self) -> Seq<TopicStatsView> {
        Seq::new(
            self.generations.len(),
            |k: int| self.generations[self.generations.len() - 1 - k].summary(self.name, k as usize),
        )
    }
}

/// The base statistics of the topics, topic after topic.
pub open spec fn basestats_of(topics: Seq<HistoryView>) -> Seq<TopicStatsView>
    decreases topics.len(),
{
    if topics.len() == 0 {
        Seq::empty()
    } else {
        basestats_of(topics.drop_last()) + topics.last().basestats()
    }
}

impl StatsView {
    /// The base statistics of every generation of every topic.
    pub open spec fn basestats(self) -> Seq<TopicStatsView> {
        basestats_of(self.topics)
    }

    /// The generation that `topic` names, if there is one.
    pub open spec fn generation(self, topic: (Seq<char>, usize)) -> Option<TopicDataView> {
        if self.knows(topic.0) && topic.1 < self.history(topic.0).generations.len() {
            let gens = self.history(topic.0).generations;
            Some(gens[gens.len() - 1 - topic.1])
        } else {
            None
        }
    }

    /// The rate series of the generation that `topic` names.
    pub open spec fn rates(self, topic: (Seq<char>, usize), now: u64, width: u64) -> Option<SeriesView> {
        match self.generation(topic) {
            Some(g) => g.rates(now, width),
            None => None,
        }
    }

    /// The store after samples older than one polling period before
    /// `discard` were dropped; unchanged if that time lies before the epoch.
    pub open spec fn discard_before(self, discard: u64) -> StatsView {
        if discard >= self.scrape_interval {
            self.discard((discard - self.scrape_interval) as u64)
        } else {
            self
        }
    }
}

/// A generation has no more partitions than there are partition ids.
pub proof fn lemma_partition_count(g: TopicDataView)
    requires
        g.wf(),
    ensures
        g.partitions.len() <= 0x1_0000_0000,
{
    let ids = Seq::new(g.partitions.len(), |i: int| g.partitions[i].id as int);
    assert(ids.no_duplicates());
    ids.unique_seq_to_set();
    lemma_int_range(-0x8000_0000, 0x8000_0000);
    assert forall|a: int| ids.to_set().contains(a) implies set_int_range(-0x8000_0000, 0x8000_0000).contains(
        a,
    ) by {
        let i = choose|i: int| 0 <= i < ids.len() && ids[i] == a;
        assert(ids[i] == g.partitions[i].id);
    }
    lemma_len_subset(ids.to_set(), set_int_range(-0x8000_0000, 0x8000_0000));
}

impl TopicData {
    /// The base statistics of this generation.
    fn summary(&self, name: &String, idx: usize) -> (r: TopicStats)
        requires
            self@.wf(),
        ensures
            r@ == self@.summary(name@, idx),
    {
        let n = self.partitions.len();
        let ghost parts = self@.partitions;
        let mut total: i128 = 0;
        let mut seen: i128 = 0;
        let mut slopes: Vec<Slope> = Vec::new();
        let mut i: usize = 0;
        proof {
            lemma_partition_count(self@);
            assert(parts.take(0) =~= Seq::<PartitionView>::empty());
        }
        while i < n
            invariant
                parts == self@.partitions,
                self@.wf(),
                n == parts.len(),
                n <= 0x1_0000_0000,
                i <= n,
                total == total_of(parts.take(i as int)),
                seen == seen_of(parts.take(i as int)),
                slopes@ == slopes_of(parts.take(i as int)),
                -(i * 0x8000_0000_0000_0000) <= total <= i * 0x8000_0000_0000_0000,
                -(i * 0x1_0000_0000_0000_0000) <= seen <= i * 0x1_0000_0000_0000_0000,
            decreases n - i,
        {
            let polls = &self.partitions[i].polls;
            let len = polls.len();
            proof {
                let cur = parts.take(i + 1);
                assert(cur.drop_last() =~= parts.take(i as int));
                assert(cur.last() == parts[i as int]);
                assert(parts[i as int].polls == polls@);
                assert(increasing(polls@));
            }
            if len > 0 {
                let last = polls[len - 1];
                total = total + last.offset as i128;
                seen = seen + (last.offset as i128 - polls[0].offset as i128);
                if len > 1 {
                    let prev = polls[len - 2];
                    slopes.push(
                        Slope { delta: last.offset as i128 - prev.offset as i128, nanos: last.at - prev.at },
                    );
                }
            }
            proof {
                assert(slopes@ =~= slopes_of(parts.take(i as int)) + slope(polls@));
            }
            i = i + 1;
        }
        proof {
            assert(parts.take(n as int) =~= parts);
        }
        let rate = if slopes.len() == 0 { None } else { Some(slopes) };
        TopicStats { topic: Topic { name: name.clone(), stat_idx: idx }, total, seen, rate }
    }

    /// The rate series of this generation at `now` over buckets of
    /// `bucket_size`.
    pub fn rates(&self, now: u64, bucket_size: u64) -> (r: Option<Series>)
        requires
            self@.wf(),
            bucket_size > 0,
        ensures
            series_view(r) == self@.rates(now, bucket_size),
    {
        let (start, end) = match self.scraped_interval {
            Some(iv) => iv,
            None => {
                return None;
            },
        };
        if start > now {
            return None;
        }
        let wanted: u64 = if start <= end { (end - start) / bucket_size } else { 0 };
        let ghost w = bucket_size as int;
        proof {
            if start <= end {
                vstd::arithmetic::div_mod::lemma_fundamental_div_mod(end - start, w);
                vstd::arithmetic::div_mod::lemma_mod_pos_bound(end - start, w);
                vstd::arithmetic::div_mod::lemma_div_pos_is_pos(end - start, w);
                vstd::arithmetic::mul::lemma_mul_is_commutative(w, (end - start) / w);
            }
            assert(wanted * w <= if start <= end { end - start } else { 0 });
        }
        let back: i128 = (now - start) as i128 + (bucket_size / 2) as i128;
        let mut xs: Vec<i128> = Vec::new();
        let mut k: u64 = 0;
        let mut base: u64 = 0;
        while k < wanted
            invariant
                bucket_size > 0,
                w == bucket_size as int,
                k <= wanted,
                wanted * w <= u64::MAX,
                base == k * w,
                back == (now - start) + bucket_size / 2,
                start <= now,
                xs@.len() == k,
                forall|j: int| 0 <= j < k ==> xs@[j] == bucket_x(j, start, now, bucket_size),
            decreases wanted - k,
        {
            proof {
                vstd::arithmetic::mul::lemma_mul_inequality(k + 1, wanted as int, w);
                assert((k + 1) * w == k * w + w) by (nonlinear_arith);
            }
            xs.push(base as i128 - back);
            base = base + bucket_size;
            k = k + 1;
        }
        let count = xs.len();
        let ghost parts = self@.partitions;
        let mut shares: Vec<Share> = Vec::new();
        let n = self.partitions.len();
        let mut i: usize = 0;
        proof {
            assert(parts.take(0) =~= Seq::<PartitionView>::empty());
            assert(count == self@.bucket_count(bucket_size));
        }
        while i < n
            invariant
                parts == self@.partitions,
                self@.wf(),
                n == parts.len(),
                i <= n,
                bucket_size > 0,
                start + count * bucket_size <= u64::MAX,
                shares@ == shares_of(parts.take(i as int), start, bucket_size, count),
            decreases n - i,
        {
            proof {
                let cur = parts.take(i + 1);
                assert(cur.drop_last() =~= parts.take(i as int));
                assert(cur.last() == parts[i as int]);
                assert(parts[i as int].polls == self.partitions[i as int].polls@);
                assert(increasing(self.partitions[i as int].polls@));
            }
            push_history_shares(&mut shares, &self.partitions[i].polls, start, bucket_size, count);
            i = i + 1;
        }
        proof {
            assert(parts.take(n as int) =~= parts);
            assert(xs@ =~= Seq::new(
                self@.bucket_count(bucket_size) as nat,
                |k: int| bucket_x(k, start, now, bucket_size) as i128,
            ));
        }
        Some(Series { xs, shares })
    }

    /// Drops from every history the leading samples taken before `cutoff`.
    fn discard(&mut self, cutoff: u64)
        requires
            old(self)@.wf(),
        ensures
            final(self)@ == old(self)@.discard(cutoff),
            final(self)@.wf(),
    {
        let ghost before = self@;
        let n = self.partitions.len();
        let mut i: usize = 0;
        while i < n
            invariant
                before.wf(),
                n == before.partitions.len(),
                self@.partitions.len() == n,
                i <= n,
                self@.scraped_interval == before.scraped_interval,
                self@.decreased == before.decreased,
                self@.scraped == before.scraped,
                forall|j: int| 0 <= j < i ==> self@.partitions[j] == before.discard(cutoff).partitions[j],
                forall|j: int| i <= j < n ==> self@.partitions[j] == before.partitions[j],
            decreases n - i,
        {
            let ghost mid = self@;
            discard(&mut self.partitions[i].polls, cutoff);
            proof {
                assert(self@.partitions =~= mid.partitions.update(
                    i as int,
                    before.discard(cutoff).partitions[i as int],
                ));
            }
            i = i + 1;
        }
        proof {
            assert(self@.partitions =~= before.discard(cutoff).partitions);
            assert forall|j: int| 0 <= j < n implies increasing(#[trigger] self@.partitions[j].polls) by {
                crate::polls::lemma_retained(before.partitions[j].polls, cutoff);
            }
        }
    }
}

impl TopicHistory {
    /// Drops from every generation the samples taken before `cutoff`.
    fn discard(&mut self, cutoff: u64)
        requires
            old(self)@.wf(),
        ensures
            final(self)@ == old(self)@.discard(cutoff),
            final(self)@.wf(),
    {
        let ghost before = self@;
        let n = self.generations.len();
        let mut g: usize = 0;
        while g < n
            invariant
                before.wf(),
                n == before.generations.len(),
                self@.generations.len() == n,
                self@.name == before.name,
                g <= n,
                forall|j: int| 0 <= j < g ==> self@.generations[j] == before.generations[j].discard(cutoff),
                forall|j: int| 0 <= j < g ==> (#[trigger] self@.generations[j]).wf(),
                forall|j: int| g <= j < n ==> self@.generations[j] == before.generations[j],
            decreases n - g,
        {
            let ghost mid = self@;
            self.generations[g].discard(cutoff);
            proof {
                assert(self@.generations =~= mid.generations.update(
                    g as int,
                    before.generations[g as int].discard(cutoff),
                ));
            }
            g = g + 1;
        }
        proof {
            assert(self@.generations =~= before.discard(cutoff).generations);
        }
    }

    /// Appends the base statistics of every generation, the live one first.
    fn push_basestats(&self, out: &mut Vec<TopicStats>)
        requires
            self@.wf(),
        ensures
            stats_views(final(out)@) == stats_views(old(out)@) + self@.basestats(),
    {
        let ghost before = stats_views(out@);
        let n = self.generations.len();
        let mut k: usize = 0;
        proof {
            assert(before + self@.basestats().take(0) =~= before);
        }
        while k < n
            invariant
                self@.wf(),
                n == self@.generations.len(),
                k <= n,
                stats_views(out@) == before + self@.basestats().take(k as int),
            decreases n - k,
        {
            proof {
                assert(self.generations@[n - 1 - k]@ == self@.generations[n - 1 - k]);
            }
            let s = self.generations[n - 1 - k].summary(&self.name, k);
            let ghost mid = out@;
            out.push(s);
            proof {
                assert(s@ == self@.basestats()[k as int]);
                assert(stats_views(out@) =~= stats_views(mid).push(s@));
                assert(self@.basestats().take(k + 1) =~= self@.basestats().take(k as int).push(s@));
            }
            k = k + 1;
        }
        proof {
            assert(self@.basestats().take(n as int) =~= self@.basestats());
        }
    }
}

impl Stats {
    /// The base statistics of every generation of every topic: topic after
    /// topic in the order the topics were first seen, and within a topic the
    /// live generation first.
    pub fn basestats(&self) -> (r: Vec<TopicStats>)
        requires
            self@.wf(),
        ensures
            stats_views(r@) == self@.basestats(),
    {
        let mut out: Vec<TopicStats> = Vec::new();
        let n = self.data.len();
        let ghost topics = self@.topics;
        let mut i: usize = 0;
        proof {
            assert(topics.take(0) =~= Seq::<HistoryView>::empty());
            assert(stats_views(out@) =~= Seq::<TopicStatsView>::empty());
        }
        while i < n
            invariant
                self@.wf(),
                topics == self@.topics,
                n == topics.len(),
                i <= n,
                stats_views(out@) == basestats_of(topics.take(i as int)),
            decreases n - i,
        {
            proof {
                let cur = topics.take(i + 1);
                assert(cur.drop_last() =~= topics.take(i as int));
                assert(cur.last() == topics[i as int]);
                assert(topics[i as int] == self.data@[i as int]@);
            }
            self.data[i].push_basestats(&mut out);
            i = i + 1;
        }
        proof {
            assert(topics.take(n as int) =~= topics);
        }
        out
    }

    /// The rate series of the generation that `topic` names, at `now`, over
    /// buckets of `bucket_size`; none if there is no such generation or it has
    /// no series.
    pub fn rates(&self, topic: &Topic, now: u64, bucket_size: u64) -> (r: Option<Series>)
        requires
            self@.wf(),
            bucket_size > 0,
        ensures
            series_view(r) == self@.rates(topic@, now, bucket_size),
    {
        match self.find(&topic.name) {
            Some(i) => {
                let n = self.data[i].generations.len();
                if topic.stat_idx < n {
                    proof {
                        assert(self@.topics[i as int].generations[n - 1 - topic.stat_idx]
                            == self.data@[i as int].generations@[n - 1 - topic.stat_idx]@);
                    }
                    self.data[i].generations[n - 1 - topic.stat_idx].rates(now, bucket_size)
                } else {
                    None
                }
            },
            None => None,
        }
    }

    /// Drops every sample taken more than one polling period before
    /// `discard`. Does nothing if that time lies before the epoch.
    pub fn discard_before(&mut self, discard: u64)
        requires
            old(self)@.wf(),
        ensures
            final(self)@ == old(self)@.discard_before(discard),
            final(self)@.wf(),
    {
        let cutoff = match discard.checked_sub(self.scrape_interval) {
            Some(c) => c,
            None => {
                return ;
            },
        };
        let ghost before = self@;
        let n = self.data.len();
        let mut i: usize = 0;
        while i < n
            invariant
                before.wf(),
                n == before.topics.len(),
                self@.topics.len() == n,
                self@.scrape_interval == before.scrape_interval,
                self@.metadata_error == before.metadata_error,
                i <= n,
                forall|j: int| 0 <= j < i ==> self@.topics[j] == before.topics[j].discard(cutoff),
                forall|j: int| 0 <= j < i ==> (#[trigger] self@.topics[j]).wf(),
                forall|j: int| i <= j < n ==> self@.topics[j] == before.topics[j],
            decreases n - i,
        {
            let ghost mid = self@;
            proof {
                assert(self.data@[i as int]@ == self@.topics[i as int]);
                assert(before.topics[i as int].wf());
            }
            self.data[i].discard(cutoff);
            proof {
                assert(self@.topics =~= mid.topics.update(i as int, before.topics[i as int].discard(cutoff)));
            }
            i = i + 1;
        }
        proof {
            assert(self@.topics =~= before.discard(cutoff).topics);
        }
    }
}


impl TopicDataView {
    /// In every history the offsets never go down.
    pub open spec fn monotone(self) -> bool {
        forall|i: int| 0 <= i < self.partitions.len() ==> monotone(#[trigger] self.partitions[i].polls)
    }

    /// Whether the sample comes in time order: it was not taken before the
    /// latest sample of its partition.
    pub open spec fn timely(self, id: i32, s: Sample) -> bool {
        latest(self.polls(id)) matches Some(l) ==> l.at <= s.at
    }

    /// The generation after a list of samples, each with its partition, came
    /// in one after the other.
    pub open spec fn record_all(self, samples: Seq<(i32, Sample)>) -> TopicDataView
        decreases samples.len(),
    {
        if samples.len() == 0 {
            self
        } else {
            self.record_all(samples.drop_last()).record(samples.last().0, samples.last().1)
        }
    }

    /// Whether every sample of the list comes in time order.
    pub open spec fn all_timely(self, samples: Seq<(i32, Sample)>) -> bool
        decreases samples.len(),
    {
        if samples.len() == 0 {
            true
        } else {
            self.all_timely(samples.drop_last()) && self.record_all(samples.drop_last()).timely(
                samples.last().0,
                samples.last().1,
            )
        }
    }
}

/// Taking in a sample keeps every history in strict time order, and keeps the
/// offsets from going down if the sample comes in time order.
pub proof fn lemma_record_keeps_order(g: TopicDataView, id: i32, s: Sample)
    requires
        g.wf(),
    ensures
        g.record(id, s).wf(),
        g.monotone() && g.timely(id, s) ==> g.record(id, s).monotone(),
{
    let out = g.record(id, s);
    if g.goes_back(id, s.offset) {
    } else if g.has(id) {
        let i = g.slot(id);
        lemma_put_increasing(g.polls(id), s);
        assert forall|k: int| 0 <= k < out.partitions.len() implies increasing(
            #[trigger] out.partitions[k].polls,
        ) by {
            if k != i {
                assert(out.partitions[k] == g.partitions[k]);
            }
        }
        assert forall|a: int, b: int| 0 <= a < b < out.partitions.len() implies out.partitions[a].id
            != out.partitions[b].id by {
            assert(out.partitions[a].id == g.partitions[a].id);
            assert(out.partitions[b].id == g.partitions[b].id);
        }
        if g.monotone() && g.timely(id, s) {
            assert(monotone(g.partitions[i].polls));
            lemma_put_monotone(g.polls(id), s);
            assert forall|k: int| 0 <= k < out.partitions.len() implies monotone(
                #[trigger] out.partitions[k].polls,
            ) by {
                if k != i {
                    assert(out.partitions[k] == g.partitions[k]);
                }
            }
        }
    } else {
        let n = g.partitions.len() as int;
        assert forall|k: int| 0 <= k < out.partitions.len() implies increasing(
            #[trigger] out.partitions[k].polls,
        ) by {
            if k < n {
                assert(out.partitions[k] == g.partitions[k]);
            }
        }
        assert forall|a: int, b: int| 0 <= a < b < out.partitions.len() implies out.partitions[a].id
            != out.partitions[b].id by {
            assert(out.partitions[a] == g.partitions[a]);
            if b < n {
                assert(out.partitions[b] == g.partitions[b]);
            }
        }
        if g.monotone() {
            assert forall|k: int| 0 <= k < out.partitions.len() implies monotone(
                #[trigger] out.partitions[k].polls,
            ) by {
                if k < n {
                    assert(out.partitions[k] == g.partitions[k]);
                }
            }
        }
    }
}

/// Whatever samples a generation takes in, every history stays in strict time
/// order; and if the samples come in time order, no history's offsets ever go
/// down.
pub proof fn lemma_ingest_keeps_order(g: TopicDataView, samples: Seq<(i32, Sample)>)
    requires
        g.wf(),
    ensures
        g.record_all(samples).wf(),
        g.monotone() && g.all_timely(samples) ==> g.record_all(samples).monotone(),
    decreases samples.len(),
{
    if samples.len() > 0 {
        lemma_ingest_keeps_order(g, samples.drop_last());
        lemma_record_keeps_order(g.record_all(samples.drop_last()), samples.last().0, samples.last().1);
    }
}

/// After discarding at `discard`, no sample taken more than one polling
/// period before `discard` is left, and every sample taken later is still
/// where it was.
pub proof fn lemma_discard_drops_old(st: StatsView, discard: u64, t: int, g: int, p: int)
    requires
        st.wf(),
        discard >= st.scrape_interval,
        0 <= t < st.topics.len(),
        0 <= g < st.topics[t].generations.len(),
        0 <= p < st.topics[t].generations[g].partitions.len(),
    ensures
        ({
            let cutoff = (discard - st.scrape_interval) as u64;
            let old_polls = st.topics[t].generations[g].partitions[p].polls;
            let new_polls = st.discard_before(discard).topics[t].generations[g].partitions[p].polls;
            &&& forall|k: int| 0 <= k < new_polls.len() ==> (#[trigger] new_polls[k]).at >= cutoff
            &&& forall|x: Sample| new_polls.contains(x) <==> old_polls.contains(x) && x.at >= cutoff
        }),
{
    let cutoff = (discard - st.scrape_interval) as u64;
    let old_polls = st.topics[t].generations[g].partitions[p].polls;
    let new_polls = st.discard_before(discard).topics[t].generations[g].partitions[p].polls;
    assert(st.topics[t].wf());
    assert(st.topics[t].generations[g].wf());
    assert(increasing(st.topics[t].generations[g].partitions[p].polls));
    assert(new_polls == retained(old_polls, cutoff));
    lemma_retained(old_polls, cutoff);
    assert forall|k: int| 0 <= k < new_polls.len() implies (#[trigger] new_polls[k]).at >= cutoff by {
        assert(new_polls.contains(new_polls[k]));
    }
}

/// A round in which more than half of the partitions went backwards breaks
/// the generation: the live generation afterwards is empty, and before it
/// stand all former generations, the former live one among them, as they were.
pub proof fn lemma_generation_break(st: StatsView, topic: Seq<char>, t: u64)
    requires
        st.wf(),
        st.round_counts(topic),
        !st.history(topic).live().healthy(),
    ensures
        ({
            let before = st.history(topic).generations;
            let after = st.finish_round(topic, t).history(topic).generations;
            &&& st.finish_round(topic, t).knows(topic)
            &&& after.len() == before.len() + 1
            &&& after.last() == TopicDataView::empty()
            &&& after.drop_last() == before
            &&& after[after.len() - 2] == st.history(topic).live()
        }),
        st.finish_round(topic, t).metadata_error == st.metadata_error,
        st.finish_round(topic, t).topics.len() == st.topics.len(),
        forall|i: int|
            0 <= i < st.topics.len() && i != st.slot(topic) ==> st.finish_round(topic, t).topics[i]
                == st.topics[i],
{
    let i = st.slot(topic);
    let out = st.finish_round(topic, t);
    assert(out.topics[i].name == topic);
    assert forall|a: int, b: int| 0 <= a < b < out.topics.len() implies out.topics[a].name
        != out.topics[b].name by {
        assert(out.topics[a].name == st.topics[a].name);
        assert(out.topics[b].name == st.topics[b].name);
    }
    let j = out.slot(topic);
    if j < i {
        assert(out.topics[j].name != out.topics[i].name);
    }
    if i < j {
        assert(out.topics[i].name != out.topics[j].name);
    }
    let before = st.history(topic).generations;
    let after = out.history(topic).generations;
    assert(after.drop_last() =~= before);
}


impl StatsView {
    /// The samples of one partition of the generation that `topic` names;
    /// none if there is no such generation or partition.
    pub open spec fn polls(self, topic: (Seq<char>, usize), partition: i32) -> Seq<Sample> {
        match self.generation(topic) {
            Some(g) => g.polls(partition),
            None => Seq::empty(),
        }
    }
}

impl Stats {
    /// The polling period the store was made for.
    pub fn scrape_interval(&self) -> (r: u64)
        ensures
            r == self@.scrape_interval,
    {
        self.scrape_interval
    }

    /// The samples of one partition of the generation that `topic` names, in
    /// time order; none if there is no such generation or partition.
    pub fn polls(&self, topic: &Topic, partition: i32) -> (r: Vec<Sample>)
        requires
            self@.wf(),
        ensures
            r@ == self@.polls(topic@, partition),
    {
        let mut out: Vec<Sample> = Vec::new();
        match self.find(&topic.name) {
            Some(i) => {
                let n = self.data[i].generations.len();
                if topic.stat_idx < n {
                    let g = &self.data[i].generations[n - 1 - topic.stat_idx];
                    proof {
                        assert(self@.topics[i as int].generations[n - 1 - topic.stat_idx] == g@);
                        assert(g@.wf());
                    }
                    match g.find(partition) {
                        Some(p) => {
                            let polls = &g.partitions[p].polls;
                            let len = polls.len();
                            let mut k: usize = 0;
                            while k < len
                                invariant
                                    len == polls@.len(),
                                    k <= len,
                                    out@ == polls@.take(k as int),
                                decreases len - k,
                            {
                                out.push(polls[k]);
                                proof {
                                    assert(out@ =~= polls@.take(k + 1));
                                }
                                k = k + 1;
                            }
                            proof {
                                assert(polls@.take(len as int) =~= polls@);
                                assert(g@.partitions[p as int].polls == polls@);
                            }
                        },
                        None => {},
                    }
                }
            },
            None => {},
        }
        out
    }
}


/// Rates are never negative where offsets never go down: if no history of
/// the generation ever goes down, every share of its rate series carries a
/// growth of zero or more over a positive span, for a positive stretch of
/// time in one of the `count` buckets.
pub proof fn lemma_rates_nonnegative(parts: Seq<PartitionView>, origin: u64, width: u64, count: usize)
    requires
        width > 0,
        forall|i: int| 0 <= i < parts.len() ==> monotone(#[trigger] parts[i].polls),
    ensures
        forall|i: int|
            0 <= i < shares_of(parts, origin, width, count).len() ==> {
                let s = #[trigger] shares_of(parts, origin, width, count)[i];
                s.delta >= 0 && s.overlap > 0 && s.span > 0 && s.bucket < count
            },
    decreases parts.len(),
{
    if parts.len() > 0 {
        let head = parts.drop_last();
        assert forall|i: int| 0 <= i < head.len() implies monotone(#[trigger] head[i].polls) by {
            assert(head[i] == parts[i]);
        }
        lemma_rates_nonnegative(head, origin, width, count);
        lemma_shares_nonnegative(parts.last().polls, origin, width, count);
        let first = shares_of(head, origin, width, count);
        let second = history_shares(parts.last().polls, origin, width, count);
        let all = shares_of(parts, origin, width, count);
        assert(all == first + second);
        assert forall|i: int| 0 <= i < all.len() implies {
            let s = #[trigger] all[i];
            s.delta >= 0 && s.overlap > 0 && s.span > 0 && s.bucket < count
        } by {
            if i < first.len() {
                assert(all[i] == first[i]);
            } else {
                assert(all[i] == second[i - first.len()]);
            }
        }
    }
}

} // verus!
