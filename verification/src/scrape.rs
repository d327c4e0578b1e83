//! The offset sampler: what it reports, how it plans a round of queries, and
//! how it keeps failing brokers out of the way.

use vstd::prelude::*;
use rand::RngCore;
use crate::text::{lex_lt, text_lt, lemma_lex_total, lemma_lex_transitive, lemma_lex_asymmetric};

verus! {

/// What the sampler reports to the statistics store.
#[derive(Debug)]
pub enum Message {
    /// The cluster metadata could not be fetched; the text says why.
    MetadataQueryFail(String),
    /// A broker could not be queried; the text says why.
    BrokerQueryFail(String),
    /// The high watermark of one partition, read at `now`.
    PartitionOffsets { now: u64, topic: String, partition: i32, offset: i64 },
    /// All partitions of `topic` have been visited in this round.
    RoundFinished { now: u64, topic: String },
}

/// A [`Message`] with its texts as character sequences.
pub enum MessageView {
    MetadataQueryFail(Seq<char>),
    BrokerQueryFail(Seq<char>),
    PartitionOffsets { now: u64, topic: Seq<char>, partition: i32, offset: i64 },
    RoundFinished { now: u64, topic: Seq<char> },
}

impl View for Message {
    type V = MessageView;

    open spec fn view(&self) -> MessageView {
        match *self {
            Message::MetadataQueryFail(e) => MessageView::MetadataQueryFail(e@),
            Message::BrokerQueryFail(e) => MessageView::BrokerQueryFail(e@),
            Message::PartitionOffsets { now, topic, partition, offset } => MessageView::PartitionOffsets {
                now,
                topic: topic@,
                partition,
                offset,
            },
            Message::RoundFinished { now, topic } => MessageView::RoundFinished { now, topic: topic@ },
        }
    }
}

/// The views of a list of messages, in order.
pub open spec fn message_views(msgs: Seq<Message>) -> Seq<MessageView> {
    Seq::new(msgs.len(), |i: int| msgs[i]@)
}


/// One partition as the cluster metadata describes it.
#[derive(Clone, Copy, PartialEq, Eq, Structural, Debug)]
pub struct PartitionMeta {
    pub id: i32,
    /// The broker that leads the partition.
    pub leader: i32,
}

/// One topic as the cluster metadata describes it.
#[derive(Debug)]
pub struct TopicMeta {
    pub name: String,
    pub partitions: Vec<PartitionMeta>,
}

/// [`TopicMeta`] as plain data.
pub struct TopicMetaView {
    pub name: Seq<char>,
    pub partitions: Seq<PartitionMeta>,
}

impl View for TopicMeta {
    type V = TopicMetaView;

    open spec fn view(&self) -> TopicMetaView {
        TopicMetaView { name: self.name@, partitions: self.partitions@ }
    }
}

/// The views of a list of topics, in order.
pub open spec fn meta_views(metas: Seq<TopicMeta>) -> Seq<TopicMetaView> {
    Seq::new(metas.len(), |i: int| metas[i]@)
}

/// One planned watermark query.
#[derive(Debug)]
pub struct QueryTask {
    /// When the query is due.
    pub when: u64,
    pub topic: String,
    pub partition: i32,
    pub leader: i32,
}

/// [`QueryTask`] as plain data.
pub struct QueryTaskView {
    pub when: u64,
    pub topic: Seq<char>,
    pub partition: i32,
    pub leader: i32,
}

impl View for QueryTask {
    type V = QueryTaskView;

    open spec fn view(&self) -> QueryTaskView {
        QueryTaskView { when: self.when, topic: self.topic@, partition: self.partition, leader: self.leader }
    }
}

/// The views of a list of tasks, in order.
pub open spec fn task_views(tasks: Seq<QueryTask>) -> Seq<QueryTaskView> {
    Seq::new(tasks.len(), |i: int| tasks[i]@)
}

/// Whether `a` is due before `b`: by time, then by topic name, then by
/// partition id.
pub open spec fn task_before(a: QueryTaskView, b: QueryTaskView) -> bool {
    a.when < b.when || (a.when == b.when && (lex_lt(a.topic, b.topic) || (a.topic == b.topic && a.partition
        < b.partition)))
}

/// Whether two tasks stand at the same place of a schedule.
pub open spec fn same_key(a: QueryTaskView, b: QueryTaskView) -> bool {
    a.when == b.when && a.topic == b.topic && a.partition == b.partition
}

/// Every task is due before all tasks after it.
pub open spec fn ordered(tasks: Seq<QueryTaskView>) -> bool {
    forall|i: int, j: int| 0 <= i < j < tasks.len() ==> task_before(tasks[i], tasks[j])
}

/// Whether the schedule has a task at the place of `t`.
pub open spec fn holds_key(tasks: Seq<QueryTaskView>, t: QueryTaskView) -> bool {
    exists|k: int| 0 <= k < tasks.len() && same_key(#[trigger] tasks[k], t)
}

/// The order of tasks is transitive.
pub proof fn lemma_before_transitive(a: QueryTaskView, b: QueryTaskView, c: QueryTaskView)
    requires
        task_before(a, b),
        task_before(b, c) || same_key(b, c),
    ensures
        task_before(a, c),
{
    if lex_lt(a.topic, b.topic) && lex_lt(b.topic, c.topic) {
        lemma_lex_transitive(a.topic, b.topic, c.topic);
    }
}

/// Of two tasks at different places one is due before the other.
pub proof fn lemma_before_total(a: QueryTaskView, b: QueryTaskView)
    ensures
        same_key(a, b) || task_before(a, b) || task_before(b, a),
        task_before(a, b) ==> !task_before(b, a) && !same_key(a, b),
{
    lemma_lex_total(a.topic, b.topic);
    if lex_lt(a.topic, b.topic) {
        lemma_lex_asymmetric(a.topic, b.topic);
    }
    if lex_lt(b.topic, a.topic) {
        lemma_lex_asymmetric(b.topic, a.topic);
    }
}

/// Whether `a` is due before `b`.
pub fn task_lt(a: &QueryTask, b: &QueryTask) -> (r: bool)
    ensures
        r == task_before(a@, b@),
{
    if a.when != b.when {
        a.when < b.when
    } else if text_lt(a.topic.as_str(), b.topic.as_str()) {
        true
    } else if a.topic == b.topic {
        a.partition < b.partition
    } else {
        false
    }
}

/// Puts `t` at its place in the schedule. A schedule that already has a task
/// at that place stays as it is.
pub fn insert_task(tasks: &mut Vec<QueryTask>, t: QueryTask)
    requires
        ordered(task_views(old(tasks)@)),
    ensures
        ordered(task_views(final(tasks)@)),
        holds_key(task_views(final(tasks)@), t@),
        forall|x: QueryTaskView|
            holds_key(task_views(old(tasks)@), x) ==> holds_key(task_views(final(tasks)@), x),
        forall|k: int|
            0 <= k < final(tasks)@.len() ==> (#[trigger] final(tasks)@[k])@ == t@ || task_views(
                old(tasks)@,
            ).contains(final(tasks)@[k]@),
        old(tasks)@.len() <= final(tasks)@.len() <= old(tasks)@.len() + 1,
        holds_key(task_views(old(tasks)@), t@) ==> task_views(final(tasks)@) == task_views(old(tasks)@),
{
    let ghost before = task_views(tasks@);
    let n = tasks.len();
    let mut p: usize = 0;
    while p < n && task_lt(&tasks[p], &t)
        invariant
            n == tasks@.len(),
            before == task_views(tasks@),
            p <= n,
            forall|j: int| 0 <= j < p ==> task_before(#[trigger] before[j], t@),
        decreases n - p,
    {
        p = p + 1;
    }
    let fresh = if p < n {
        !(tasks[p].when == t.when && tasks[p].topic == t.topic && tasks[p].partition == t.partition)
    } else {
        true
    };
    if fresh {
        let ghost tv = t@;
        proof {
            // No task stands at the place of `t` yet.
            if holds_key(before, tv) {
                let k = choose|k: int| 0 <= k < before.len() && same_key(#[trigger] before[k], tv);
                lemma_before_total(before[k], tv);
                if k >= p {
                    lemma_before_total(tv, before[p as int]);
                    if k > p {
                        lemma_before_transitive(tv, before[p as int], before[k]);
                    }
                }
            }
        }
        tasks.insert(p, t);
        proof {
            let after = task_views(tasks@);
            assert(after =~= before.insert(p as int, tv));
            assert forall|i: int, j: int| 0 <= i < j < after.len() implies task_before(after[i], after[j]) by {
                if j < p {
                    assert(after[i] == before[i] && after[j] == before[j]);
                } else if j == p {
                    assert(after[i] == before[i]);
                } else {
                    assert(after[j] == before[j - 1]);
                    if i < p {
                        assert(after[i] == before[i]);
                    } else if i == p {
                        lemma_before_total(tv, before[p as int]);
                        if j - 1 > p {
                            lemma_before_transitive(tv, before[p as int], before[j - 1]);
                        }
                    } else {
                        assert(after[i] == before[i - 1]);
                    }
                }
            }
            assert(same_key(after[p as int], tv));
            assert forall|x: QueryTaskView| holds_key(before, x) implies holds_key(after, x) by {
                let k = choose|k: int| 0 <= k < before.len() && same_key(#[trigger] before[k], x);
                if k < p {
                    assert(same_key(after[k], x));
                } else {
                    assert(same_key(after[k + 1], x));
                }
            }
            assert forall|k: int| 0 <= k < tasks@.len() implies (#[trigger] tasks@[k])@ == tv || before.contains(
                tasks@[k]@,
            ) by {
                assert(tasks@[k]@ == after[k]);
                if k < p {
                    assert(before[k] == after[k]);
                } else if k > p {
                    assert(before[k - 1] == after[k]);
                }
            }
        }
    } else {
        proof {
            assert(same_key(before[p as int], t@));
            assert forall|k: int| 0 <= k < tasks@.len() implies (#[trigger] tasks@[k])@ == t@ || before.contains(
                tasks@[k]@,
            ) by {
                assert(before[k] == tasks@[k]@);
            }
        }
    }
}

/// The number that the topic's name draws: the first output of the generator
/// that `rand_seeder`'s SipHash makes of the name.
pub uninterp spec fn sip_draw(name: Seq<char>) -> u64;

/// Hashes the name with `rand_seeder::SipHasher`, turns the hasher into its
/// generator and takes the generator's first `u64`. The hasher has fixed keys,
/// so the number depends on the name alone; the contract gives it a name and
/// claims nothing else.
#[verifier::external_body]
fn topic_draw(name: &str) -> (r: u64)
    ensures
        r == sip_draw(name@),
{
    rand_seeder::SipHasher::from(name).into_rng().next_u64()
}

/// Two to the power of 53: the number of steps between 0 and 1 that a draw is
/// cut down to.
pub const DRAW_STEPS: u64 = 0x20_0000_0000_0000;

/// The time between two queries of a topic with `n` partitions.
pub open spec fn shift_of(interval: u64, n: int) -> int {
    if n > 0 { interval as int / n } else { 0 }
}

/// A draw scaled down to a part of `shift`: the draw's upper 53 bits, taken
/// as a fraction of one, times `shift`.
pub open spec fn scaled(draw: u64, shift: int) -> int {
    shift * (draw as int / 2048) / (DRAW_STEPS as int)
}

/// How far a topic's queries are moved into the round: the topic's draw
/// scaled down to a part of the time between two of its queries.
pub open spec fn jitter_of(name: Seq<char>, shift: int) -> int {
    scaled(sip_draw(name), shift)
}

/// The query planned for partition number `i` of a topic, in a round that
/// starts at `now`.
pub open spec fn planned(meta: TopicMetaView, now: u64, interval: u64, i: int) -> QueryTaskView {
    let shift = shift_of(interval, meta.partitions.len() as int);
    QueryTaskView {
        when: (now + jitter_of(meta.name, shift) + shift * i) as u64,
        topic: meta.name,
        partition: meta.partitions[i].id,
        leader: meta.partitions[i].leader,
    }
}

/// Whether `t` is the query planned for some partition of some topic.
pub open spec fn is_planned(metas: Seq<TopicMetaView>, now: u64, interval: u64, t: QueryTaskView) -> bool {
    exists|ti: int, pi: int|
        0 <= ti < metas.len() && 0 <= pi < metas[ti].partitions.len() && t == #[trigger] planned(
            metas[ti],
            now,
            interval,
            pi,
        )
}

/// The jitter spreads a topic's queries without pushing any of them out of
/// the round: every planned query is due within one interval from `now`.
pub proof fn lemma_planned_in_round(meta: TopicMetaView, now: u64, interval: u64, i: int)
    requires
        0 <= i < meta.partitions.len(),
    ensures
        0 <= jitter_of(meta.name, shift_of(interval, meta.partitions.len() as int)) <= shift_of(
            interval,
            meta.partitions.len() as int,
        ),
        now <= now + jitter_of(meta.name, shift_of(interval, meta.partitions.len() as int)) + shift_of(
            interval,
            meta.partitions.len() as int,
        ) * i <= now + interval,
{
    let n = meta.partitions.len() as int;
    let shift = shift_of(interval, n);
    let f = sip_draw(meta.name) as int / 2048;
    let iv = interval as int;
    assert(0 <= shift && shift * n <= iv) by (nonlinear_arith)
        requires
            shift == iv / n,
            n > 0,
            iv >= 0,
    ;
    assert(0 <= f < 0x20_0000_0000_0000);
    assert(0 <= shift * f / 0x20_0000_0000_0000 <= shift) by (nonlinear_arith)
        requires
            0 <= f < 0x20_0000_0000_0000,
            0 <= shift,
    ;
    assert(0 <= shift * i && shift * i + shift <= shift * n) by (nonlinear_arith)
        requires
            0 <= i < n,
            0 <= shift,
    ;
}

/// The time between two queries of a topic with `n` partitions.
pub fn query_shift(interval: u64, n: usize) -> (shift: u64)
    ensures
        shift == shift_of(interval, n as int),
{
    if n > 0 { interval / (n as u64) } else { 0 }
}

/// Scales a draw down to a part of `shift`.
pub fn scale_draw(draw: u64, shift: u64) -> (part: u64)
    ensures
        part == scaled(draw, shift as int),
        part <= shift,
{
    let f: u64 = draw / 2048;
    proof {
        let s = shift as int;
        let fi = f as int;
        assert(0 <= s * fi <= 0xffff_ffff_ffff_ffff * 0x20_0000_0000_0000) by (nonlinear_arith)
            requires
                0 <= s <= 0xffff_ffff_ffff_ffff,
                0 <= fi < 0x20_0000_0000_0000,
        ;
        assert(0 <= s * fi / 0x20_0000_0000_0000 <= s) by (nonlinear_arith)
            requires
                0 <= fi < 0x20_0000_0000_0000,
                0 <= s,
        ;
    }
    let wide: u128 = (shift as u128) * (f as u128) / (DRAW_STEPS as u128);
    wide as u64
}

/// How far the queries of the topic `name` are moved into the round.
pub fn topic_jitter(name: &str, shift: u64) -> (jitter: u64)
    ensures
        jitter == jitter_of(name@, shift as int),
        jitter <= shift,
{
    scale_draw(topic_draw(name), shift)
}


/// Whether the list holds `x`.
fn holds(list: &Vec<i32>, x: i32) -> (r: bool)
    ensures
        r == list@.to_set().contains(x),
{
    let n = list.len();
    let mut i: usize = 0;
    while i < n
        invariant
            n == list@.len(),
            i <= n,
            forall|j: int| 0 <= j < i ==> list@[j] != x,
        decreases n - i,
    {
        if list[i] == x {
            assert(list@.contains(x));
            return true;
        }
        i = i + 1;
    }
    false
}

/// Adds `x` to the list unless it is there.
fn insert_id(list: &mut Vec<i32>, x: i32)
    ensures
        final(list)@.to_set() == old(list)@.to_set().insert(x),
{
    let ghost before = list@;
    if !holds(list, x) {
        list.push(x);
        proof {
            assert forall|a: i32| list@.contains(a) <==> before.contains(a) || a == x by {
                if list@.contains(a) {
                    let i = choose|i: int| 0 <= i < list@.len() && list@[i] == a;
                    if i < before.len() {
                        assert(before[i] == a);
                    }
                }
                if before.contains(a) {
                    let i = choose|i: int| 0 <= i < before.len() && before[i] == a;
                    assert(list@[i] == a);
                }
                if a == x {
                    assert(list@[before.len() as int] == a);
                }
            }
        }
    }
    proof {
        assert(list@.to_set() =~= before.to_set().insert(x));
    }
}

/// The list without `x`.
fn exclude(list: &Vec<i32>, x: i32) -> (r: Vec<i32>)
    ensures
        r@.to_set() == list@.to_set().remove(x),
{
    let mut out: Vec<i32> = Vec::new();
    let n = list.len();
    let mut i: usize = 0;
    while i < n
        invariant
            n == list@.len(),
            i <= n,
            forall|a: i32|
                #![trigger out@.contains(a)]
                #![trigger list@.take(i as int).contains(a)]
                out@.contains(a) <==> list@.take(i as int).contains(a) && a != x,
        decreases n - i,
    {
        let v = list[i];
        let ghost prev = out@;
        if v != x {
            out.push(v);
        }
        proof {
            let head = list@.take(i as int);
            let cur = list@.take(i + 1);
            assert forall|a: i32| out@.contains(a) <==> cur.contains(a) && a != x by {
                if out@.contains(a) {
                    let k = choose|k: int| 0 <= k < out@.len() && out@[k] == a;
                    if k < prev.len() {
                        assert(prev[k] == a);
                        assert(prev.contains(a));
                        assert(head.contains(a) && a != x);
                        let h = choose|h: int| 0 <= h < head.len() && head[h] == a;
                        assert(cur[h] == a);
                    } else {
                        assert(cur[i as int] == a);
                    }
                }
                if cur.contains(a) && a != x {
                    let h = choose|h: int| 0 <= h < cur.len() && cur[h] == a;
                    if h < i {
                        assert(head[h] == a);
                        assert(head.contains(a));
                        assert(prev.contains(a));
                        let k = choose|k: int| 0 <= k < prev.len() && prev[k] == a;
                        assert(out@[k] == a);
                    } else {
                        assert(out@[prev.len() as int] == a);
                    }
                }
            }
        }
        i = i + 1;
    }
    proof {
        assert(list@.take(n as int) =~= list@);
        assert(out@.to_set() =~= list@.to_set().remove(x));
    }
    out
}

/// A copy of the list.
fn copy_of(list: &Vec<i32>) -> (r: Vec<i32>)
    ensures
        r@ == list@,
{
    let mut out: Vec<i32> = Vec::new();
    let n = list.len();
    let mut i: usize = 0;
    while i < n
        invariant
            n == list@.len(),
            i <= n,
            out@ == list@.take(i as int),
        decreases n - i,
    {
        out.push(list[i]);
        proof {
            assert(out@ =~= list@.take(i + 1));
        }
        i = i + 1;
    }
    proof {
        assert(list@.take(n as int) =~= list@);
    }
    out
}

/// What the sampler and the prober share: the brokers in quarantine, and the
/// polling period.
#[derive(Debug)]
pub struct State {
    bad_brokers: Vec<i32>,
    query_interval: u64,
}

/// [`State`] as plain data.
pub struct StateView {
    pub bad_brokers: Set<i32>,
    pub query_interval: u64,
}

impl View for State {
    type V = StateView;

    closed spec fn view(&self) -> StateView {
        StateView { bad_brokers: self.bad_brokers@.to_set(), query_interval: self.query_interval }
    }
}

impl Default for State {
    fn default() -> (r: State)
        ensures
            r@ == (StateView { bad_brokers: Set::empty(), query_interval: 0 }),
    {
        State::new(0)
    }
}

impl State {
    /// A state with nobody in quarantine.
    pub fn new(query_interval: u64) -> (r: State)
        ensures
            r@ == (StateView { bad_brokers: Set::empty(), query_interval }),
    {
        let r = State { bad_brokers: Vec::new(), query_interval };
        proof {
            assert(r.bad_brokers@.to_set() =~= Set::<i32>::empty());
        }
        r
    }

    /// The polling period.
    pub fn query_interval(&self) -> (r: u64)
        ensures
            r == self@.query_interval,
    {
        self.query_interval
    }

    /// Whether the broker is in quarantine.
    pub fn is_bad(&self, broker: i32) -> (r: bool)
        ensures
            r == self@.bad_brokers.contains(broker),
    {
        holds(&self.bad_brokers, broker)
    }

    /// Puts the broker into quarantine.
    pub fn quarantine(&mut self, broker: i32)
        ensures
            final(self)@ == (StateView {
                bad_brokers: old(self)@.bad_brokers.insert(broker),
                ..old(self)@
            }),
    {
        insert_id(&mut self.bad_brokers, broker);
    }

    /// The brokers in quarantine, each once, in no particular order.
    pub fn bad_brokers(&self) -> (r: Vec<i32>)
        ensures
            r@.to_set() == self@.bad_brokers,
    {
        copy_of(&self.bad_brokers)
    }

    /// Empties the quarantine into a probe round: every broker that was in
    /// quarantine is a suspect still to be tested.
    pub fn drain(&mut self) -> (probe: Probe)
        ensures
            final(self)@ == (StateView { bad_brokers: Set::empty(), ..old(self)@ }),
            probe@ == (ProbeView { untested: old(self)@.bad_brokers, failed: Set::empty() }),
            probe@.wf(),
    {
        let mut untested: Vec<i32> = Vec::new();
        core::mem::swap(&mut untested, &mut self.bad_brokers);
        let probe = Probe { untested, failed: Vec::new() };
        proof {
            assert(self.bad_brokers@.to_set() =~= Set::<i32>::empty());
            assert(probe.failed@.to_set() =~= Set::<i32>::empty());
        }
        probe
    }

    /// Ends a probe round: the quarantine becomes the brokers that failed
    /// their test, whatever it held before.
    pub fn replace(&mut self, probe: Probe)
        ensures
            final(self)@ == (StateView { bad_brokers: probe@.failed, ..old(self)@ }),
    {
        self.bad_brokers = probe.failed;
    }
}

/// One round of re-testing the brokers that were in quarantine.
#[derive(Debug)]
pub struct Probe {
    untested: Vec<i32>,
    failed: Vec<i32>,
}

/// [`Probe`] as plain data.
pub struct ProbeView {
    /// Suspects that no query has been sent to yet.
    pub untested: Set<i32>,
    /// Suspects whose query failed.
    pub failed: Set<i32>,
}

impl ProbeView {
    /// No suspect is both untested and failed.
    pub open spec fn wf(self) -> bool {
        self.untested.disjoint(self.failed)
    }

    /// Whether a partition led by `leader` is to be queried: only suspects
    /// are, and each at most once.
    pub open spec fn wants(self, leader: i32) -> bool {
        self.untested.contains(leader)
    }

    /// The round after the query of a partition led by `leader` came back.
    /// A suspect that answers is cleared; one that does not has failed. The
    /// outcome for a broker that was not to be queried changes nothing.
    pub open spec fn record(self, leader: i32, ok: bool) -> ProbeView {
        if self.wants(leader) {
            ProbeView {
                untested: self.untested.remove(leader),
                failed: if ok { self.failed } else { self.failed.insert(leader) },
            }
        } else {
            self
        }
    }

    /// The round after a list of outcomes, taken in order.
    pub open spec fn record_all(self, outcomes: Seq<(i32, bool)>) -> ProbeView
        decreases outcomes.len(),
    {
        if outcomes.len() == 0 {
            self
        } else {
            self.record_all(outcomes.drop_last()).record(outcomes.last().0, outcomes.last().1)
        }
    }
}

impl View for Probe {
    type V = ProbeView;

    closed spec fn view(&self) -> ProbeView {
        ProbeView { untested: self.untested@.to_set(), failed: self.failed@.to_set() }
    }
}

impl Probe {
    /// Whether a partition led by `leader` is to be queried.
    pub fn wants(&self, leader: i32) -> (r: bool)
        ensures
            r == self@.wants(leader),
    {
        holds(&self.untested, leader)
    }

    /// Takes in the outcome of the query of a partition led by `leader`.
    pub fn record(&mut self, leader: i32, ok: bool)
        requires
            old(self)@.wf(),
        ensures
            final(self)@ == old(self)@.record(leader, ok),
            final(self)@.wf(),
    {
        if holds(&self.untested, leader) {
            self.untested = exclude(&self.untested, leader);
            if !ok {
                insert_id(&mut self.failed, leader);
            }
        }
    }

    /// The suspects whose query failed, each once, in no particular order.
    pub fn failed(&self) -> (r: Vec<i32>)
        ensures
            r@.to_set() == self@.failed,
    {
        copy_of(&self.failed)
    }
}

/// A suspect that answered stays out of the failed ones for the rest of the
/// round, whatever outcomes follow.
pub proof fn lemma_cleared_stays_out(probe: ProbeView, leader: i32, later: Seq<(i32, bool)>)
    requires
        probe.wf(),
        probe.wants(leader),
    ensures
        !probe.record(leader, true).record_all(later).failed.contains(leader),
        !probe.record(leader, true).record_all(later).untested.contains(leader),
        probe.record(leader, true).record_all(later).wf(),
    decreases later.len(),
{
    if later.len() > 0 {
        lemma_cleared_stays_out(probe, leader, later.drop_last());
    }
}

/// A suspect whose query failed is among the failed ones at the end of the
/// round, whatever outcomes follow.
pub proof fn lemma_failed_stays_in(probe: ProbeView, leader: i32, later: Seq<(i32, bool)>)
    requires
        probe.wf(),
        probe.wants(leader),
    ensures
        probe.record(leader, false).record_all(later).failed.contains(leader),
        probe.record(leader, false).record_all(later).wf(),
    decreases later.len(),
{
    if later.len() > 0 {
        lemma_failed_stays_in(probe, leader, later.drop_last());
    }
}

/// When the next round is due.
#[derive(Clone, Copy, PartialEq, Eq, Structural, Debug)]
pub struct Pace {
    pub next: u64,
}

impl Pace {
    /// Moves the deadline one interval on, at the start of a round.
    pub fn advance(&mut self, interval: u64)
        requires
            old(self).next + interval <= u64::MAX,
        ensures
            final(self).next == old(self).next + interval,
    {
        self.next = self.next + interval;
    }

    /// At the end of a round: how long to sleep until the deadline. A round
    /// that overran does not sleep and starts the next interval at `now`.
    pub fn rest(&mut self, now: u64) -> (sleep: Option<u64>)
        ensures
            old(self).next >= now ==> sleep == Some((old(self).next - now) as u64) && final(self).next
                == old(self).next,
            old(self).next < now ==> sleep is None && final(self).next == now,
    {
        if self.next >= now {
            Some(self.next - now)
        } else {
            self.next = now;
            None
        }
    }
}


/// Where a round stands with the task it is at.
#[derive(Clone, Copy, PartialEq, Eq, Structural, Debug)]
pub enum Stage {
    /// The task has not been looked at.
    Visit,
    /// The task's query is out; its answer is awaited.
    Await,
    /// The task is dealt with; what is left is to see whether it was the last
    /// of its topic.
    Close,
}

/// One round of the sampler: the schedule, how far it has been walked, and
/// the brokers to keep away from.
#[derive(Debug)]
pub struct Round {
    tasks: Vec<QueryTask>,
    pos: usize,
    stage: Stage,
    bads: Vec<i32>,
}

/// [`Round`] as plain data.
pub struct RoundView {
    /// The schedule, in the order the queries are due.
    pub tasks: Seq<QueryTaskView>,
    /// The task the round is at.
    pub pos: int,
    pub stage: Stage,
    /// The brokers that were in quarantine when the round began or failed a
    /// query since.
    pub bads: Set<i32>,
}

/// What the sampler is to do next.
#[derive(Debug)]
pub enum Step {
    /// Wait until `when` if that is still ahead, then fetch the watermarks of
    /// the partition and hand the outcome to [`Round::answer`].
    Query { when: u64, topic: String, partition: i32 },
    /// Report that the round of `topic` is finished.
    Finished { topic: String },
    /// Nothing to do for this step; ask again.
    Again,
    /// The schedule is walked through.
    Done,
}

/// [`Step`] as plain data.
pub enum StepView {
    Query { when: u64, topic: Seq<char>, partition: i32 },
    Finished { topic: Seq<char> },
    Again,
    Done,
}

impl View for Step {
    type V = StepView;

    open spec fn view(&self) -> StepView {
        match *self {
            Step::Query { when, topic, partition } => StepView::Query { when, topic: topic@, partition },
            Step::Finished { topic } => StepView::Finished { topic: topic@ },
            Step::Again => StepView::Again,
            Step::Done => StepView::Done,
        }
    }
}

/// The view of a message that may be absent.
pub open spec fn message_view(m: Option<Message>) -> Option<MessageView> {
    match m {
        Some(m) => Some(m@),
        None => None,
    }
}

impl RoundView {
    /// The round stands at a task or at the end of the schedule.
    pub open spec fn wf(self) -> bool {
        0 <= self.pos <= self.tasks.len()
    }

    /// Whether task `i` is the last of its topic in the schedule.
    pub open spec fn closes(self, i: int) -> bool {
        forall|j: int| i < j < self.tasks.len() ==> (#[trigger] self.tasks[j]).topic != self.tasks[i].topic
    }

    /// Whether the round waits for the answer to a query.
    pub open spec fn awaiting(self) -> bool {
        self.pos < self.tasks.len() && self.stage == Stage::Await
    }

    /// One step of the walk: the round after it, and what is to be done.
    ///
    /// A task whose leader is to be kept away from is passed over, any other
    /// is queried. Once a task is dealt with, the round moves on, and reports
    /// the topic as finished if that was the topic's last task.
    pub open spec fn step(self) -> (RoundView, StepView) {
        if self.pos >= self.tasks.len() {
            (self, StepView::Done)
        } else {
            let t = self.tasks[self.pos];
            match self.stage {
                Stage::Visit => if self.bads.contains(t.leader) {
                    (RoundView { stage: Stage::Close, ..self }, StepView::Again)
                } else {
                    (
                        RoundView { stage: Stage::Await, ..self },
                        StepView::Query { when: t.when, topic: t.topic, partition: t.partition },
                    )
                },
                Stage::Await => (
                    self,
                    StepView::Query { when: t.when, topic: t.topic, partition: t.partition },
                ),
                Stage::Close => (
                    RoundView { pos: self.pos + 1, stage: Stage::Visit, ..self },
                    if self.closes(self.pos) {
                        StepView::Finished { topic: t.topic }
                    } else {
                        StepView::Again
                    },
                ),
            }
        }
    }

    /// The round after the awaited answer came: `high` is the high watermark,
    /// or nothing if the query failed. A failed query puts the task's leader
    /// among the brokers to keep away from.
    pub open spec fn answer(self, high: Option<i64>) -> RoundView {
        if self.awaiting() {
            RoundView {
                stage: Stage::Close,
                bads: if high is None { self.bads.insert(self.tasks[self.pos].leader) } else { self.bads },
                ..self
            }
        } else {
            self
        }
    }

    /// What the awaited answer, come at `now`, makes the sampler report.
    pub open spec fn report(self, high: Option<i64>, now: u64) -> Option<MessageView> {
        if self.awaiting() && high is Some {
            Some(
                MessageView::PartitionOffsets {
                    now,
                    topic: self.tasks[self.pos].topic,
                    partition: self.tasks[self.pos].partition,
                    offset: high->0,
                },
            )
        } else {
            None
        }
    }

    /// The quarantine after the awaited answer came: a failed query puts the
    /// task's leader into it.
    pub open spec fn sentence(self, high: Option<i64>, shared: StateView) -> StateView {
        if self.awaiting() && high is None {
            StateView { bad_brokers: shared.bad_brokers.insert(self.tasks[self.pos].leader), ..shared }
        } else {
            shared
        }
    }
}

impl View for Round {
    type V = RoundView;

    closed spec fn view(&self) -> RoundView {
        RoundView {
            tasks: task_views(self.tasks@),
            pos: self.pos as int,
            stage: self.stage,
            bads: self.bads@.to_set(),
        }
    }
}

/// Plans the queries of one topic into the schedule.
fn plan_topic(tasks: &mut Vec<QueryTask>, meta: &TopicMeta, now: u64, interval: u64)
    requires
        ordered(task_views(old(tasks)@)),
        now + interval <= u64::MAX,
    ensures
        ordered(task_views(final(tasks)@)),
        forall|pi: int|
            0 <= pi < meta@.partitions.len() ==> holds_key(
                task_views(final(tasks)@),
                #[trigger] planned(meta@, now, interval, pi),
            ),
        forall|x: QueryTaskView|
            holds_key(task_views(old(tasks)@), x) ==> holds_key(task_views(final(tasks)@), x),
        forall|k: int|
            0 <= k < final(tasks)@.len() ==> task_views(old(tasks)@).contains(
                (#[trigger] final(tasks)@[k])@,
            ) || exists|pi: int|
                0 <= pi < meta@.partitions.len() && final(tasks)@[k]@ == #[trigger] planned(
                    meta@,
                    now,
                    interval,
                    pi,
                ),
{
    let ghost before = task_views(tasks@);
    let n = meta.partitions.len();
    if n == 0 {
        proof {
            assert forall|k: int| 0 <= k < tasks@.len() implies before.contains((#[trigger] tasks@[k])@) by {
                assert(before[k] == tasks@[k]@);
            }
        }
        return ;
    }
    let shift = query_shift(interval, n);
    let jitter = topic_jitter(meta.name.as_str(), shift);
    let mut offset: u64 = 0;
    let mut i: usize = 0;
    proof {
        assert forall|k: int| 0 <= k < tasks@.len() implies before.contains((#[trigger] tasks@[k])@) by {
            assert(before[k] == tasks@[k]@);
        }
        lemma_planned_in_round(meta@, now, interval, 0);
    }
    while i < n
        invariant
            n == meta@.partitions.len(),
            n > 0,
            i <= n,
            now + interval <= u64::MAX,
            shift == shift_of(interval, n as int),
            jitter == jitter_of(meta@.name, shift as int),
            offset == shift * i,
            ordered(task_views(tasks@)),
            forall|pi: int|
                0 <= pi < i ==> holds_key(task_views(tasks@), #[trigger] planned(meta@, now, interval, pi)),
            forall|x: QueryTaskView| holds_key(before, x) ==> holds_key(task_views(tasks@), x),
            forall|k: int|
                0 <= k < tasks@.len() ==> before.contains((#[trigger] tasks@[k])@) || exists|pi: int|
                    0 <= pi < meta@.partitions.len() && tasks@[k]@ == #[trigger] planned(
                        meta@,
                        now,
                        interval,
                        pi,
                    ),
        decreases n - i,
    {
        proof {
            lemma_planned_in_round(meta@, now, interval, i as int);
            assert(shift * (i + 1) == shift * i + shift) by (nonlinear_arith);
            if i + 1 < n {
                lemma_planned_in_round(meta@, now, interval, i + 1);
            } else {
                assert(shift * n <= interval) by (nonlinear_arith)
                    requires
                        shift == interval as int / n as int,
                        n > 0,
                ;
            }
        }
        let part = meta.partitions[i];
        let task = QueryTask {
            when: now + jitter + offset,
            topic: meta.name.clone(),
            partition: part.id,
            leader: part.leader,
        };
        let ghost mid = tasks@;
        let ghost tv = task@;
        assert(tv == planned(meta@, now, interval, i as int));
        insert_task(tasks, task);
        proof {
            assert forall|k: int| 0 <= k < tasks@.len() implies before.contains((#[trigger] tasks@[k])@)
                || exists|pi: int|
                0 <= pi < meta@.partitions.len() && tasks@[k]@ == #[trigger] planned(meta@, now, interval, pi) by {
                if tasks@[k]@ == tv {
                } else {
                    assert(task_views(mid).contains(tasks@[k]@));
                    let j = choose|j: int| 0 <= j < task_views(mid).len() && task_views(mid)[j] == tasks@[k]@;
                    assert(mid[j]@ == tasks@[k]@);
                }
            }
        }
        offset = offset + shift;
        i = i + 1;
    }
}

impl Round {
    /// Plans a round that starts at `now`: one query for every partition of
    /// every topic, each topic's queries one `interval / n` apart and moved
    /// into the round by the topic's jitter, all in the order they are due.
    /// The round keeps away from the brokers that are in quarantine now.
    pub fn plan(metas: &Vec<TopicMeta>, now: u64, interval: u64, shared: &State) -> (r: Round)
        requires
            now + interval <= u64::MAX,
        ensures
            r@.pos == 0,
            r@.stage == Stage::Visit,
            r@.bads == shared@.bad_brokers,
            r@.wf(),
            ordered(r@.tasks),
            forall|ti: int, pi: int|
                0 <= ti < metas@.len() && 0 <= pi < metas@[ti]@.partitions.len() ==> holds_key(
                    r@.tasks,
                    #[trigger] planned(metas@[ti]@, now, interval, pi),
                ),
            forall|k: int|
                0 <= k < r@.tasks.len() ==> is_planned(meta_views(metas@), now, interval, #[trigger] r@.tasks[k]),
    {
        let mut tasks: Vec<QueryTask> = Vec::new();
        let n = metas.len();
        let mut t: usize = 0;
        let ghost views = meta_views(metas@);
        while t < n
            invariant
                n == metas@.len(),
                views == meta_views(metas@),
                t <= n,
                now + interval <= u64::MAX,
                ordered(task_views(tasks@)),
                forall|ti: int, pi: int|
                    0 <= ti < t && 0 <= pi < metas@[ti]@.partitions.len() ==> holds_key(
                        task_views(tasks@),
                        #[trigger] planned(metas@[ti]@, now, interval, pi),
                    ),
                forall|k: int|
                    0 <= k < tasks@.len() ==> is_planned(views, now, interval, (#[trigger] tasks@[k])@),
            decreases n - t,
        {
            let ghost mid = tasks@;
            plan_topic(&mut tasks, &metas[t], now, interval);
            proof {
                assert forall|k: int| 0 <= k < tasks@.len() implies is_planned(
                    views,
                    now,
                    interval,
                    (#[trigger] tasks@[k])@,
                ) by {
                    if task_views(mid).contains(tasks@[k]@) {
                        let j = choose|j: int| 0 <= j < task_views(mid).len() && task_views(mid)[j] == tasks@[k]@;
                        assert(mid[j]@ == tasks@[k]@);
                    } else {
                        let pi = choose|pi: int|
                            0 <= pi < metas@[t as int]@.partitions.len() && tasks@[k]@ == #[trigger] planned(
                                metas@[t as int]@,
                                now,
                                interval,
                                pi,
                            );
                        assert(views[t as int] == metas@[t as int]@);
                        assert(tasks@[k]@ == planned(views[t as int], now, interval, pi));
                    }
                }
            }
            t = t + 1;
        }
        let r = Round { tasks, pos: 0, stage: Stage::Visit, bads: copy_of(&shared.bad_brokers) };
        proof {
            assert forall|k: int| 0 <= k < r@.tasks.len() implies is_planned(
                views,
                now,
                interval,
                #[trigger] r@.tasks[k],
            ) by {
                assert(r@.tasks[k] == r.tasks@[k]@);
            }
        }
        r
    }

    /// The schedule, in the order the queries are due.
    pub fn tasks(&self) -> (r: &Vec<QueryTask>)
        ensures
            task_views(r@) == self@.tasks,
    {
        &self.tasks
    }

    /// Whether task `i` is the last of its topic in the schedule.
    fn closes(&self, i: usize) -> (r: bool)
        requires
            i < self@.tasks.len(),
        ensures
            r == self@.closes(i as int),
    {
        let n = self.tasks.len();
        let mut j: usize = i + 1;
        while j < n
            invariant
                n == self.tasks@.len(),
                i < j <= n,
                forall|k: int| i < k < j ==> (#[trigger] self@.tasks[k]).topic != self@.tasks[i as int].topic,
            decreases n - j,
        {
            if self.tasks[j].topic == self.tasks[i].topic {
                proof {
                    assert(self@.tasks[j as int].topic == self@.tasks[i as int].topic);
                }
                return false;
            }
            j = j + 1;
        }
        true
    }

    /// Takes one step of the walk and says what is to be done.
    pub fn next(&mut self) -> (step: Step)
        requires
            old(self)@.wf(),
        ensures
            final(self)@ == old(self)@.step().0,
            step@ == old(self)@.step().1,
            final(self)@.wf(),
    {
        if self.pos >= self.tasks.len() {
            return Step::Done;
        }
        let ghost t = self@.tasks[self.pos as int];
        proof {
            assert(t == self.tasks@[self.pos as int]@);
        }
        match self.stage {
            Stage::Visit => {
                if holds(&self.bads, self.tasks[self.pos].leader) {
                    self.stage = Stage::Close;
                    Step::Again
                } else {
                    self.stage = Stage::Await;
                    Step::Query {
                        when: self.tasks[self.pos].when,
                        topic: self.tasks[self.pos].topic.clone(),
                        partition: self.tasks[self.pos].partition,
                    }
                }
            },
            Stage::Await => Step::Query {
                when: self.tasks[self.pos].when,
                topic: self.tasks[self.pos].topic.clone(),
                partition: self.tasks[self.pos].partition,
            },
            Stage::Close => {
                let last = self.closes(self.pos);
                let step = if last {
                    Step::Finished { topic: self.tasks[self.pos].topic.clone() }
                } else {
                    Step::Again
                };
                self.pos = self.pos + 1;
                self.stage = Stage::Visit;
                step
            },
        }
    }

    /// Takes in the answer to the query that is out: the high watermark, or
    /// nothing if the query failed. `now` is when the answer came.
    ///
    /// A watermark is reported as the partition's offset. A failure puts the
    /// partition's leader into quarantine, and the rest of the round keeps
    /// away from it. Without a query out, nothing happens.
    pub fn answer(&mut self, high: Option<i64>, now: u64, shared: &mut State) -> (msg: Option<Message>)
        requires
            old(self)@.wf(),
        ensures
            final(self)@ == old(self)@.answer(high),
            message_view(msg) == old(self)@.report(high, now),
            final(shared)@ == old(self)@.sentence(high, old(shared)@),
            final(self)@.wf(),
    {
        if self.pos >= self.tasks.len() {
            return None;
        }
        match self.stage {
            Stage::Await => {},
            _ => {
                return None;
            },
        }
        proof {
            assert(self@.tasks[self.pos as int] == self.tasks@[self.pos as int]@);
        }
        self.stage = Stage::Close;
        match high {
            Some(offset) => Some(
                Message::PartitionOffsets {
                    now,
                    topic: self.tasks[self.pos].topic.clone(),
                    partition: self.tasks[self.pos].partition,
                    offset,
                },
            ),
            None => {
                let leader = self.tasks[self.pos].leader;
                insert_id(&mut self.bads, leader);
                shared.quarantine(leader);
                None
            },
        }
    }
}


/// A failed query puts the leader of its partition into quarantine, and the
/// rest of the round keeps away from that broker.
pub proof fn lemma_failure_quarantines(round: RoundView, shared: StateView)
    requires
        round.awaiting(),
    ensures
        round.sentence(None, shared).bad_brokers.contains(round.tasks[round.pos].leader),
        round.answer(None).bads.contains(round.tasks[round.pos].leader),
        round.report(None, 0) is None,
{
}

/// A round never reports a topic as finished while tasks of that topic are
/// still ahead: after such a report, no task from the round's place on names
/// the topic.
pub proof fn lemma_finished_is_last(round: RoundView)
    requires
        round.wf(),
        round.step().1 is Finished,
    ensures
        forall|j: int|
            round.step().0.pos <= j < round.tasks.len() ==> (#[trigger] round.tasks[j]).topic
                != round.step().1->Finished_topic,
{
    assert(round.closes(round.pos));
}

} // verus!
