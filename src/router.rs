//! The frame router: a map from channel id to that channel's publisher slot and its
//! raw and annotated subscriber sinks, plus the bounded queue that feeds the single
//! inference worker.
use crate::channel_id::{channel_id_of, hashed};
use crate::multipart::{as_jpeg_stream_item, extend_bytes, wrapped};
use vstd::prelude::*;
use vstd::string::StringSliceAdditionalSpecFns;

verus! {

/// Default capacity of a subscriber sink, in frames.
pub const DEFAULT_SINK_CAPACITY: usize = 20;

/// Default capacity of the inference queue, in jobs.
pub const DEFAULT_INFER_CAPACITY: usize = 10;

/// Default time after which an unused channel may be swept away, in milliseconds.
pub const DEFAULT_IDLE_MS: u64 = 5000;

/// Idle time after which `publish` itself drops an unused channel, in milliseconds.
pub const GRACE_MS: u64 = 500;

/// What a subscriber sink holds, as plain values.
pub ghost struct SinkView {
    pub id: u64,
    pub items: Seq<Seq<u8>>,
    pub capacity: nat,
    pub open: bool,
}

/// A sink takes one more item only when its receiver is still there and it has room.
pub open spec fn accepts(s: SinkView) -> bool {
    s.open && s.items.len() < s.capacity
}

/// `s` after `item` was queued in it.
pub open spec fn delivered(s: SinkView, item: Seq<u8>) -> SinkView {
    SinkView { items: s.items.push(item), ..s }
}

/// The subscriber collection after one try-send of `item` to each sink: sinks that
/// accept it keep their place and hold it, the others are evicted.
pub open spec fn fanout(subs: Seq<SinkView>, item: Seq<u8>) -> Seq<SinkView>
    decreases subs.len(),
{
    if subs.len() == 0 {
        Seq::empty()
    } else {
        let rest = fanout(subs.drop_last(), item);
        if accepts(subs.last()) {
            rest.push(delivered(subs.last(), item))
        } else {
            rest
        }
    }
}

/// How many sinks of `subs` accept one more item.
pub open spec fn count_accepting(subs: Seq<SinkView>) -> nat
    decreases subs.len(),
{
    if subs.len() == 0 {
        0
    } else {
        count_accepting(subs.drop_last()) + if accepts(subs.last()) {
            1nat
        } else {
            0nat
        }
    }
}

/// How many sinks of `subs` are open but full.
pub open spec fn count_full(subs: Seq<SinkView>) -> nat
    decreases subs.len(),
{
    if subs.len() == 0 {
        0
    } else {
        count_full(subs.drop_last()) + if subs.last().open && !accepts(subs.last()) {
            1nat
        } else {
            0nat
        }
    }
}

/// The open sinks of `subs`, in order.
pub open spec fn open_only(subs: Seq<SinkView>) -> Seq<SinkView>
    decreases subs.len(),
{
    if subs.len() == 0 {
        Seq::empty()
    } else {
        let rest = open_only(subs.drop_last());
        if subs.last().open {
            rest.push(subs.last())
        } else {
            rest
        }
    }
}

/// No two sinks of `subs` share an id.
pub open spec fn distinct_ids(subs: Seq<SinkView>) -> bool {
    forall|i: int, j: int| 0 <= i < subs.len() && 0 <= j < subs.len() && i != j ==> subs[i].id != subs[j].id
}

/// Every sink of `subs` has an id below `bound`.
pub open spec fn ids_below(subs: Seq<SinkView>, bound: u64) -> bool {
    forall|i: int| 0 <= i < subs.len() ==> subs[i].id < bound
}

/// The index of the first sink of `subs` with the given id.
#[verifier::opaque]
pub open spec fn sink_index(subs: Seq<SinkView>, id: u64) -> Option<int> {
    if exists|i: int| 0 <= i < subs.len() && subs[i].id == id {
        Some(
            choose|i: int|
                0 <= i < subs.len() && subs[i].id == id && forall|j: int| 0 <= j < i ==> subs[j].id != id,
        )
    } else {
        None
    }
}

/// The bounded queue of frames waiting to be written to one subscriber.
pub struct Sink {
    id: u64,
    items: Vec<Vec<u8>>,
    capacity: usize,
    open: bool,
}

impl View for Sink {
    type V = SinkView;

    closed spec fn view(&self) -> SinkView {
        SinkView {
            id: self.id,
            items: self.items@.map_values(|v: Vec<u8>| v@),
            capacity: self.capacity as nat,
            open: self.open,
        }
    }
}

/// The views of a sequence of sinks.
pub open spec fn sinks_view(subs: Seq<Sink>) -> Seq<SinkView> {
    subs.map_values(|s: Sink| s@)
}

impl Sink {
    fn new(id: u64, capacity: usize) -> (s: Sink)
        ensures
            s@ == (SinkView { id, items: Seq::empty(), capacity: capacity as nat, open: true }),
    {
        let s = Sink { id, items: Vec::new(), capacity, open: true };
        assert(s@.items =~= Seq::<Seq<u8>>::empty());
        s
    }

    fn id(&self) -> (id: u64)
        ensures
            id == self@.id,
    {
        self.id
    }

    fn is_open(&self) -> (open: bool)
        ensures
            open == self@.open,
    {
        self.open
    }

    /// Queues `item` if the sink accepts it; says whether it did.
    fn try_send(&mut self, item: Vec<u8>) -> (sent: bool)
        ensures
            sent == accepts(old(self)@),
            sent ==> final(self)@ == delivered(old(self)@, item@),
            !sent ==> final(self)@ == old(self)@,
    {
        if self.open && self.items.len() < self.capacity {
            self.items.push(item);
            assert(self@.items =~= old(self)@.items.push(item@));
            true
        } else {
            false
        }
    }

    /// Takes the oldest queued item.
    fn pop_front(&mut self) -> (item: Option<Vec<u8>>)
        ensures
            old(self)@.items.len() == 0 ==> item is None && final(self)@ == old(self)@,
            old(self)@.items.len() > 0 ==> item is Some && item->0@ == old(self)@.items[0]
                && final(self)@ == (SinkView { items: old(self)@.items.drop_first(), ..old(self)@ }),
    {
        if self.items.len() == 0 {
            None
        } else {
            let item = self.items.remove(0);
            assert(self@.items =~= old(self)@.items.drop_first());
            Some(item)
        }
    }

    /// Marks the receiving end gone and frees what was queued.
    fn close(&mut self)
        ensures
            final(self)@ == (SinkView { open: false, items: Seq::empty(), ..old(self)@ }),
    {
        self.open = false;
        self.items = Vec::new();
        assert(self@.items =~= Seq::<Seq<u8>>::empty());
    }
}

/// A copy of `bytes`.
fn copy_bytes(bytes: &Vec<u8>) -> (c: Vec<u8>)
    ensures
        c@ == bytes@,
{
    let mut c: Vec<u8> = Vec::new();
    extend_bytes(&mut c, bytes.as_slice());
    c
}

/// Tries to send `item` to every sink of `subs` in order; returns the sinks that took
/// it, how many took it and how many were open but full.
fn fanout_sinks(subs: Vec<Sink>, item: &Vec<u8>) -> (r: (Vec<Sink>, usize, usize))
    ensures
        sinks_view(r.0@) == fanout(sinks_view(subs@), item@),
        r.1 == count_accepting(sinks_view(subs@)),
        r.2 == count_full(sinks_view(subs@)),
{
    let ghost orig = sinks_view(subs@);
    let total = subs.len();
    let mut rest = subs;
    let mut kept: Vec<Sink> = Vec::new();
    let mut n_sent: usize = 0;
    let mut n_full: usize = 0;
    let ghost mut k: int = 0;
    while rest.len() > 0
        invariant
            0 <= k <= orig.len(),
            orig.len() == total,
            sinks_view(rest@) == orig.skip(k),
            sinks_view(kept@) == fanout(orig.take(k), item@),
            n_sent == count_accepting(orig.take(k)),
            n_full == count_full(orig.take(k)),
            n_sent + n_full <= k,
        decreases rest@.len(),
    {
        let ghost before = rest@;
        let mut sink = rest.remove(0);
        proof {
            assert(sinks_view(before).len() == before.len());
            assert(k < orig.len());
            assert(sinks_view(before)[0] == sink@);
            assert(orig.take(k + 1).drop_last() =~= orig.take(k));
            assert(orig.take(k + 1).last() == orig[k]);
            assert(orig.skip(k)[0] == orig[k]);
            assert(forall|i: int|
                0 <= i < rest@.len() ==> sinks_view(rest@)[i] == sinks_view(before)[i + 1]);
            assert(sinks_view(rest@) =~= orig.skip(k + 1));
        }
        let ghost sink_before = sink@;
        let full = sink.is_open();
        let sent = sink.try_send(copy_bytes(item));
        if sent {
            kept.push(sink);
            n_sent = n_sent + 1;
            proof {
                assert(sinks_view(kept@) =~= fanout(orig.take(k), item@).push(
                    delivered(sink_before, item@),
                ));
            }
        } else {
            if full {
                n_full = n_full + 1;
            }
        }
        proof {
            k = k + 1;
        }
    }
    assert(orig.take(k) =~= orig);
    (kept, n_sent, n_full)
}

/// What a fanout keeps is what accepts, and the counts add up.
proof fn lemma_counts(subs: Seq<SinkView>, item: Seq<u8>)
    ensures
        fanout(subs, item).len() == count_accepting(subs),
        count_accepting(subs) + count_full(subs) <= subs.len(),
    decreases subs.len(),
{
    if subs.len() > 0 {
        lemma_counts(subs.drop_last(), item);
    }
}

/// The open sinks of `subs`, in order.
fn open_sinks(subs: Vec<Sink>) -> (r: Vec<Sink>)
    ensures
        sinks_view(r@) == open_only(sinks_view(subs@)),
{
    let ghost orig = sinks_view(subs@);
    let total = subs.len();
    let mut rest = subs;
    let mut kept: Vec<Sink> = Vec::new();
    let ghost mut k: int = 0;
    while rest.len() > 0
        invariant
            0 <= k <= orig.len(),
            orig.len() == total,
            sinks_view(rest@) == orig.skip(k),
            sinks_view(kept@) == open_only(orig.take(k)),
        decreases rest@.len(),
    {
        let ghost before = rest@;
        let sink = rest.remove(0);
        proof {
            assert(sinks_view(before).len() == before.len());
            assert(k < orig.len());
            assert(sinks_view(before)[0] == sink@);
            assert(orig.take(k + 1).drop_last() =~= orig.take(k));
            assert(orig.take(k + 1).last() == orig[k]);
            assert(orig.skip(k)[0] == orig[k]);
            assert(forall|i: int|
                0 <= i < rest@.len() ==> sinks_view(rest@)[i] == sinks_view(before)[i + 1]);
            assert(sinks_view(rest@) =~= orig.skip(k + 1));
        }
        if sink.is_open() {
            let ghost kept_before = kept@;
            kept.push(sink);
            proof {
                assert(sinks_view(kept@) =~= sinks_view(kept_before).push(orig[k]));
            }
        }
        proof {
            k = k + 1;
        }
    }
    assert(orig.take(k) =~= orig);
    kept
}

/// The sinks that survive a fanout are sinks of the input that accepted the item, and
/// ids that were distinct stay distinct.
proof fn lemma_fanout_ids(subs: Seq<SinkView>, item: Seq<u8>)
    ensures
        forall|k: int|
            0 <= k < fanout(subs, item).len() ==> exists|j: int|
                0 <= j < subs.len() && accepts(subs[j]) && #[trigger] fanout(subs, item)[k]
                    == delivered(subs[j], item),
        distinct_ids(subs) ==> distinct_ids(fanout(subs, item)),
        fanout(subs, item).len() <= subs.len(),
    decreases subs.len(),
{
    if subs.len() > 0 {
        let init = subs.drop_last();
        lemma_fanout_ids(init, item);
        let f = fanout(subs, item);
        let fi = fanout(init, item);
        assert forall|k: int| 0 <= k < f.len() implies exists|j: int|
            0 <= j < subs.len() && accepts(subs[j]) && #[trigger] f[k] == delivered(subs[j], item) by {
            if k < fi.len() {
                let j = choose|j: int|
                    0 <= j < init.len() && accepts(init[j]) && fi[k] == delivered(init[j], item);
                assert(subs[j] == init[j]);
            } else {
                assert(subs[subs.len() - 1] == subs.last());
            }
        }
        if distinct_ids(subs) {
            assert(distinct_ids(init));
            assert forall|a: int, b: int|
                0 <= a < f.len() && 0 <= b < f.len() && a != b implies f[a].id != f[b].id by {
                if a < fi.len() && b < fi.len() {
                } else if a < fi.len() {
                    let j = choose|j: int|
                        0 <= j < init.len() && accepts(init[j]) && fi[a] == delivered(init[j], item);
                    assert(subs[j] == init[j]);
                    assert(subs[subs.len() - 1] == subs.last());
                } else {
                    let j = choose|j: int|
                        0 <= j < init.len() && accepts(init[j]) && fi[b] == delivered(init[j], item);
                    assert(subs[j] == init[j]);
                    assert(subs[subs.len() - 1] == subs.last());
                }
            }
        }
    }
}

/// The open sinks of `subs` are sinks of `subs`, so they keep its bound and distinct ids.
proof fn lemma_open_only_ids(subs: Seq<SinkView>, bound: u64)
    ensures
        forall|k: int|
            0 <= k < open_only(subs).len() ==> exists|j: int|
                0 <= j < subs.len() && #[trigger] open_only(subs)[k] == subs[j],
        distinct_ids(subs) ==> distinct_ids(open_only(subs)),
        ids_below(subs, bound) ==> ids_below(open_only(subs), bound),
    decreases subs.len(),
{
    if subs.len() > 0 {
        let init = subs.drop_last();
        lemma_open_only_ids(init, bound);
        let f = open_only(subs);
        let fi = open_only(init);
        assert forall|k: int| 0 <= k < f.len() implies exists|j: int|
            0 <= j < subs.len() && #[trigger] f[k] == subs[j] by {
            if k < fi.len() {
                let j = choose|j: int| 0 <= j < init.len() && fi[k] == init[j];
                assert(subs[j] == init[j]);
            } else {
                assert(subs[subs.len() - 1] == subs.last());
            }
        }
        if distinct_ids(subs) {
            assert(distinct_ids(init));
            assert forall|a: int, b: int|
                0 <= a < f.len() && 0 <= b < f.len() && a != b implies f[a].id != f[b].id by {
                if a < fi.len() && b < fi.len() {
                } else if a < fi.len() {
                    let j = choose|j: int| 0 <= j < init.len() && fi[a] == init[j];
                    assert(subs[j] == init[j]);
                    assert(subs[subs.len() - 1] == subs.last());
                } else {
                    let j = choose|j: int| 0 <= j < init.len() && fi[b] == init[j];
                    assert(subs[j] == init[j]);
                    assert(subs[subs.len() - 1] == subs.last());
                }
            }
        }
        if ids_below(subs, bound) {
            assert(ids_below(init, bound));
            assert forall|k: int| 0 <= k < f.len() implies f[k].id < bound by {
                let j = choose|j: int| 0 <= j < subs.len() && #[trigger] f[k] == subs[j];
            }
        }
    }
}

/// Fanout keeps the sinks' ids below any bound they were below.
proof fn lemma_fanout_below(subs: Seq<SinkView>, item: Seq<u8>, bound: u64)
    requires
        ids_below(subs, bound),
    ensures
        ids_below(fanout(subs, item), bound),
{
    lemma_fanout_ids(subs, item);
    let f = fanout(subs, item);
    assert forall|k: int| 0 <= k < f.len() implies f[k].id < bound by {
        let j = choose|j: int|
            0 <= j < subs.len() && accepts(subs[j]) && #[trigger] f[k] == delivered(subs[j], item);
    }
}

/// A sink that fails a send is gone from its collection once the fanout is over:
/// nothing left in the collection carries its id.
pub proof fn evicted_sink_absent(subs: Seq<SinkView>, item: Seq<u8>, j: int)
    requires
        distinct_ids(subs),
        0 <= j < subs.len(),
        !accepts(subs[j]),
    ensures
        forall|k: int| 0 <= k < fanout(subs, item).len() ==> fanout(subs, item)[k].id != subs[j].id,
{
    lemma_fanout_ids(subs, item);
    let f = fanout(subs, item);
    assert forall|k: int| 0 <= k < f.len() implies f[k].id != subs[j].id by {
        let i = choose|i: int|
            0 <= i < subs.len() && accepts(subs[i]) && #[trigger] f[k] == delivered(subs[i], item);
        assert(i != j);
    }
}

/// What the router keeps for one channel, as plain values.
pub ghost struct ChannelView {
    pub id: u64,
    pub raw: Seq<SinkView>,
    pub annot: Seq<SinkView>,
    pub publisher: bool,
    pub last_active: u64,
}

/// A channel entry as it is created, on first use by a subscriber or a publisher.
pub open spec fn fresh_channel(id: u64, now: u64) -> ChannelView {
    ChannelView { id, raw: Seq::empty(), annot: Seq::empty(), publisher: false, last_active: now }
}

/// The index of the first channel of `chs` with the given id.
#[verifier::opaque]
pub open spec fn channel_index(chs: Seq<ChannelView>, id: u64) -> Option<int> {
    if exists|i: int| 0 <= i < chs.len() && chs[i].id == id {
        Some(
            choose|i: int|
                0 <= i < chs.len() && chs[i].id == id && forall|j: int| 0 <= j < i ==> chs[j].id != id,
        )
    } else {
        None
    }
}

/// A found channel index is in range, has the id, and no earlier entry has it.
proof fn lemma_channel_index(chs: Seq<ChannelView>, id: u64)
    ensures
        channel_index(chs, id) matches Some(i) ==> 0 <= i < chs.len() && chs[i].id == id && forall|
            j: int,
        | 0 <= j < i ==> chs[j].id != id,
        channel_index(chs, id) is None ==> forall|j: int| 0 <= j < chs.len() ==> chs[j].id != id,
{
    reveal(channel_index);
    if exists|i: int| 0 <= i < chs.len() && chs[i].id == id {
        let w = choose|i: int| 0 <= i < chs.len() && chs[i].id == id;
        lemma_first_channel(chs, id, w);
    }
}

proof fn lemma_first_channel(chs: Seq<ChannelView>, id: u64, w: int)
    requires
        0 <= w < chs.len(),
        chs[w].id == id,
    ensures
        exists|i: int|
            0 <= i < chs.len() && chs[i].id == id && forall|j: int| 0 <= j < i ==> chs[j].id != id,
    decreases w,
{
    if exists|j: int| 0 <= j < w && chs[j].id == id {
        let j = choose|j: int| 0 <= j < w && chs[j].id == id;
        lemma_first_channel(chs, id, j);
    } else {
        assert(forall|j: int| 0 <= j < w ==> chs[j].id != id);
    }
}

/// A found sink index is in range, has the id, and no earlier sink has it.
proof fn lemma_sink_index(subs: Seq<SinkView>, id: u64)
    ensures
        sink_index(subs, id) matches Some(i) ==> 0 <= i < subs.len() && subs[i].id == id && forall|
            j: int,
        | 0 <= j < i ==> subs[j].id != id,
        sink_index(subs, id) is None ==> forall|j: int| 0 <= j < subs.len() ==> subs[j].id != id,
{
    reveal(sink_index);
    if exists|i: int| 0 <= i < subs.len() && subs[i].id == id {
        let w = choose|i: int| 0 <= i < subs.len() && subs[i].id == id;
        lemma_first_sink(subs, id, w);
    }
}

proof fn lemma_first_sink(subs: Seq<SinkView>, id: u64, w: int)
    requires
        0 <= w < subs.len(),
        subs[w].id == id,
    ensures
        exists|i: int|
            0 <= i < subs.len() && subs[i].id == id && forall|j: int| 0 <= j < i ==> subs[j].id != id,
    decreases w,
{
    if exists|j: int| 0 <= j < w && subs[j].id == id {
        let j = choose|j: int| 0 <= j < w && subs[j].id == id;
        lemma_first_sink(subs, id, j);
    } else {
        assert(forall|j: int| 0 <= j < w ==> subs[j].id != id);
    }
}

/// The channels after looking `id` up and creating its entry if it was missing.
pub open spec fn with_entry(chs: Seq<ChannelView>, id: u64, now: u64) -> Seq<ChannelView> {
    match channel_index(chs, id) {
        Some(_) => chs,
        None => chs.push(fresh_channel(id, now)),
    }
}

/// Where the entry of `id` stands after `with_entry`.
pub open spec fn entry_index(chs: Seq<ChannelView>, id: u64) -> int {
    match channel_index(chs, id) {
        Some(i) => i,
        None => chs.len() as int,
    }
}

/// One side of a channel: its annotated subscribers or its raw ones.
pub open spec fn side(ch: ChannelView, annotated: bool) -> Seq<SinkView> {
    if annotated {
        ch.annot
    } else {
        ch.raw
    }
}

/// `ch` with one side replaced by `subs`.
pub open spec fn with_side(ch: ChannelView, annotated: bool, subs: Seq<SinkView>) -> ChannelView {
    if annotated {
        ChannelView { annot: subs, ..ch }
    } else {
        ChannelView { raw: subs, ..ch }
    }
}

/// A channel nobody uses any more and that has been idle for at least `idle` ms at `now`.
pub open spec fn removable(ch: ChannelView, now: u64, idle: u64) -> bool {
    !ch.publisher && ch.raw.len() == 0 && ch.annot.len() == 0 && now >= ch.last_active
        && now - ch.last_active >= idle
}

/// `ch` without its closed sinks.
pub open spec fn pruned(ch: ChannelView) -> ChannelView {
    ChannelView { raw: open_only(ch.raw), annot: open_only(ch.annot), ..ch }
}

/// The channels that a sweep at `now` keeps, each without its closed sinks.
pub open spec fn swept(chs: Seq<ChannelView>, now: u64, idle: u64) -> Seq<ChannelView>
    decreases chs.len(),
{
    if chs.len() == 0 {
        Seq::empty()
    } else {
        let rest = swept(chs.drop_last(), now, idle);
        let ch = pruned(chs.last());
        if removable(ch, now, idle) {
            rest
        } else {
            rest.push(ch)
        }
    }
}

/// A subscriber's handle: its channel, its sink, and which side it listens to.
#[derive(Clone, Copy, Debug, PartialEq, Eq, Structural)]
pub struct Subscription {
    pub channel: u64,
    pub sink: u64,
    pub annotated: bool,
}

/// A publisher tried to claim a channel that already has a live publisher.
#[derive(Clone, Copy, Debug, PartialEq, Eq, Structural)]
pub struct PublisherConflict {
    pub channel: u64,
}

/// What one dispatch of a frame to a subscriber collection did.
#[derive(Clone, Copy, Debug, PartialEq, Eq, Structural)]
pub struct Delivery {
    /// Sinks that queued the frame.
    pub delivered: usize,
    /// Open sinks that were full; they are evicted.
    pub dropped_full: usize,
    /// All sinks that failed the send (full or closed); they are evicted.
    pub evicted: usize,
}

/// What `publish` did with one frame.
#[derive(Clone, Copy, Debug, PartialEq, Eq, Structural)]
pub struct PublishOutcome {
    pub raw: Delivery,
    /// The channel had an annotated subscriber, so the frame was offered to inference.
    pub inference_offered: bool,
    /// The inference queue had room and took the frame.
    pub inference_enqueued: bool,
}

/// The delivery counts of one fanout of an item to `subs`.
pub open spec fn delivery_of(subs: Seq<SinkView>) -> Delivery {
    Delivery {
        delivered: count_accepting(subs) as usize,
        dropped_full: count_full(subs) as usize,
        evicted: (subs.len() - count_accepting(subs)) as usize,
    }
}

/// A unit of work for the inference worker: one JPEG frame of a channel, whose result
/// goes to that channel's annotated subscribers.
pub struct InferJob {
    pub channel: u64,
    pub jpeg: Vec<u8>,
}

/// What an inference job holds, as plain values.
pub ghost struct JobView {
    pub channel: u64,
    pub jpeg: Seq<u8>,
}

impl View for InferJob {
    type V = JobView;

    open spec fn view(&self) -> JobView {
        JobView { channel: self.channel, jpeg: self.jpeg@ }
    }
}

/// The router's state for one channel.
pub struct ChannelState {
    id: u64,
    raw_subs: Vec<Sink>,
    annot_subs: Vec<Sink>,
    publisher_present: bool,
    last_active: u64,
}

impl View for ChannelState {
    type V = ChannelView;

    closed spec fn view(&self) -> ChannelView {
        ChannelView {
            id: self.id,
            raw: sinks_view(self.raw_subs@),
            annot: sinks_view(self.annot_subs@),
            publisher: self.publisher_present,
            last_active: self.last_active,
        }
    }
}

impl ChannelState {
    fn new(id: u64, now: u64) -> (ch: ChannelState)
        ensures
            ch@ == fresh_channel(id, now),
    {
        let ch = ChannelState {
            id,
            raw_subs: Vec::new(),
            annot_subs: Vec::new(),
            publisher_present: false,
            last_active: now,
        };
        assert(ch@.raw =~= Seq::<SinkView>::empty());
        assert(ch@.annot =~= Seq::<SinkView>::empty());
        ch
    }

    /// Takes the oldest item of a subscriber's sink on one side.
    fn recv_from(&mut self, annotated: bool, sink: u64) -> (item: Option<Vec<u8>>)
        ensures
            ({
                let subs = side(old(self)@, annotated);
                match sink_index(subs, sink) {
                    Some(si) if subs[si].items.len() > 0 => {
                        &&& final(self)@ == with_side(
                            old(self)@,
                            annotated,
                            subs.update(si, SinkView { items: subs[si].items.drop_first(), ..subs[si] }),
                        )
                        &&& item is Some
                        &&& item->0@ == subs[si].items[0]
                    },
                    _ => final(self)@ == old(self)@ && item is None,
                }
            }),
    {
        if annotated {
            pop_sink(&mut self.annot_subs, sink)
        } else {
            pop_sink(&mut self.raw_subs, sink)
        }
    }

    /// Closes a subscriber's sink on one side.
    fn close_on(&mut self, annotated: bool, sink: u64)
        ensures
            ({
                let subs = side(old(self)@, annotated);
                match sink_index(subs, sink) {
                    Some(si) => final(self)@ == with_side(
                        old(self)@,
                        annotated,
                        subs.update(si, SinkView { open: false, items: Seq::empty(), ..subs[si] }),
                    ),
                    None => final(self)@ == old(self)@,
                }
            }),
    {
        if annotated {
            close_sink(&mut self.annot_subs, sink)
        } else {
            close_sink(&mut self.raw_subs, sink)
        }
    }

    /// Dispatches `item` to the raw sinks, drops the closed annotated sinks, and says
    /// how the raw dispatch went and whether an annotated subscriber is left.
    fn dispatch(&mut self, item: &Vec<u8>, now: u64) -> (r: (Delivery, bool))
        ensures
            final(self)@ == published(old(self)@, item@, now),
            r.0 == delivery_of(old(self)@.raw),
            r.1 == (open_only(old(self)@.annot).len() > 0),
    {
        let mut raw: Vec<Sink> = Vec::new();
        std::mem::swap(&mut raw, &mut self.raw_subs);
        let n = raw.len();
        let (kept, n_sent, n_full) = fanout_sinks(raw, item);
        proof {
            lemma_counts(sinks_view(old(self).raw_subs@), item@);
        }
        self.raw_subs = kept;
        let mut annot: Vec<Sink> = Vec::new();
        std::mem::swap(&mut annot, &mut self.annot_subs);
        let open = open_sinks(annot);
        let any_annotated = open.len() > 0;
        self.annot_subs = open;
        self.last_active = now;
        (Delivery { delivered: n_sent, dropped_full: n_full, evicted: n - n_sent }, any_annotated)
    }

    /// Dispatches `item` to the annotated sinks.
    fn dispatch_annotated(&mut self, item: &Vec<u8>) -> (d: Delivery)
        ensures
            final(self)@ == (ChannelView { annot: fanout(old(self)@.annot, item@), ..old(self)@ }),
            d == delivery_of(old(self)@.annot),
    {
        let mut annot: Vec<Sink> = Vec::new();
        std::mem::swap(&mut annot, &mut self.annot_subs);
        let n = annot.len();
        let (kept, n_sent, n_full) = fanout_sinks(annot, item);
        proof {
            lemma_counts(sinks_view(old(self).annot_subs@), item@);
        }
        self.annot_subs = kept;
        Delivery { delivered: n_sent, dropped_full: n_full, evicted: n - n_sent }
    }

    fn is_removable(&self, now: u64, idle: u64) -> (b: bool)
        ensures
            b == removable(self@, now, idle),
    {
        !self.publisher_present && self.raw_subs.len() == 0 && self.annot_subs.len() == 0
            && now >= self.last_active && now - self.last_active >= idle
    }

    /// Drops the closed sinks of both sides.
    fn prune(&mut self)
        ensures
            final(self)@ == pruned(old(self)@),
    {
        let mut raw: Vec<Sink> = Vec::new();
        std::mem::swap(&mut raw, &mut self.raw_subs);
        self.raw_subs = open_sinks(raw);
        let mut annot: Vec<Sink> = Vec::new();
        std::mem::swap(&mut annot, &mut self.annot_subs);
        self.annot_subs = open_sinks(annot);
    }

    fn add_sink(&mut self, sink: Sink, annotated: bool, now: u64)
        ensures
            final(self)@ == with_side(
                ChannelView { last_active: now, ..old(self)@ },
                annotated,
                side(old(self)@, annotated).push(sink@),
            ),
    {
        let ghost sv = sink@;
        if annotated {
            self.annot_subs.push(sink);
            assert(sinks_view(self.annot_subs@) =~= sinks_view(old(self).annot_subs@).push(sv));
        } else {
            self.raw_subs.push(sink);
            assert(sinks_view(self.raw_subs@) =~= sinks_view(old(self).raw_subs@).push(sv));
        }
        self.last_active = now;
    }
}

/// The sinks of each side of `ch` have distinct ids, all below `bound`.
pub open spec fn chan_ok(ch: ChannelView, bound: u64) -> bool {
    &&& distinct_ids(ch.raw)
    &&& distinct_ids(ch.annot)
    &&& ids_below(ch.raw, bound)
    &&& ids_below(ch.annot, bound)
}

/// Every channel of `chs` is `chan_ok` under `bound`.
pub open spec fn all_ok(chs: Seq<ChannelView>, bound: u64) -> bool {
    forall|i: int| 0 <= i < chs.len() ==> chan_ok(#[trigger] chs[i], bound)
}

/// Raising the bound keeps every channel `chan_ok`.
proof fn lemma_all_ok_raise(chs: Seq<ChannelView>, bound: u64, bound2: u64)
    requires
        all_ok(chs, bound),
        bound <= bound2,
    ensures
        all_ok(chs, bound2),
{
    assert forall|i: int| 0 <= i < chs.len() implies chan_ok(#[trigger] chs[i], bound2) by {
        assert(chan_ok(chs[i], bound));
    }
}

/// A new sink with a fresh id keeps the channels `chan_ok`.
proof fn lemma_subscribed_ok(chs: Seq<ChannelView>, id: u64, annotated: bool, s: SinkView, now: u64)
    requires
        all_ok(chs, s.id),
        s.id < u64::MAX,
    ensures
        all_ok(subscribed(chs, id, annotated, s, now), (s.id + 1) as u64),
{
    let e = with_entry(chs, id, now);
    let i = entry_index(chs, id);
    lemma_channel_index(chs, id);
    assert(all_ok(e, s.id)) by {
        assert forall|k: int| 0 <= k < e.len() implies chan_ok(#[trigger] e[k], s.id) by {
            if k < chs.len() {
                assert(chan_ok(chs[k], s.id));
            }
        }
    }
    lemma_all_ok_raise(e, s.id, (s.id + 1) as u64);
    let r = subscribed(chs, id, annotated, s, now);
    assert(chan_ok(e[i], s.id));
    let old_side = side(e[i], annotated);
    let new_side = old_side.push(s);
    assert(distinct_ids(new_side)) by {
        assert forall|a: int, b: int|
            0 <= a < new_side.len() && 0 <= b < new_side.len() && a != b implies new_side[a].id
            != new_side[b].id by {
            if a < old_side.len() && b < old_side.len() {
                assert(new_side[a] == old_side[a]);
                assert(new_side[b] == old_side[b]);
            } else if a < old_side.len() {
                assert(new_side[a] == old_side[a]);
                assert(old_side[a].id < s.id);
            } else {
                assert(new_side[b] == old_side[b]);
                assert(old_side[b].id < s.id);
            }
        }
    }
    assert(ids_below(new_side, (s.id + 1) as u64)) by {
        assert forall|a: int| 0 <= a < new_side.len() implies new_side[a].id < (s.id + 1) as u64 by {
            if a < old_side.len() {
                assert(new_side[a] == old_side[a]);
            }
        }
    }
    assert(chan_ok(r[i], (s.id + 1) as u64));
    assert forall|k: int| 0 <= k < r.len() implies chan_ok(#[trigger] r[k], (s.id + 1) as u64) by {
        if k != i {
            assert(r[k] == e[k]);
        }
    }
}


/// Replacing one channel by a `chan_ok` one keeps all channels `chan_ok`.
proof fn lemma_update_ok(chs: Seq<ChannelView>, i: int, c: ChannelView, bound: u64)
    requires
        all_ok(chs, bound),
        chan_ok(c, bound),
        0 <= i < chs.len(),
    ensures
        all_ok(chs.update(i, c), bound),
{
    let r = chs.update(i, c);
    assert forall|k: int| 0 <= k < r.len() implies chan_ok(#[trigger] r[k], bound) by {
        if k != i {
            assert(chan_ok(chs[k], bound));
        }
    }
}

/// Removing a channel keeps all others `chan_ok`.
proof fn lemma_remove_ok(chs: Seq<ChannelView>, i: int, bound: u64)
    requires
        all_ok(chs, bound),
        0 <= i < chs.len(),
    ensures
        all_ok(chs.remove(i), bound),
{
    let r = chs.remove(i);
    assert forall|k: int| 0 <= k < r.len() implies chan_ok(#[trigger] r[k], bound) by {
        if k < i {
            assert(r[k] == chs[k]);
        } else {
            assert(r[k] == chs[k + 1]);
        }
    }
}

/// Dispatching a frame keeps a channel `chan_ok`.
proof fn lemma_published_ok(ch: ChannelView, item: Seq<u8>, now: u64, bound: u64)
    requires
        chan_ok(ch, bound),
    ensures
        chan_ok(published(ch, item, now), bound),
        chan_ok(ChannelView { annot: fanout(ch.annot, item), ..ch }, bound),
        chan_ok(pruned(ch), bound),
{
    lemma_fanout_ids(ch.raw, item);
    lemma_fanout_below(ch.raw, item, bound);
    lemma_fanout_ids(ch.annot, item);
    lemma_fanout_below(ch.annot, item, bound);
    lemma_open_only_ids(ch.annot, bound);
    lemma_open_only_ids(ch.raw, bound);
}


/// What a sweep keeps are pruned channels of the input, none of them removable.
proof fn lemma_swept(chs: Seq<ChannelView>, now: u64, idle: u64)
    ensures
        swept(chs, now, idle).len() <= chs.len(),
        forall|k: int|
            0 <= k < swept(chs, now, idle).len() ==> !removable(#[trigger] swept(chs, now, idle)[k], now, idle),
        forall|k: int|
            0 <= k < swept(chs, now, idle).len() ==> exists|j: int|
                0 <= j < chs.len() && #[trigger] swept(chs, now, idle)[k] == pruned(chs[j]),
    decreases chs.len(),
{
    if chs.len() > 0 {
        let init = chs.drop_last();
        lemma_swept(init, now, idle);
        let r = swept(chs, now, idle);
        let ri = swept(init, now, idle);
        assert forall|k: int| 0 <= k < r.len() implies exists|j: int|
            0 <= j < chs.len() && #[trigger] r[k] == pruned(chs[j]) by {
            if k < ri.len() {
                let j = choose|j: int| 0 <= j < init.len() && ri[k] == pruned(init[j]);
                assert(chs[j] == init[j]);
            } else {
                assert(chs[chs.len() - 1] == chs.last());
            }
        }
        assert forall|k: int| 0 <= k < r.len() implies !removable(#[trigger] r[k], now, idle) by {
            if k < ri.len() {
                assert(r[k] == ri[k]);
            }
        }
    }
}

/// The channels left by a sweep stay `chan_ok`.
proof fn lemma_swept_ok(chs: Seq<ChannelView>, now: u64, idle: u64, bound: u64)
    requires
        all_ok(chs, bound),
    ensures
        all_ok(swept(chs, now, idle), bound),
{
    lemma_swept(chs, now, idle);
    let r = swept(chs, now, idle);
    assert forall|k: int| 0 <= k < r.len() implies chan_ok(#[trigger] r[k], bound) by {
        let j = choose|j: int| 0 <= j < chs.len() && #[trigger] r[k] == pruned(chs[j]);
        assert(chan_ok(chs[j], bound));
        lemma_published_ok(chs[j], Seq::empty(), 0, bound);
    }
}

/// `ch` after the frame `item` was dispatched at `now`: its raw sinks got a try-send,
/// its closed annotated sinks are dropped.
pub open spec fn published(ch: ChannelView, item: Seq<u8>, now: u64) -> ChannelView {
    ChannelView { raw: fanout(ch.raw, item), annot: open_only(ch.annot), last_active: now, ..ch }
}

/// The channels after a frame `item` of channel `id` was dispatched at `now`.
pub open spec fn after_publish(chs: Seq<ChannelView>, id: u64, item: Seq<u8>, now: u64) -> Seq<ChannelView> {
    match channel_index(chs, id) {
        Some(i) => if collected(chs[i], item, now) {
            chs.remove(i)
        } else {
            chs.update(i, published(chs[i], item, now))
        },
        None => chs,
    }
}

/// After dispatching `item` at `now`, the entry `ch` has no publisher and no sinks
/// left, and had been idle for the grace period before the frame: it is dropped.
pub open spec fn collected(ch: ChannelView, item: Seq<u8>, now: u64) -> bool {
    removable(ChannelView { last_active: ch.last_active, ..published(ch, item, now) }, now, GRACE_MS)
}

/// What `publish` reports for a frame of channel `id`, given the channels, the number
/// of queued jobs and the queue's capacity before it.
pub open spec fn publish_outcome(chs: Seq<ChannelView>, queued: nat, capacity: nat, id: u64) -> PublishOutcome {
    match channel_index(chs, id) {
        None => PublishOutcome {
            raw: Delivery { delivered: 0, dropped_full: 0, evicted: 0 },
            inference_offered: false,
            inference_enqueued: false,
        },
        Some(i) => {
            let offered = open_only(chs[i].annot).len() > 0;
            PublishOutcome {
                raw: delivery_of(chs[i].raw),
                inference_offered: offered,
                inference_enqueued: offered && queued < capacity,
            }
        },
    }
}

/// The inference queue after `publish` reported `out` for the JPEG `jpeg` of channel `id`.
pub open spec fn jobs_after(jobs: Seq<JobView>, out: PublishOutcome, id: u64, jpeg: Seq<u8>) -> Seq<JobView> {
    if out.inference_enqueued {
        jobs.push(JobView { channel: id, jpeg })
    } else {
        jobs
    }
}

/// The channels after a publisher claimed the free slot of channel `id` at `now`.
pub open spec fn claimed(chs: Seq<ChannelView>, id: u64, now: u64) -> Seq<ChannelView> {
    let e = with_entry(chs, id, now);
    let i = entry_index(chs, id);
    e.update(i, ChannelView { publisher: true, last_active: now, ..e[i] })
}

/// The publisher slot of channel `id` is taken.
pub open spec fn slot_taken(chs: Seq<ChannelView>, id: u64) -> bool {
    match channel_index(chs, id) {
        Some(i) => chs[i].publisher,
        None => false,
    }
}

/// The channels after the publisher of channel `id` left at `now`.
pub open spec fn released(chs: Seq<ChannelView>, id: u64, now: u64) -> Seq<ChannelView> {
    match channel_index(chs, id) {
        Some(i) => chs.update(i, ChannelView { publisher: false, last_active: now, ..chs[i] }),
        None => chs,
    }
}

/// The channels after a new sink `s` joined a side of the channel `id` at `now`.
pub open spec fn subscribed(
    chs: Seq<ChannelView>,
    id: u64,
    annotated: bool,
    s: SinkView,
    now: u64,
) -> Seq<ChannelView> {
    let e = with_entry(chs, id, now);
    let i = entry_index(chs, id);
    let ch = ChannelView { last_active: now, ..e[i] };
    e.update(i, with_side(ch, annotated, side(e[i], annotated).push(s)))
}

/// The channels after a subscriber read from its sink, and the item it got.
pub open spec fn after_recv(chs: Seq<ChannelView>, sub: Subscription) -> (Seq<ChannelView>, Option<Seq<u8>>) {
    match channel_index(chs, sub.channel) {
        None => (chs, None),
        Some(ci) => {
            let subs = side(chs[ci], sub.annotated);
            match sink_index(subs, sub.sink) {
                None => (chs, None),
                Some(si) => {
                    let s = subs[si];
                    if s.items.len() == 0 {
                        (chs, None)
                    } else {
                        let s2 = SinkView { items: s.items.drop_first(), ..s };
                        (chs.update(ci, with_side(chs[ci], sub.annotated, subs.update(si, s2))), Some(s.items[0]))
                    }
                }
            }
        }
    }
}

/// The channels after a subscriber went away: its sink is closed and emptied, and
/// the next dispatch to it fails.
pub open spec fn after_unsubscribe(chs: Seq<ChannelView>, sub: Subscription) -> Seq<ChannelView> {
    match channel_index(chs, sub.channel) {
        None => chs,
        Some(ci) => {
            let subs = side(chs[ci], sub.annotated);
            match sink_index(subs, sub.sink) {
                None => chs,
                Some(si) => {
                    let s2 = SinkView { open: false, items: Seq::empty(), ..subs[si] };
                    chs.update(ci, with_side(chs[ci], sub.annotated, subs.update(si, s2)))
                }
            }
        }
    }
}

/// The views of a sequence of channel states.
pub open spec fn channels_view(chs: Seq<ChannelState>) -> Seq<ChannelView> {
    chs.map_values(|c: ChannelState| c@)
}

/// The index of the first sink of `subs` with the given id, found by scanning.
fn find_sink(subs: &Vec<Sink>, id: u64) -> (r: Option<usize>)
    ensures
        match r {
            Some(i) => sink_index(sinks_view(subs@), id) == Some(i as int),
            None => sink_index(sinks_view(subs@), id) is None,
        },
{
    let ghost v = sinks_view(subs@);
    let mut i: usize = 0;
    while i < subs.len()
        invariant
            i <= subs@.len(),
            v == sinks_view(subs@),
            v.len() == subs@.len(),
            forall|j: int| 0 <= j < i ==> v[j].id != id,
        decreases subs@.len() - i,
    {
        if subs[i].id() == id {
            proof {
                reveal(sink_index);
                assert(v[i as int].id == id);
                let c = choose|c: int|
                    0 <= c < v.len() && v[c].id == id && forall|j: int| 0 <= j < c ==> v[j].id != id;
                if c < i {
                    assert(v[c].id != id);
                } else if c > i {
                    assert(v[i as int].id != id);
                }
            }
            return Some(i);
        }
        i = i + 1;
    }
    proof {
        reveal(sink_index);
    }
    None
}


/// Replacing a sink by one with the same id keeps ids distinct and below a bound.
proof fn lemma_same_id_update(subs: Seq<SinkView>, si: int, s2: SinkView, bound: u64)
    requires
        0 <= si < subs.len(),
        s2.id == subs[si].id,
    ensures
        distinct_ids(subs) ==> distinct_ids(subs.update(si, s2)),
        ids_below(subs, bound) ==> ids_below(subs.update(si, s2), bound),
{
    let r = subs.update(si, s2);
    assert forall|k: int| 0 <= k < r.len() implies r[k].id == subs[k].id by {}
}

/// Takes the oldest item of the first sink with id `id`, if it holds one.
fn pop_sink(subs: &mut Vec<Sink>, id: u64) -> (item: Option<Vec<u8>>)
    ensures
        ({
            let v = sinks_view(old(subs)@);
            match sink_index(v, id) {
                Some(si) if v[si].items.len() > 0 => {
                    &&& sinks_view(final(subs)@) == v.update(
                        si,
                        SinkView { items: v[si].items.drop_first(), ..v[si] },
                    )
                    &&& item is Some
                    &&& item->0@ == v[si].items[0]
                },
                _ => sinks_view(final(subs)@) == v && item is None,
            }
        }),
{
    proof {
        lemma_sink_index(sinks_view(subs@), id);
    }
    match find_sink(subs, id) {
        None => None,
        Some(si) => {
            let ghost v = sinks_view(subs@);
            let mut sink = subs.remove(si);
            let item = sink.pop_front();
            let ghost s2 = sink@;
            subs.insert(si, sink);
            assert(sinks_view(subs@) =~= v.update(si as int, s2));
            item
        },
    }
}

/// Closes and empties the first sink with id `id`.
fn close_sink(subs: &mut Vec<Sink>, id: u64)
    ensures
        ({
            let v = sinks_view(old(subs)@);
            match sink_index(v, id) {
                Some(si) => sinks_view(final(subs)@) == v.update(
                    si,
                    SinkView { open: false, items: Seq::empty(), ..v[si] },
                ),
                None => sinks_view(final(subs)@) == v,
            }
        }),
{
    proof {
        lemma_sink_index(sinks_view(subs@), id);
    }
    match find_sink(subs, id) {
        None => {},
        Some(si) => {
            let ghost v = sinks_view(subs@);
            let mut sink = subs.remove(si);
            sink.close();
            let ghost s2 = sink@;
            subs.insert(si, sink);
            assert(sinks_view(subs@) =~= v.update(si as int, s2));
        },
    }
}

/// The per-channel map, the subscriber sinks and the inference queue.
///
/// The map is held as a vector of entries keyed by channel id; lookups take the first
/// entry with the id, and entries are only created where none has it.
pub struct Router {
    channels: Vec<ChannelState>,
    next_sink_id: u64,
    sink_capacity: usize,
    jobs: Vec<InferJob>,
    infer_capacity: usize,
    worker_busy: bool,
    publishes: Ghost<nat>,
    enqueued: Ghost<nat>,
    taken: Ghost<nat>,
    completed: Ghost<nat>,
}

impl Router {
    /// The channel entries.
    pub closed spec fn channels(&self) -> Seq<ChannelView> {
        channels_view(self.channels@)
    }

    /// The id that the next subscriber's sink gets.
    pub closed spec fn next_sink_id(&self) -> u64 {
        self.next_sink_id
    }

    /// The capacity given to every new sink.
    pub closed spec fn sink_capacity(&self) -> nat {
        self.sink_capacity as nat
    }

    /// The jobs waiting for the inference worker, oldest first.
    pub closed spec fn jobs(&self) -> Seq<JobView> {
        self.jobs@.map_values(|j: InferJob| j@)
    }

    /// The capacity of the inference queue.
    pub closed spec fn infer_capacity(&self) -> nat {
        self.infer_capacity as nat
    }

    /// The worker holds a job that it has not completed yet.
    pub closed spec fn worker_busy(&self) -> bool {
        self.worker_busy
    }

    /// Frames published so far.
    pub closed spec fn publishes(&self) -> nat {
        self.publishes@
    }

    /// Jobs put on the inference queue so far.
    pub closed spec fn jobs_enqueued(&self) -> nat {
        self.enqueued@
    }

    /// Jobs handed to the worker so far.
    pub closed spec fn jobs_taken(&self) -> nat {
        self.taken@
    }

    /// Jobs the worker has completed so far.
    pub closed spec fn jobs_completed(&self) -> nat {
        self.completed@
    }

    /// The router's invariant.
    pub closed spec fn wf(&self) -> bool {
        &&& all_ok(self.channels(), self.next_sink_id)
        &&& self.jobs().len() <= self.infer_capacity
        &&& self.taken@ + self.jobs().len() == self.enqueued@
        &&& self.enqueued@ <= self.publishes@
        &&& self.taken@ == self.completed@ + if self.worker_busy {
            1nat
        } else {
            0nat
        }
        &&& self.worker_busy ==> self.infer_capacity >= 1
    }

    /// The inference queue and the counters are as in `other`.
    pub closed spec fn same_queue(&self, other: &Router) -> bool {
        &&& self.jobs() == other.jobs()
        &&& self.infer_capacity == other.infer_capacity
        &&& self.worker_busy == other.worker_busy
        &&& self.enqueued@ == other.enqueued@
        &&& self.taken@ == other.taken@
        &&& self.completed@ == other.completed@
        &&& self.publishes@ == other.publishes@
    }

    /// A router with no channels, sinks of `sink_capacity` frames and an inference
    /// queue of `infer_capacity` jobs.
    pub fn new(sink_capacity: usize, infer_capacity: usize) -> (r: Router)
        ensures
            r.wf(),
            r.channels() == Seq::<ChannelView>::empty(),
            r.sink_capacity() == sink_capacity,
            r.infer_capacity() == infer_capacity,
            r.jobs() == Seq::<JobView>::empty(),
            !r.worker_busy(),
            r.next_sink_id() == 0,
            r.publishes() == 0,
            r.jobs_enqueued() == 0,
            r.jobs_taken() == 0,
            r.jobs_completed() == 0,
    {
        let r = Router {
            channels: Vec::new(),
            next_sink_id: 0,
            sink_capacity,
            jobs: Vec::new(),
            infer_capacity,
            worker_busy: false,
            publishes: Ghost(0),
            enqueued: Ghost(0),
            taken: Ghost(0),
            completed: Ghost(0),
        };
        assert(r.channels() =~= Seq::<ChannelView>::empty());
        assert(r.jobs() =~= Seq::<JobView>::empty());
        r
    }

    /// A router with the default capacities.
    pub fn with_defaults() -> (r: Router)
        ensures
            r.wf(),
            r.channels() == Seq::<ChannelView>::empty(),
            r.sink_capacity() == DEFAULT_SINK_CAPACITY,
            r.infer_capacity() == DEFAULT_INFER_CAPACITY,
            r.jobs() == Seq::<JobView>::empty(),
            !r.worker_busy(),
    {
        Router::new(DEFAULT_SINK_CAPACITY, DEFAULT_INFER_CAPACITY)
    }

    fn find_channel(&self, id: u64) -> (r: Option<usize>)
        ensures
            match r {
                Some(i) => channel_index(self.channels(), id) == Some(i as int),
                None => channel_index(self.channels(), id) is None,
            },
    {
        let ghost v = self.channels();
        let mut i: usize = 0;
        while i < self.channels.len()
            invariant
                i <= self.channels@.len(),
                v == self.channels(),
                v.len() == self.channels@.len(),
                forall|j: int| 0 <= j < i ==> v[j].id != id,
            decreases self.channels@.len() - i,
        {
            if self.channels[i].id == id {
                proof {
                    reveal(channel_index);
                    assert(v[i as int].id == id);
                    let c = choose|c: int|
                        0 <= c < v.len() && v[c].id == id && forall|j: int|
                            0 <= j < c ==> v[j].id != id;
                    if c < i {
                        assert(v[c].id != id);
                    } else if c > i {
                        assert(v[i as int].id != id);
                    }
                }
                return Some(i);
            }
            i = i + 1;
        }
        proof {
            reveal(channel_index);
        }
        None
    }

    /// Takes the entry at `i` out of the map, to be put back by `put_back`.
    fn take_entry(&mut self, i: usize) -> (ch: ChannelState)
        requires
            i < old(self).channels().len(),
        ensures
            ch@ == old(self).channels()[i as int],
            final(self).channels() == old(self).channels().remove(i as int),
            final(self).next_sink_id == old(self).next_sink_id,
            final(self).sink_capacity == old(self).sink_capacity,
            final(self).same_queue(old(self)),
    {
        let ch = self.channels.remove(i);
        assert(self.channels() =~= old(self).channels().remove(i as int));
        ch
    }

    fn put_back(&mut self, i: usize, ch: ChannelState)
        requires
            i <= old(self).channels().len(),
        ensures
            final(self).channels() == old(self).channels().insert(i as int, ch@),
            final(self).next_sink_id == old(self).next_sink_id,
            final(self).sink_capacity == old(self).sink_capacity,
            final(self).same_queue(old(self)),
    {
        self.channels.insert(i, ch);
        assert(self.channels() =~= old(self).channels().insert(i as int, ch@));
    }

    /// Adds a sink for a new subscriber to one side of the channel `name`.
    fn subscribe(&mut self, name: &str, annotated: bool, now: u64) -> (sub: Subscription)
        requires
            old(self).wf(),
            old(self).next_sink_id() < u64::MAX,
        ensures
            final(self).wf(),
            sub == (Subscription {
                channel: channel_id_of(name.spec_bytes()),
                sink: old(self).next_sink_id(),
                annotated,
            }),
            final(self).channels() == subscribed(
                old(self).channels(),
                channel_id_of(name.spec_bytes()),
                annotated,
                SinkView {
                    id: old(self).next_sink_id(),
                    items: Seq::empty(),
                    capacity: old(self).sink_capacity(),
                    open: true,
                },
                now,
            ),
            final(self).next_sink_id() == old(self).next_sink_id() + 1,
            final(self).sink_capacity() == old(self).sink_capacity(),
            final(self).same_queue(old(self)),
    {
        let id = hashed(name);
        let ghost chs0 = self.channels();
        let i = self.entry(id, now);
        let ghost e = self.channels();
        let mut ch = self.take_entry(i);
        let sink = Sink::new(self.next_sink_id, self.sink_capacity);
        let ghost sv = sink@;
        ch.add_sink(sink, annotated, now);
        self.put_back(i, ch);
        let sub = Subscription { channel: id, sink: self.next_sink_id, annotated };
        self.next_sink_id = self.next_sink_id + 1;
        proof {
            let x = with_side(ChannelView { last_active: now, ..e[i as int] }, annotated, side(e[i as int], annotated).push(sv));
            assert(e.remove(i as int).insert(i as int, x) =~= e.update(i as int, x));
            assert(subscribed(chs0, id, annotated, sv, now) == e.update(i as int, x));
            lemma_subscribed_ok(chs0, id, annotated, sv, now);
        }
        sub
    }

    /// Attaches a new raw subscriber to the channel `name`, creating the channel if it is
    /// missing; it gets every frame dispatched from now on that its sink has room for.
    pub fn subscribe_raw(&mut self, name: &str, now: u64) -> (sub: Subscription)
        requires
            old(self).wf(),
            old(self).next_sink_id() < u64::MAX,
        ensures
            final(self).wf(),
            sub == (Subscription {
                channel: channel_id_of(name.spec_bytes()),
                sink: old(self).next_sink_id(),
                annotated: false,
            }),
            final(self).channels() == subscribed(
                old(self).channels(),
                channel_id_of(name.spec_bytes()),
                false,
                SinkView {
                    id: old(self).next_sink_id(),
                    items: Seq::empty(),
                    capacity: old(self).sink_capacity(),
                    open: true,
                },
                now,
            ),
            final(self).next_sink_id() == old(self).next_sink_id() + 1,
            final(self).sink_capacity() == old(self).sink_capacity(),
            final(self).same_queue(old(self)),
    {
        self.subscribe(name, false, now)
    }

    /// Attaches a new annotated subscriber to the channel `name`, creating the channel if
    /// it is missing; while it is there, frames of the channel are offered to inference.
    pub fn subscribe_annotated(&mut self, name: &str, now: u64) -> (sub: Subscription)
        requires
            old(self).wf(),
            old(self).next_sink_id() < u64::MAX,
        ensures
            final(self).wf(),
            sub == (Subscription {
                channel: channel_id_of(name.spec_bytes()),
                sink: old(self).next_sink_id(),
                annotated: true,
            }),
            final(self).channels() == subscribed(
                old(self).channels(),
                channel_id_of(name.spec_bytes()),
                true,
                SinkView {
                    id: old(self).next_sink_id(),
                    items: Seq::empty(),
                    capacity: old(self).sink_capacity(),
                    open: true,
                },
                now,
            ),
            final(self).next_sink_id() == old(self).next_sink_id() + 1,
            final(self).sink_capacity() == old(self).sink_capacity(),
            final(self).same_queue(old(self)),
    {
        self.subscribe(name, true, now)
    }

    /// Whether another subscriber can still be given a fresh sink id.
    pub fn can_subscribe(&self) -> (b: bool)
        ensures
            b == (self.next_sink_id() < u64::MAX),
    {
        self.next_sink_id < u64::MAX
    }

    /// Dispatches one frame of the channel `name` at `now`.
    ///
    /// The frame, wrapped as a multipart part, is tried on every raw sink; sinks that
    /// are full or closed are evicted. Closed annotated sinks are dropped, and if an
    /// annotated subscriber is left the raw JPEG is offered to the inference queue,
    /// which takes it only if it has room. A channel without an entry drops the frame;
    /// an entry left with no publisher and no sinks, idle for `GRACE_MS` before the
    /// frame, is removed.
    pub fn publish(&mut self, name: &str, jpeg: &[u8], now: u64) -> (out: PublishOutcome)
        requires
            old(self).wf(),
        ensures
            final(self).wf(),
            final(self).publishes() == old(self).publishes() + 1,
            final(self).next_sink_id() == old(self).next_sink_id(),
            final(self).sink_capacity() == old(self).sink_capacity(),
            final(self).infer_capacity() == old(self).infer_capacity(),
            final(self).worker_busy() == old(self).worker_busy(),
            final(self).jobs_taken() == old(self).jobs_taken(),
            final(self).jobs_completed() == old(self).jobs_completed(),
            final(self).channels() == after_publish(
                old(self).channels(),
                channel_id_of(name.spec_bytes()),
                wrapped(jpeg@),
                now,
            ),
            out == publish_outcome(
                old(self).channels(),
                old(self).jobs().len(),
                old(self).infer_capacity(),
                channel_id_of(name.spec_bytes()),
            ),
            final(self).jobs() == jobs_after(old(self).jobs(), out, channel_id_of(name.spec_bytes()), jpeg@),
            channel_index(old(self).channels(), channel_id_of(name.spec_bytes())) is None ==> {
                &&& final(self).channels() == old(self).channels()
                &&& final(self).jobs() == old(self).jobs()
                &&& final(self).jobs_enqueued() == old(self).jobs_enqueued()
                &&& out == (PublishOutcome {
                    raw: Delivery { delivered: 0, dropped_full: 0, evicted: 0 },
                    inference_offered: false,
                    inference_enqueued: false,
                })
            },
            channel_index(old(self).channels(), channel_id_of(name.spec_bytes())) matches Some(i)
                ==> {
                let ch = old(self).channels()[i];
                let offered = open_only(ch.annot).len() > 0;
                let enqueued = offered && old(self).jobs().len() < old(self).infer_capacity();
                &&& final(self).channels() == if collected(ch, wrapped(jpeg@), now) {
                    old(self).channels().remove(i)
                } else {
                    old(self).channels().update(i, published(ch, wrapped(jpeg@), now))
                }
                &&& out == (PublishOutcome {
                    raw: delivery_of(ch.raw),
                    inference_offered: offered,
                    inference_enqueued: enqueued,
                })
                &&& final(self).jobs() == if enqueued {
                    old(self).jobs().push(JobView { channel: ch.id, jpeg: jpeg@ })
                } else {
                    old(self).jobs()
                }
                &&& final(self).jobs_enqueued() == old(self).jobs_enqueued() + if enqueued {
                    1nat
                } else {
                    0nat
                }
            },
    {
        let id = hashed(name);
        self.publishes = Ghost(self.publishes@ + 1);
        proof {
            lemma_channel_index(self.channels(), id);
        }
        match self.find_channel(id) {
            None => PublishOutcome {
                raw: Delivery { delivered: 0, dropped_full: 0, evicted: 0 },
                inference_offered: false,
                inference_enqueued: false,
            },
            Some(i) => {
                let ghost chs0 = self.channels();
                let item = as_jpeg_stream_item(jpeg);
                let mut ch = self.take_entry(i);
                let last_active = ch.last_active;
                let (raw, offered) = ch.dispatch(&item, now);
                let ghost ch2 = ch@;
                let idle = !ch.publisher_present && ch.raw_subs.len() == 0 && ch.annot_subs.len() == 0
                    && now >= last_active && now - last_active >= GRACE_MS;
                if !idle {
                    self.put_back(i, ch);
                }
                let mut enqueued = false;
                if offered && self.jobs.len() < self.infer_capacity {
                    let mut data: Vec<u8> = Vec::new();
                    extend_bytes(&mut data, jpeg);
                    let job = InferJob { channel: id, jpeg: data };
                    self.jobs.push(job);
                    self.enqueued = Ghost(self.enqueued@ + 1);
                    enqueued = true;
                    proof {
                        assert(self.jobs() =~= old(self).jobs().push(JobView { channel: id, jpeg: jpeg@ }));
                    }
                }
                proof {
                    assert(ch2 == published(chs0[i as int], item@, now));
                    assert(idle == collected(chs0[i as int], item@, now));
                    assert(chs0.remove(i as int).insert(i as int, ch2) =~= chs0.update(i as int, ch2));
                    assert(chan_ok(chs0[i as int], self.next_sink_id));
                    lemma_published_ok(chs0[i as int], item@, now, self.next_sink_id);
                    lemma_update_ok(chs0, i as int, ch2, self.next_sink_id);
                    lemma_remove_ok(chs0, i as int, self.next_sink_id);
                }
                PublishOutcome { raw, inference_offered: offered, inference_enqueued: enqueued }
            },
        }
    }

    /// Claims the publisher slot of the channel `name` at `now`, creating the channel if
    /// it is missing; fails if the channel already has a publisher.
    pub fn register_publisher(&mut self, name: &str, now: u64) -> (r: Result<u64, PublisherConflict>)
        requires
            old(self).wf(),
        ensures
            final(self).wf(),
            final(self).next_sink_id() == old(self).next_sink_id(),
            final(self).sink_capacity() == old(self).sink_capacity(),
            final(self).same_queue(old(self)),
            ({
                let id = channel_id_of(name.spec_bytes());
                if slot_taken(old(self).channels(), id) {
                    &&& r == Err::<u64, PublisherConflict>(PublisherConflict { channel: id })
                    &&& final(self).channels() == old(self).channels()
                } else {
                    &&& r == Ok::<u64, PublisherConflict>(id)
                    &&& final(self).channels() == claimed(old(self).channels(), id, now)
                }
            }),
    {
        let id = hashed(name);
        proof {
            lemma_channel_index(self.channels(), id);
        }
        match self.find_channel(id) {
            Some(i) => {
                if self.channels[i].publisher_present {
                    return Err(PublisherConflict { channel: id });
                }
            },
            None => {},
        }
        let ghost chs0 = self.channels();
        let i = self.entry(id, now);
        let ghost e = self.channels();
        let mut ch = self.take_entry(i);
        ch.publisher_present = true;
        ch.last_active = now;
        let ghost ch2 = ch@;
        self.put_back(i, ch);
        proof {
            assert(ch2 == ChannelView { publisher: true, last_active: now, ..e[i as int] });
            assert(e.remove(i as int).insert(i as int, ch2) =~= e.update(i as int, ch2));
            assert(all_ok(e, self.next_sink_id)) by {
                assert forall|k: int| 0 <= k < e.len() implies chan_ok(#[trigger] e[k], self.next_sink_id) by {
                    if k < chs0.len() {
                        assert(chan_ok(chs0[k], self.next_sink_id));
                    }
                }
            }
            lemma_update_ok(e, i as int, ch2, self.next_sink_id);
        }
        Ok(id)
    }

    /// Frees the publisher slot of channel `id` at `now`; the channel may then be swept
    /// once it has no subscribers and has been idle long enough.
    pub fn release_publisher(&mut self, id: u64, now: u64)
        requires
            old(self).wf(),
        ensures
            final(self).wf(),
            final(self).next_sink_id() == old(self).next_sink_id(),
            final(self).sink_capacity() == old(self).sink_capacity(),
            final(self).same_queue(old(self)),
            final(self).channels() == released(old(self).channels(), id, now),
    {
        proof {
            lemma_channel_index(self.channels(), id);
        }
        match self.find_channel(id) {
            Some(i) => {
                let ghost chs0 = self.channels();
                let mut ch = self.take_entry(i);
                ch.publisher_present = false;
                ch.last_active = now;
                let ghost ch2 = ch@;
                self.put_back(i, ch);
                proof {
                    assert(chs0.remove(i as int).insert(i as int, ch2) =~= chs0.update(i as int, ch2));
                    assert(chan_ok(chs0[i as int], self.next_sink_id));
                    lemma_update_ok(chs0, i as int, ch2, self.next_sink_id);
                }
            },
            None => {},
        }
    }

    /// Takes the oldest frame waiting in a subscriber's sink, already wrapped as a
    /// multipart part; `None` when the sink is empty or gone.
    pub fn recv(&mut self, sub: &Subscription) -> (item: Option<Vec<u8>>)
        requires
            old(self).wf(),
        ensures
            final(self).wf(),
            final(self).next_sink_id() == old(self).next_sink_id(),
            final(self).sink_capacity() == old(self).sink_capacity(),
            final(self).same_queue(old(self)),
            final(self).channels() == after_recv(old(self).channels(), *sub).0,
            match item {
                Some(v) => after_recv(old(self).channels(), *sub).1 == Some(v@),
                None => after_recv(old(self).channels(), *sub).1 is None,
            },
    {
        proof {
            lemma_channel_index(self.channels(), sub.channel);
        }
        match self.find_channel(sub.channel) {
            None => None,
            Some(i) => {
                let ghost chs0 = self.channels();
                let mut ch = self.take_entry(i);
                proof {
                    lemma_sink_index(side(ch@, sub.annotated), sub.sink);
                }
                let item = ch.recv_from(sub.annotated, sub.sink);
                let ghost ch2 = ch@;
                self.put_back(i, ch);
                proof {
                    assert(chs0.remove(i as int).insert(i as int, ch2) =~= chs0.update(i as int, ch2));
                    let c = chs0[i as int];
                    assert(chan_ok(c, self.next_sink_id));
                    let subs = side(c, sub.annotated);
                    match sink_index(subs, sub.sink) {
                        Some(si) => {
                            if subs[si].items.len() > 0 {
                                lemma_same_id_update(
                                    subs,
                                    si,
                                    SinkView { items: subs[si].items.drop_first(), ..subs[si] },
                                    self.next_sink_id,
                                );
                            } else {
                                assert(chs0.update(i as int, ch2) =~= chs0);
                            }
                        },
                        None => {
                            assert(chs0.update(i as int, ch2) =~= chs0);
                        },
                    }
                    assert(chan_ok(ch2, self.next_sink_id));
                    lemma_update_ok(chs0, i as int, ch2, self.next_sink_id);
                }
                item
            },
        }
    }

    /// The subscriber went away: its sink is closed and emptied, so the next dispatch
    /// to it fails and evicts it.
    pub fn unsubscribe(&mut self, sub: &Subscription)
        requires
            old(self).wf(),
        ensures
            final(self).wf(),
            final(self).next_sink_id() == old(self).next_sink_id(),
            final(self).sink_capacity() == old(self).sink_capacity(),
            final(self).same_queue(old(self)),
            final(self).channels() == after_unsubscribe(old(self).channels(), *sub),
    {
        proof {
            lemma_channel_index(self.channels(), sub.channel);
        }
        match self.find_channel(sub.channel) {
            None => {},
            Some(i) => {
                let ghost chs0 = self.channels();
                let mut ch = self.take_entry(i);
                proof {
                    lemma_sink_index(side(ch@, sub.annotated), sub.sink);
                }
                ch.close_on(sub.annotated, sub.sink);
                let ghost ch2 = ch@;
                self.put_back(i, ch);
                proof {
                    assert(chs0.remove(i as int).insert(i as int, ch2) =~= chs0.update(i as int, ch2));
                    let c = chs0[i as int];
                    assert(chan_ok(c, self.next_sink_id));
                    let subs = side(c, sub.annotated);
                    match sink_index(subs, sub.sink) {
                        Some(si) => {
                            lemma_same_id_update(
                                subs,
                                si,
                                SinkView { open: false, items: Seq::empty(), ..subs[si] },
                                self.next_sink_id,
                            );
                        },
                        None => {
                            assert(chs0.update(i as int, ch2) =~= chs0);
                        },
                    }
                    assert(chan_ok(ch2, self.next_sink_id));
                    lemma_update_ok(chs0, i as int, ch2, self.next_sink_id);
                }
            },
        }
    }

    /// Drops every closed sink, then every channel that has no publisher, no
    /// subscriber, and has been idle for at least `idle_ms` at `now`; returns how many
    /// channels went.
    pub fn sweep(&mut self, now: u64, idle_ms: u64) -> (removed: usize)
        requires
            old(self).wf(),
        ensures
            final(self).wf(),
            final(self).channels() == swept(old(self).channels(), now, idle_ms),
            forall|i: int|
                0 <= i < final(self).channels().len() ==> !removable(
                    #[trigger] final(self).channels()[i],
                    now,
                    idle_ms,
                ),
            removed == old(self).channels().len() - final(self).channels().len(),
            final(self).next_sink_id() == old(self).next_sink_id(),
            final(self).sink_capacity() == old(self).sink_capacity(),
            final(self).same_queue(old(self)),
    {
        let ghost orig = self.channels();
        let mut rest: Vec<ChannelState> = Vec::new();
        std::mem::swap(&mut rest, &mut self.channels);
        let total = rest.len();
        let mut kept: Vec<ChannelState> = Vec::new();
        let ghost mut k: int = 0;
        while rest.len() > 0
            invariant
                0 <= k <= orig.len(),
                orig.len() == total,
                channels_view(rest@) == orig.skip(k),
                channels_view(kept@) == swept(orig.take(k), now, idle_ms),
            decreases rest@.len(),
        {
            let ghost before = rest@;
            let mut ch = rest.remove(0);
            proof {
                assert(channels_view(before).len() == before.len());
                assert(k < orig.len());
                assert(channels_view(before)[0] == ch@);
                assert(orig.take(k + 1).drop_last() =~= orig.take(k));
                assert(orig.take(k + 1).last() == orig[k]);
                assert(orig.skip(k)[0] == orig[k]);
                assert(forall|i: int|
                    0 <= i < rest@.len() ==> channels_view(rest@)[i] == channels_view(before)[i + 1]);
                assert(channels_view(rest@) =~= orig.skip(k + 1));
            }
            ch.prune();
            if !ch.is_removable(now, idle_ms) {
                let ghost kept_before = kept@;
                let ghost c = ch@;
                kept.push(ch);
                proof {
                    assert(channels_view(kept@) =~= channels_view(kept_before).push(c));
                }
            }
            proof {
                k = k + 1;
            }
        }
        proof {
            assert(orig.take(k) =~= orig);
            lemma_swept(orig, now, idle_ms);
            lemma_swept_ok(orig, now, idle_ms, self.next_sink_id);
        }
        let n = kept.len();
        self.channels = kept;
        total - n
    }

    /// Hands the oldest queued job to the worker, unless it still holds one or the
    /// queue is empty.
    pub fn take_job(&mut self) -> (job: Option<InferJob>)
        requires
            old(self).wf(),
        ensures
            final(self).wf(),
            final(self).channels() == old(self).channels(),
            final(self).next_sink_id() == old(self).next_sink_id(),
            final(self).sink_capacity() == old(self).sink_capacity(),
            final(self).infer_capacity() == old(self).infer_capacity(),
            final(self).publishes() == old(self).publishes(),
            final(self).jobs_enqueued() == old(self).jobs_enqueued(),
            final(self).jobs_completed() == old(self).jobs_completed(),
            old(self).worker_busy() || old(self).jobs().len() == 0 ==> {
                &&& job is None
                &&& final(self).jobs() == old(self).jobs()
                &&& final(self).worker_busy() == old(self).worker_busy()
                &&& final(self).jobs_taken() == old(self).jobs_taken()
            },
            !old(self).worker_busy() && old(self).jobs().len() > 0 ==> {
                &&& job is Some
                &&& job->0@ == old(self).jobs()[0]
                &&& final(self).jobs() == old(self).jobs().drop_first()
                &&& final(self).worker_busy()
                &&& final(self).jobs_taken() == old(self).jobs_taken() + 1
            },
    {
        if self.worker_busy || self.jobs.len() == 0 {
            return None;
        }
        let job = self.jobs.remove(0);
        self.worker_busy = true;
        self.taken = Ghost(self.taken@ + 1);
        assert(self.jobs() =~= old(self).jobs().drop_first());
        Some(job)
    }

    /// The worker is done with its job. If it produced an annotated JPEG, that is
    /// wrapped as a multipart part and tried on every annotated sink of `channel`, with
    /// the same eviction as raw dispatch; `None` stands for a failed job.
    pub fn complete_job(&mut self, channel: u64, annotated: Option<&[u8]>) -> (d: Delivery)
        requires
            old(self).wf(),
        ensures
            final(self).wf(),
            !final(self).worker_busy(),
            final(self).jobs_completed() == old(self).jobs_completed() + if old(self).worker_busy() {
                1nat
            } else {
                0nat
            },
            final(self).jobs_taken() == old(self).jobs_taken(),
            final(self).jobs() == old(self).jobs(),
            final(self).jobs_enqueued() == old(self).jobs_enqueued(),
            final(self).publishes() == old(self).publishes(),
            final(self).infer_capacity() == old(self).infer_capacity(),
            final(self).next_sink_id() == old(self).next_sink_id(),
            final(self).sink_capacity() == old(self).sink_capacity(),
            match annotated {
                Some(jpeg) => match channel_index(old(self).channels(), channel) {
                    Some(i) => {
                        &&& final(self).channels() == old(self).channels().update(
                            i,
                            ChannelView {
                                annot: fanout(old(self).channels()[i].annot, wrapped(jpeg@)),
                                ..old(self).channels()[i]
                            },
                        )
                        &&& d == delivery_of(old(self).channels()[i].annot)
                    },
                    None => final(self).channels() == old(self).channels() && d == (Delivery {
                        delivered: 0,
                        dropped_full: 0,
                        evicted: 0,
                    }),
                },
                None => final(self).channels() == old(self).channels() && d == (Delivery {
                    delivered: 0,
                    dropped_full: 0,
                    evicted: 0,
                }),
            },
    {
        if self.worker_busy {
            self.worker_busy = false;
            self.completed = Ghost(self.completed@ + 1);
        }
        let none = Delivery { delivered: 0, dropped_full: 0, evicted: 0 };
        match annotated {
            None => none,
            Some(jpeg) => {
                proof {
                    lemma_channel_index(self.channels(), channel);
                }
                match self.find_channel(channel) {
                    None => none,
                    Some(i) => {
                        let ghost chs0 = self.channels();
                        let item = as_jpeg_stream_item(jpeg);
                        let mut ch = self.take_entry(i);
                        let d = ch.dispatch_annotated(&item);
                        let ghost ch2 = ch@;
                        self.put_back(i, ch);
                        proof {
                            assert(chs0.remove(i as int).insert(i as int, ch2) =~= chs0.update(i as int, ch2));
                            assert(chan_ok(chs0[i as int], self.next_sink_id));
                            lemma_published_ok(chs0[i as int], item@, 0, self.next_sink_id);
                            lemma_update_ok(chs0, i as int, ch2, self.next_sink_id);
                        }
                        d
                    },
                }
            },
        }
    }

    /// Whether the channel `name` has an entry.
    pub fn has_channel(&self, name: &str) -> (b: bool)
        ensures
            b == channel_index(self.channels(), channel_id_of(name.spec_bytes())) is Some,
    {
        let id = hashed(name);
        self.find_channel(id).is_some()
    }

    /// Whether the channel `name` has a publisher.
    pub fn has_publisher(&self, name: &str) -> (b: bool)
        ensures
            b == match channel_index(self.channels(), channel_id_of(name.spec_bytes())) {
                Some(i) => self.channels()[i].publisher,
                None => false,
            },
    {
        let id = hashed(name);
        proof {
            lemma_channel_index(self.channels(), id);
        }
        match self.find_channel(id) {
            Some(i) => self.channels[i].publisher_present,
            None => false,
        }
    }

    /// The numbers of raw and annotated sinks of the channel `name`.
    pub fn subscriber_counts(&self, name: &str) -> (r: (usize, usize))
        ensures
            match channel_index(self.channels(), channel_id_of(name.spec_bytes())) {
                Some(i) => r.0 == self.channels()[i].raw.len() && r.1 == self.channels()[i].annot.len(),
                None => r.0 == 0 && r.1 == 0,
            },
    {
        let id = hashed(name);
        proof {
            lemma_channel_index(self.channels(), id);
        }
        match self.find_channel(id) {
            Some(i) => {
                let ch = &self.channels[i];
                assert(ch@ == self.channels()[i as int]);
                (ch.raw_subs.len(), ch.annot_subs.len())
            },
            None => (0, 0),
        }
    }

    /// Whether the subscriber's sink is still in its collection and open; once it is
    /// not, nothing more will ever reach it.
    pub fn sink_present(&self, sub: &Subscription) -> (b: bool)
        ensures
            b == match channel_index(self.channels(), sub.channel) {
                Some(i) => match sink_index(side(self.channels()[i], sub.annotated), sub.sink) {
                    Some(si) => side(self.channels()[i], sub.annotated)[si].open,
                    None => false,
                },
                None => false,
            },
    {
        proof {
            lemma_channel_index(self.channels(), sub.channel);
        }
        match self.find_channel(sub.channel) {
            None => false,
            Some(i) => {
                let ch = &self.channels[i];
                assert(ch@ == self.channels()[i as int]);
                let subs = if sub.annotated {
                    &ch.annot_subs
                } else {
                    &ch.raw_subs
                };
                proof {
                    lemma_sink_index(sinks_view(subs@), sub.sink);
                }
                match find_sink(subs, sub.sink) {
                    Some(si) => {
                        assert(sinks_view(subs@)[si as int] == subs@[si as int]@);
                        subs[si].is_open()
                    },
                    None => false,
                }
            },
        }
    }

    /// The number of jobs waiting for the worker.
    pub fn pending_jobs(&self) -> (n: usize)
        ensures
            n == self.jobs().len(),
    {
        self.jobs.len()
    }

    /// The index of the entry of `id`, created if missing.
    fn entry(&mut self, id: u64, now: u64) -> (i: usize)
        ensures
            final(self).channels() == with_entry(old(self).channels(), id, now),
            i == entry_index(old(self).channels(), id),
            i < final(self).channels().len(),
            final(self).channels()[i as int].id == id,
            final(self).next_sink_id == old(self).next_sink_id,
            final(self).sink_capacity == old(self).sink_capacity,
            final(self).same_queue(old(self)),
    {
        proof {
            lemma_channel_index(self.channels(), id);
        }
        match self.find_channel(id) {
            Some(i) => i,
            None => {
                let i = self.channels.len();
                self.channels.push(ChannelState::new(id, now));
                assert(self.channels() =~= old(self).channels().push(fresh_channel(id, now)));
                i
            },
        }
    }
}

/// Every router has the same queue and counters as itself.
pub proof fn lemma_same_queue_refl(r: &Router)
    ensures
        r.same_queue(r),
{
}

/// Whatever sequence of publishes, takes and completions brought the router here, the
/// worker has been handed no more jobs than there were publishes, and no more than the
/// queue's capacity beyond the jobs it completed.
pub proof fn inference_jobs_bounded(r: &Router)
    requires
        r.wf(),
    ensures
        r.jobs_taken() <= r.jobs_enqueued(),
        r.jobs_enqueued() <= r.publishes(),
        r.jobs_taken() <= r.publishes(),
        r.jobs_taken() <= r.infer_capacity() + r.jobs_completed(),
{
}

} // verus!
