//! The hub that passes on a language model's output while it is being
//! generated.

use crate::providers::{Analysis, AnalysisView};
use crate::retention;
use crate::retention::{fresh, sweep_entries, Aging};
use crate::text;
use std::collections::HashMap;
use tokio::sync::broadcast::{Receiver, Sender};
use vstd::prelude::*;

verus! {

broadcast use vstd::std_specs::hash::group_hash_axioms;

/// An event on a job's analysis stream.
#[derive(Debug)]
pub enum HubEvent {
    /// A raw chunk of the LLM's JSON output as it is being generated.
    Delta(String),
    /// The full, validated analysis once the LLM finishes.
    Done(Analysis),
}

/// The mathematical form of an event.
pub enum HubEventView {
    Delta(Seq<char>),
    Done(AnalysisView),
}

impl View for HubEvent {
    type V = HubEventView;

    open spec fn view(&self) -> HubEventView {
        match self {
            HubEvent::Delta(delta) => HubEventView::Delta(delta@),
            HubEvent::Done(analysis) => HubEventView::Done(analysis@),
        }
    }
}

impl Clone for HubEvent {
    fn clone(&self) -> (r: Self)
        ensures
            r@ == self@,
    {
        match self {
            HubEvent::Delta(delta) => HubEvent::Delta(delta.clone()),
            HubEvent::Done(analysis) => HubEvent::Done(analysis.clone()),
        }
    }
}

/// The sending half of tokio's broadcast channel.
#[verifier::external_type_specification]
#[verifier::external_body]
#[verifier::reject_recursive_types(T)]
pub struct ExSender<T>(tokio::sync::broadcast::Sender<T>);

/// The receiving half of tokio's broadcast channel.
#[verifier::external_type_specification]
#[verifier::external_body]
#[verifier::reject_recursive_types(T)]
pub struct ExReceiver<T>(tokio::sync::broadcast::Receiver<T>);

/// The events that were sent through `tx`, in order.
pub uninterp spec fn sent_events(tx: Sender<HubEvent>) -> Seq<HubEventView>;

/// How many events had been sent when `rx` was attached: it is for those that
/// were sent after that.
pub uninterp spec fn attached_at(rx: Receiver<HubEvent>) -> nat;

/// `rx` is a receiver of the channel that `tx` sends on: what is sent through
/// `tx` after `rx` was attached is for `rx`.
pub uninterp spec fn listens(rx: Receiver<HubEvent>, tx: Sender<HubEvent>) -> bool;

/// The capacity that the channel of `tx` was made with: how many events it holds
/// at least for a receiver that is behind.
pub uninterp spec fn capacity_of(tx: Sender<HubEvent>) -> nat;

/// How many events a subscriber may be behind before it loses the oldest.
pub const CHANNEL_CAPACITY: usize = 128;

/// Calls `tokio::sync::broadcast::channel` with this capacity and keeps the
/// sending half, through which nothing was sent yet.
#[verifier::external_body]
fn new_channel(capacity: usize) -> (tx: Sender<HubEvent>)
    requires
        0 < capacity <= usize::MAX / 2,
    ensures
        sent_events(tx) == Seq::<HubEventView>::empty(),
        capacity_of(tx) == capacity,
{
    tokio::sync::broadcast::channel(capacity).0
}

/// Calls `tokio::sync::broadcast::Sender::subscribe`, which gives a receiver of
/// the same channel, for the events that are sent after the call. What the
/// receiver is handed in the end is not said: one that falls behind by more than
/// the capacity loses events.
/// It panics once a quarter of `usize::MAX` receivers are attached.
#[verifier::external_body]
fn attach(tx: &Sender<HubEvent>) -> (rx: Receiver<HubEvent>)
    ensures
        listens(rx, *tx),
        attached_at(rx) == sent_events(*tx).len(),
{
    tx.subscribe()
}

/// Calls `tokio::sync::broadcast::Sender::send`, which sends one more event to
/// the receivers that are attached; it attaches and detaches none, and leaves
/// the capacity as it is. That there may be no receiver is no error.
#[verifier::external_body]
fn publish(tx: &mut Sender<HubEvent>, event: HubEvent)
    ensures
        sent_events(*final(tx)) == sent_events(*old(tx)).push(event@),
        capacity_of(*final(tx)) == capacity_of(*old(tx)),
        forall|rx: Receiver<HubEvent>| #[trigger]
            listens(rx, *final(tx)) == listens(rx, *old(tx)),
{
    let _ = tx.send(event);
}

/// What a subscriber receives up front: every chunk generated so far, so that
/// a late joiner can catch up, plus a settled result, if any, and the receiver
/// for what comes next.
pub struct HubSubscription {
    pub past_deltas: Vec<String>,
    pub settled: Option<Analysis>,
    pub rx: Receiver<HubEvent>,
}

struct Entry {
    /// Raw JSON chunks, in order, so late subscribers can replay them.
    deltas: Vec<String>,
    /// The final analysis, once there is one.
    settled: Option<Analysis>,
    created_at: i128,
    tx: Sender<HubEvent>,
}

/// The mathematical form of a job's analysis stream.
#[verifier::ext_equal]
pub struct EntryView {
    /// The chunks that a subscriber is to replay.
    pub deltas: Seq<Seq<char>>,
    /// The final analysis, once there is one.
    pub settled: Option<AnalysisView>,
    /// The events that were sent to the subscribers.
    pub sent: Seq<HubEventView>,
    /// How many events a subscriber may be behind.
    pub capacity: nat,
    pub created_at: i128,
}

impl View for Entry {
    type V = EntryView;

    closed spec fn view(&self) -> EntryView {
        EntryView {
            deltas: text::texts(self.deltas@),
            settled: match self.settled {
                Some(analysis) => Some(analysis@),
                None => None,
            },
            sent: sent_events(self.tx),
            capacity: capacity_of(self.tx),
            created_at: self.created_at,
        }
    }
}

impl Aging for Entry {
    closed spec fn is_kept(&self, now: i128, retention: i128) -> bool {
        retention::is_fresh(self.created_at, now, retention)
    }

    fn kept(&self, now: i128, retention: i128) -> (out: bool) {
        fresh(self.created_at, now, retention)
    }
}

/// The chunks among these events that no final analysis has followed.
pub open spec fn unsettled(events: Seq<HubEventView>) -> Seq<Seq<char>>
    decreases events.len(),
{
    if events.len() == 0 {
        Seq::empty()
    } else {
        match events.last() {
            HubEventView::Delta(delta) => unsettled(events.drop_last()).push(delta),
            HubEventView::Done(_) => Seq::empty(),
        }
    }
}

/// The last final analysis among these events.
pub open spec fn last_analysis(events: Seq<HubEventView>) -> Option<AnalysisView>
    decreases events.len(),
{
    if events.len() == 0 {
        None
    } else {
        match events.last() {
            HubEventView::Delta(_) => last_analysis(events.drop_last()),
            HubEventView::Done(analysis) => Some(analysis),
        }
    }
}

impl EntryView {
    /// A stream on which nothing has happened yet.
    pub open spec fn opened(now: i128) -> EntryView {
        EntryView {
            deltas: Seq::empty(),
            settled: None,
            sent: Seq::empty(),
            capacity: CHANNEL_CAPACITY as nat,
            created_at: now,
        }
    }

    /// What is kept for replay are the chunks that were sent and not settled,
    /// and the final analysis that was sent last; a subscriber may be so many
    /// events behind as every stream allows.
    pub open spec fn wf(self) -> bool {
        &&& self.capacity == CHANNEL_CAPACITY
        &&& self.deltas == unsettled(self.sent)
        &&& self.settled == last_analysis(self.sent)
    }

    /// The stream after one more event. A chunk is kept for replay; the final
    /// analysis is kept in place of the chunks.
    pub open spec fn and(self, event: HubEventView) -> EntryView {
        EntryView {
            deltas: match event {
                HubEventView::Delta(delta) => self.deltas.push(delta),
                HubEventView::Done(_) => Seq::empty(),
            },
            settled: match event {
                HubEventView::Delta(_) => self.settled,
                HubEventView::Done(analysis) => Some(analysis),
            },
            sent: self.sent.push(event),
            capacity: self.capacity,
            created_at: self.created_at,
        }
    }
}

/// The stream of the job `id`, which is opened at `now` where there is none.
pub open spec fn stream_of(hub: Map<u128, EntryView>, id: u128, now: i128) -> EntryView {
    if hub.contains_key(id) {
        hub[id]
    } else {
        EntryView::opened(now)
    }
}

/// The hub after an event on the stream of the job `id`.
pub open spec fn with_event(
    hub: Map<u128, EntryView>,
    id: u128,
    now: i128,
    event: HubEventView,
) -> Map<u128, EntryView> {
    hub.insert(id, stream_of(hub, id, now).and(event))
}

/// The hub that a sweep leaves.
pub open spec fn swept(hub: Map<u128, EntryView>, now: i128, retention: i128) -> Map<
    u128,
    EntryView,
> {
    Map::new(
        |id: u128|
            hub.contains_key(id) && retention::is_fresh(hub[id].created_at, now, retention),
        |id: u128| hub[id],
    )
}

/// A copy of a list of texts.
fn copy_texts(list: &Vec<String>) -> (out: Vec<String>)
    ensures
        text::texts(out@) == text::texts(list@),
{
    let mut out: Vec<String> = Vec::new();
    let mut i: usize = 0;
    assert(text::texts(out@) =~= text::texts(list@).take(0));
    while i < list.len()
        invariant
            i <= list@.len(),
            text::texts(out@) == text::texts(list@).take(i as int),
        decreases list@.len() - i,
    {
        let ghost before = text::texts(out@);
        out.push(list[i].clone());
        assert(text::texts(out@) =~= before.push(list@[i as int]@));
        assert(text::texts(list@).take(i as int).push(list@[i as int]@) =~= text::texts(
            list@,
        ).take(i as int + 1));
        i += 1;
    }
    assert(text::texts(list@).take(i as int) =~= text::texts(list@));
    out
}

/// Collects the streaming LLM output for every job and sends it to the
/// subscribers.
pub struct AnalysisHub {
    entries: HashMap<u128, Entry>,
}

impl View for AnalysisHub {
    type V = Map<u128, EntryView>;

    closed spec fn view(&self) -> Map<u128, EntryView> {
        self.entries@.map_values(|e: Entry| e@)
    }
}

/// Every receiver that was on a stream of `before` is on the same stream of
/// `after`, as far as the stream is still there, and no other is.
pub open spec fn same_listeners(before: AnalysisHub, after: AnalysisHub) -> bool {
    forall|id: u128, rx: Receiver<HubEvent>|
        before@.contains_key(id) && after@.contains_key(id) ==> #[trigger] after.feeds(id, rx)
            == before.feeds(id, rx)
}

impl AnalysisHub {
    /// The receiver `rx` is on the channel of the stream of the job `id`: what is
    /// sent on that stream from now on is for it.
    pub closed spec fn feeds(self, id: u128, rx: Receiver<HubEvent>) -> bool {
        self.entries@.contains_key(id) && listens(rx, self.entries@[id].tx)
    }

    /// A hub without streams.
    pub fn new() -> (hub: AnalysisHub)
        ensures
            hub@ == Map::<u128, EntryView>::empty(),
    {
        let hub = AnalysisHub { entries: HashMap::new() };
        assert(hub@ =~= Map::<u128, EntryView>::empty());
        hub
    }

    /// Takes the stream of a job out of the hub, or opens one.
    fn take_stream(&mut self, id: u128, now: i128) -> (entry: Entry)
        ensures
            entry@ == stream_of(old(self)@, id, now),
            old(self).entries@.contains_key(id) ==> entry == old(self).entries@[id],
            final(self).entries@ == old(self).entries@.remove(id),
    {
        let entry = match self.entries.remove(&id) {
            Some(entry) => entry,
            None => Entry {
                deltas: Vec::new(),
                settled: None,
                created_at: now,
                tx: new_channel(CHANNEL_CAPACITY),
            },
        };
        assert(entry@ =~= stream_of(old(self)@, id, now));
        assert(self.entries@ =~= old(self).entries@.remove(id));
        entry
    }

    /// Subscribes to a job's analysis stream. Creates a slot eagerly so deltas
    /// produced before the LLM starts are not lost.
    pub fn subscribe(&mut self, id: u128, now: i128) -> (sub: HubSubscription)
        ensures
            final(self)@ == old(self)@.insert(id, stream_of(old(self)@, id, now)),
            text::texts(sub.past_deltas@) == stream_of(old(self)@, id, now).deltas,
            match sub.settled {
                Some(analysis) => stream_of(old(self)@, id, now).settled == Some(analysis@),
                None => stream_of(old(self)@, id, now).settled is None,
            },
            final(self).feeds(id, sub.rx),
            attached_at(sub.rx) == stream_of(old(self)@, id, now).sent.len(),
            is_sound(old(self)@) ==> final(self)@[id].capacity == CHANNEL_CAPACITY,
            same_listeners(*old(self), *final(self)),
    {
        let entry = self.take_stream(id, now);
        let settled = match &entry.settled {
            Some(analysis) => Some(analysis.clone()),
            None => None,
        };
        let sub = HubSubscription {
            past_deltas: copy_texts(&entry.deltas),
            settled,
            rx: attach(&entry.tx),
        };
        self.entries.insert(id, entry);
        assert(self@ =~= old(self)@.insert(id, stream_of(old(self)@, id, now)));
        sub
    }

    /// Records a raw JSON chunk from the LLM stream and sends it.
    pub fn push_delta(&mut self, id: u128, delta: &str, now: i128)
        ensures
            final(self)@ == with_event(old(self)@, id, now, HubEventView::Delta(delta@)),
            same_listeners(*old(self), *final(self)),
    {
        let mut entry = self.take_stream(id, now);
        let ghost was = entry@;
        entry.deltas.push(delta.to_owned());
        publish(&mut entry.tx, HubEvent::Delta(delta.to_owned()));
        assert(entry@ =~= was.and(HubEventView::Delta(delta@)));
        self.entries.insert(id, entry);
        assert(self@ =~= with_event(old(self)@, id, now, HubEventView::Delta(delta@)));
    }

    /// Settles the stream with the final validated analysis.
    pub fn push_done(&mut self, id: u128, analysis: Analysis, now: i128)
        ensures
            final(self)@ == with_event(old(self)@, id, now, HubEventView::Done(analysis@)),
            same_listeners(*old(self), *final(self)),
    {
        let mut entry = self.take_stream(id, now);
        let ghost was = entry@;
        entry.deltas = Vec::new();
        entry.settled = Some(analysis.clone());
        publish(&mut entry.tx, HubEvent::Done(analysis));
        assert(entry@ =~= was.and(HubEventView::Done(analysis@)));
        self.entries.insert(id, entry);
        assert(self@ =~= with_event(old(self)@, id, now, HubEventView::Done(analysis@)));
    }

    /// Drops streams older than the retention window.
    pub fn sweep(&mut self, now: i128, retention: i128)
        ensures
            final(self)@ == swept(old(self)@, now, retention),
            same_listeners(*old(self), *final(self)),
    {
        sweep_entries(&mut self.entries, now, retention);
        assert(self@ =~= swept(old(self)@, now, retention));
    }
}

impl Default for AnalysisHub {
    fn default() -> (hub: Self)
        ensures
            hub@ == Map::<u128, EntryView>::empty(),
    {
        AnalysisHub::new()
    }
}

/// The chunks among these events, in order.
pub open spec fn deltas_of(events: Seq<HubEventView>) -> Seq<Seq<char>>
    decreases events.len(),
{
    if events.len() == 0 {
        Seq::empty()
    } else {
        match events.last() {
            HubEventView::Delta(delta) => deltas_of(events.drop_last()).push(delta),
            HubEventView::Done(_) => deltas_of(events.drop_last()),
        }
    }
}

/// Every stream of a hub is sound.
pub open spec fn is_sound(hub: Map<u128, EntryView>) -> bool {
    forall|id: u128| hub.contains_key(id) ==> (#[trigger] hub[id]).wf()
}

/// A hub is sound when it is new and stays so, whatever happens on it.
pub proof fn law_hub_stays_sound(
    hub: Map<u128, EntryView>,
    id: u128,
    now: i128,
    event: HubEventView,
    retention: i128,
)
    requires
        is_sound(hub),
    ensures
        is_sound(Map::empty()),
        is_sound(hub.insert(id, stream_of(hub, id, now))),
        is_sound(with_event(hub, id, now, event)),
        is_sound(swept(hub, now, retention)),
{
    let entry = stream_of(hub, id, now);
    let then = entry.and(event);
    assert(entry.wf());
    assert(then.sent.drop_last() =~= entry.sent);
    assert(then.deltas =~= unsettled(then.sent));
    assert(then.settled == last_analysis(then.sent));
}

/// A late joiner misses nothing: what a subscriber replays, followed by the
/// chunks that are sent after it was attached, is every chunk of the analysis,
/// each once and in order, as long as the analysis is not settled.
pub proof fn law_late_joiner_misses_nothing(entry: EntryView, later: Seq<HubEventView>)
    requires
        entry.wf(),
        forall|i: int| 0 <= i < later.len() ==> (#[trigger] later[i]) is Delta,
    ensures
        unsettled(entry.sent + later) == entry.deltas + deltas_of(later),
        (entry.sent + later).skip(entry.sent.len() as int) == later,
    decreases later.len(),
{
    assert((entry.sent + later).skip(entry.sent.len() as int) =~= later);
    if later.len() == 0 {
        assert(entry.sent + later =~= entry.sent);
        assert(entry.deltas + deltas_of(later) =~= entry.deltas);
    } else {
        let front = later.drop_last();
        assert forall|i: int| 0 <= i < front.len() implies (#[trigger] front[i]) is Delta by {
            assert(front[i] == later[i]);
        }
        law_late_joiner_misses_nothing(entry, front);
        assert((entry.sent + later).drop_last() =~= entry.sent + front);
        assert((entry.sent + later).last() == later.last());
        assert(later.last() is Delta) by {
            assert(later[later.len() - 1] is Delta);
        }
        assert(entry.deltas + deltas_of(later) =~= (entry.deltas + deltas_of(front)).push(
            later.last()->Delta_0,
        ));
    }
}

/// The events that were sent on the stream of the job `id` since `rx` was
/// attached to it.
pub open spec fn since_attached(
    hub: Map<u128, EntryView>,
    id: u128,
    rx: Receiver<HubEvent>,
) -> Seq<HubEventView> {
    hub[id].sent.skip(attached_at(rx) as int)
}

/// What can happen on a hub.
pub enum HubAction {
    /// Something is sent on the stream of a job.
    Sent { job: u128, now: i128, event: HubEventView },
    /// Somebody subscribes to the stream of a job.
    Subscribed { job: u128, now: i128 },
    /// The hub is swept.
    Swept { now: i128, retention: i128 },
}

/// The hub after an action.
pub open spec fn after_action(hub: Map<u128, EntryView>, action: HubAction) -> Map<
    u128,
    EntryView,
> {
    match action {
        HubAction::Sent { job, now, event } => with_event(hub, job, now, event),
        HubAction::Subscribed { job, now } => hub.insert(job, stream_of(hub, job, now)),
        HubAction::Swept { now, retention } => swept(hub, now, retention),
    }
}

/// The hub after these actions.
pub open spec fn after_actions(hub: Map<u128, EntryView>, actions: Seq<HubAction>) -> Map<
    u128,
    EntryView,
>
    decreases actions.len(),
{
    if actions.len() == 0 {
        hub
    } else {
        after_action(after_actions(hub, actions.drop_last()), actions.last())
    }
}

/// What is sent on the stream of the job `id` by these actions, in order.
pub open spec fn sent_to(actions: Seq<HubAction>, id: u128) -> Seq<HubEventView>
    decreases actions.len(),
{
    if actions.len() == 0 {
        Seq::empty()
    } else {
        let before = sent_to(actions.drop_last(), id);
        match actions.last() {
            HubAction::Sent { job, event, .. } => if job == id {
                before.push(event)
            } else {
                before
            },
            _ => before,
        }
    }
}

/// None of these actions sweeps away a stream that was made at `created`.
pub open spec fn spares(actions: Seq<HubAction>, created: i128) -> bool {
    forall|k: int|
        0 <= k < actions.len() ==> ((#[trigger] actions[k]) matches HubAction::Swept {
            now,
            retention,
        } ==> retention::is_fresh(created, now, retention))
}

/// However what happens on a hub is interleaved, a stream gets exactly what is
/// sent on it, in order, as long as it is not swept away.
proof fn lemma_stream_after_actions(
    hub: Map<u128, EntryView>,
    id: u128,
    actions: Seq<HubAction>,
)
    requires
        hub.contains_key(id),
        hub[id].wf(),
        spares(actions, hub[id].created_at),
    ensures
        after_actions(hub, actions).contains_key(id),
        after_actions(hub, actions)[id].wf(),
        after_actions(hub, actions)[id].sent == hub[id].sent + sent_to(actions, id),
        after_actions(hub, actions)[id].created_at == hub[id].created_at,
    decreases actions.len(),
{
    if actions.len() == 0 {
        assert(hub[id].sent + sent_to(actions, id) =~= hub[id].sent);
    } else {
        let front = actions.drop_last();
        let last = actions[actions.len() - 1];
        assert(spares(front, hub[id].created_at)) by {
            assert forall|k: int| 0 <= k < front.len() implies ((
            #[trigger] front[k]) matches HubAction::Swept { now, retention }
                ==> retention::is_fresh(hub[id].created_at, now, retention)) by {
                assert(front[k] == actions[k]);
            }
        }
        lemma_stream_after_actions(hub, id, front);
        let before = after_actions(hub, front)[id];
        if let HubAction::Sent { job, event, .. } = last {
            if job == id {
                let then = before.and(event);
                assert(then.sent.drop_last() =~= before.sent);
                assert(then.deltas =~= unsettled(then.sent));
                assert(then.settled == last_analysis(then.sent));
                assert(then.sent =~= hub[id].sent + sent_to(actions, id));
            }
        }
    }
}

/// What a subscriber replays, followed by what is sent on its channel after it
/// was attached, is every chunk of the job, once and in order, and none of
/// another job. Here `rx` was attached to the stream as `hub` has it, and the
/// actions come next, on this job and on others, in any order; none of them
/// sweeps the stream away.
pub proof fn law_subscriber_gets_every_chunk(
    hub: Map<u128, EntryView>,
    id: u128,
    rx: Receiver<HubEvent>,
    actions: Seq<HubAction>,
)
    requires
        hub.contains_key(id),
        hub[id].wf(),
        attached_at(rx) == hub[id].sent.len(),
        spares(actions, hub[id].created_at),
    ensures
        ({
            let then = after_actions(hub, actions);
            let later = sent_to(actions, id);
            &&& then.contains_key(id)
            &&& since_attached(then, id, rx) == later
            &&& (forall|i: int| 0 <= i < later.len() ==> (#[trigger] later[i]) is Delta)
                ==> then[id].deltas == hub[id].deltas + deltas_of(later)
        }),
{
    let then = after_actions(hub, actions);
    let later = sent_to(actions, id);
    lemma_stream_after_actions(hub, id, actions);
    assert(since_attached(then, id, rx) =~= later);
    if forall|i: int| 0 <= i < later.len() ==> (#[trigger] later[i]) is Delta {
        law_late_joiner_misses_nothing(hub[id], later);
    }
}

/// Once an analysis is settled there are no chunks left to replay, and whoever
/// subscribes is handed the analysis up front, whatever else happens before, as
/// long as no other analysis is sent on the stream and it is not swept away.
pub proof fn law_settled_result_is_handed_out(
    hub: Map<u128, EntryView>,
    id: u128,
    now: i128,
    analysis: AnalysisView,
    actions: Seq<HubAction>,
    later: i128,
)
    requires
        stream_of(hub, id, now).wf(),
        spares(actions, stream_of(hub, id, now).created_at),
        forall|i: int|
            0 <= i < sent_to(actions, id).len() ==> (#[trigger] sent_to(actions, id)[i]) is Delta,
    ensures
        ({
            let done = with_event(hub, id, now, HubEventView::Done(analysis));
            &&& stream_of(done, id, later).deltas.len() == 0
            &&& stream_of(done, id, later).settled == Some(analysis)
            &&& stream_of(after_actions(done, actions), id, later).settled == Some(analysis)
        }),
{
    let done = with_event(hub, id, now, HubEventView::Done(analysis));
    let before = stream_of(hub, id, now);
    let then = done[id];
    assert(then.sent.drop_last() =~= before.sent);
    assert(then.deltas =~= unsettled(then.sent));
    assert(then.settled == last_analysis(then.sent));
    lemma_stream_after_actions(done, id, actions);
    lemma_deltas_keep_analysis(then.sent, sent_to(actions, id));
}

proof fn lemma_deltas_keep_analysis(sent: Seq<HubEventView>, later: Seq<HubEventView>)
    requires
        forall|i: int| 0 <= i < later.len() ==> (#[trigger] later[i]) is Delta,
    ensures
        last_analysis(sent + later) == last_analysis(sent),
    decreases later.len(),
{
    if later.len() == 0 {
        assert(sent + later =~= sent);
    } else {
        let front = later.drop_last();
        assert forall|i: int| 0 <= i < front.len() implies (#[trigger] front[i]) is Delta by {
            assert(front[i] == later[i]);
        }
        lemma_deltas_keep_analysis(sent, front);
        assert((sent + later).drop_last() =~= sent + front);
        assert((sent + later).last() == later[later.len() - 1]);
    }
}

/// What happens on one job's stream changes no other.
pub proof fn law_streams_are_apart(
    hub: Map<u128, EntryView>,
    id: u128,
    other: u128,
    now: i128,
    event: HubEventView,
)
    requires
        id != other,
    ensures
        with_event(hub, id, now, event).contains_key(other) == hub.contains_key(other),
        with_event(hub, id, now, event)[other] == hub[other],
{
}

/// Exactly the streams out of the retention window go in a sweep, and what
/// stays is as it was.
pub proof fn law_sweep_drops_old_streams(
    hub: Map<u128, EntryView>,
    now: i128,
    retention: i128,
    id: u128,
)
    requires
        hub.contains_key(id),
    ensures
        !swept(hub, now, retention).contains_key(id) <==> (now < hub[id].created_at || now
            - hub[id].created_at > retention),
        swept(hub, now, retention).contains_key(id) ==> swept(hub, now, retention)[id] == hub[id],
        swept(hub, now, retention).submap_of(hub),
        swept(swept(hub, now, retention), now, retention) == swept(hub, now, retention),
{
    assert(swept(swept(hub, now, retention), now, retention) =~= swept(hub, now, retention));
}

/// An event changes its own stream, which is opened where there is none, and in
/// one way: it is sent as it is, behind those that were sent before; a chunk is
/// kept for replay as it is, behind those that are kept, and a final analysis is
/// kept in place of all of them.
pub proof fn law_an_event_is_sent_and_kept(
    hub: Map<u128, EntryView>,
    id: u128,
    now: i128,
    delta: Seq<char>,
    analysis: AnalysisView,
)
    ensures
        ({
            let was = stream_of(hub, id, now);
            let chunk = with_event(hub, id, now, HubEventView::Delta(delta));
            let done = with_event(hub, id, now, HubEventView::Done(analysis));
            &&& !hub.contains_key(id) ==> {
                &&& was.deltas.len() == 0
                &&& was.settled is None
                &&& was.sent.len() == 0
                &&& was.created_at == now
                &&& was.capacity == 128
            }
            &&& hub.contains_key(id) ==> was == hub[id]
            &&& chunk.dom() == hub.dom().insert(id)
            &&& chunk[id].deltas == was.deltas.push(delta)
            &&& chunk[id].sent == was.sent.push(HubEventView::Delta(delta))
            &&& chunk[id].settled == was.settled
            &&& chunk[id].created_at == was.created_at
            &&& chunk[id].capacity == was.capacity
            &&& done.dom() == hub.dom().insert(id)
            &&& done[id].deltas.len() == 0
            &&& done[id].sent == was.sent.push(HubEventView::Done(analysis))
            &&& done[id].settled == Some(analysis)
            &&& done[id].created_at == was.created_at
            &&& done[id].capacity == was.capacity
        }),
{
}

/// Chunks that nothing has settled are all replayed, as they were sent: after
/// any chunks, on a stream on which nothing happened before, what a subscriber
/// replays is these chunks.
pub proof fn law_replay_is_what_was_sent(chunks: Seq<Seq<char>>)
    ensures
        ({
            let events = chunks.map_values(|c: Seq<char>| HubEventView::Delta(c));
            &&& unsettled(events) == chunks
            &&& deltas_of(events) == chunks
            &&& last_analysis(events) is None
        }),
    decreases chunks.len(),
{
    let events = chunks.map_values(|c: Seq<char>| HubEventView::Delta(c));
    if chunks.len() > 0 {
        let front = chunks.drop_last();
        law_replay_is_what_was_sent(front);
        assert(events.drop_last() =~= front.map_values(|c: Seq<char>| HubEventView::Delta(c)));
        assert(front.push(chunks.last()) =~= chunks);
    } else {
        assert(unsettled(events) =~= chunks);
        assert(deltas_of(events) =~= chunks);
    }
}

/// What was sent before the last final analysis is not replayed, and what was
/// sent after it is; of the analyses the last one counts.
pub proof fn law_an_analysis_settles_what_came_before(
    before: Seq<HubEventView>,
    analysis: AnalysisView,
    chunks: Seq<Seq<char>>,
)
    ensures
        ({
            let events = before.push(HubEventView::Done(analysis)) + chunks.map_values(
                |c: Seq<char>| HubEventView::Delta(c),
            );
            &&& unsettled(events) == chunks
            &&& last_analysis(events) == Some(analysis)
        }),
    decreases chunks.len(),
{
    let tail = chunks.map_values(|c: Seq<char>| HubEventView::Delta(c));
    let settled = before.push(HubEventView::Done(analysis));
    let events = settled + tail;
    if chunks.len() > 0 {
        let front = chunks.drop_last();
        law_an_analysis_settles_what_came_before(before, analysis, front);
        assert(events.drop_last() =~= settled + front.map_values(
            |c: Seq<char>| HubEventView::Delta(c),
        ));
        assert(events.last() == HubEventView::Delta(chunks.last()));
        assert(front.push(chunks.last()) =~= chunks);
    } else {
        assert(events =~= settled);
        assert(unsettled(events) =~= chunks);
    }
}

} // verus!
