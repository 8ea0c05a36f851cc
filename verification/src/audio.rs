//! How the packets of an upload become one signal. The container and the codec
//! are read elsewhere, packet by packet; what is done about each packet is
//! decided here.

use vstd::prelude::*;
use vstd::string::*;

verus! {

/// Why an upload cannot be decoded at all.
#[derive(Debug)]
pub enum OpenError {
    /// The container was not recognized.
    Probe(String),
    /// There is no audio in it.
    NoTrack,
    /// There is no decoder for it.
    Codec(String),
}

impl OpenError {
    /// The text of the message.
    pub open spec fn message_text(self) -> Seq<char> {
        match self {
            OpenError::Probe(e) => "probe failed: "@ + e@,
            OpenError::NoTrack => "no audio track"@,
            OpenError::Codec(e) => "unsupported codec: "@ + e@,
        }
    }

    /// The message.
    pub fn message(&self) -> (out: String)
        ensures
            out@ == self.message_text(),
    {
        match self {
            OpenError::Probe(e) => "probe failed: ".to_owned().concat(e.as_str()),
            OpenError::NoTrack => "no audio track".to_owned(),
            OpenError::Codec(e) => "unsupported codec: ".to_owned().concat(e.as_str()),
        }
    }
}

/// How the samples of a signal are to be read: interleaved, so many channels,
/// so many frames a second.
#[derive(Clone, Copy, Debug, PartialEq, Eq, Structural)]
pub struct SignalSpec {
    pub channels: usize,
    pub rate: usize,
}

/// A decoded signal.
#[derive(Debug)]
pub struct Signal<S> {
    pub samples: Vec<S>,
    pub spec: SignalSpec,
}

/// What the container gave when it was asked for the next packet.
#[derive(Clone, Copy, Debug, PartialEq, Eq, Structural)]
pub enum Fetched {
    Packet { track_id: u32 },
    /// There is no further packet, or none can be read.
    Ended,
}

/// What is to be done with what the container gave.
#[derive(Clone, Copy, Debug, PartialEq, Eq, Structural)]
pub enum FetchStep {
    Decode,
    Skip,
    Stop,
}

/// What the decoder gave for a packet.
#[derive(Debug)]
pub enum Decoded<S> {
    Block { samples: Vec<S>, spec: SignalSpec },
    /// The packet is damaged; those after it may not be.
    Damaged,
    /// The decoder cannot go on.
    Broken,
}

/// A packet as far as it matters to the signal.
pub enum PacketView<S> {
    /// It belongs to another track.
    Foreign,
    Block { samples: Seq<S>, spec: SignalSpec },
    Damaged,
    /// It is the last that is looked at.
    Final,
}

impl<S> View for Decoded<S> {
    type V = PacketView<S>;

    open spec fn view(&self) -> PacketView<S> {
        match self {
            Decoded::Block { samples, spec } => PacketView::Block { samples: samples@, spec: *spec },
            Decoded::Damaged => PacketView::Damaged,
            Decoded::Broken => PacketView::Final,
        }
    }
}

/// The mathematical form of a signal in the making.
#[verifier::ext_equal]
pub struct DecodeView<S> {
    pub samples: Seq<S>,
    pub spec: Option<SignalSpec>,
    pub stopped: bool,
}

impl<S> DecodeView<S> {
    /// Before the first packet.
    pub open spec fn start() -> DecodeView<S> {
        DecodeView { samples: Seq::empty(), spec: None, stopped: false }
    }

    /// Samples come with a spec.
    pub open spec fn wf(self) -> bool {
        self.samples.len() > 0 ==> self.spec is Some
    }

    /// After one more packet. The first block says how the signal is to be
    /// read.
    pub open spec fn step(self, packet: PacketView<S>) -> DecodeView<S> {
        if self.stopped {
            self
        } else {
            match packet {
                PacketView::Foreign | PacketView::Damaged => self,
                PacketView::Block { samples, spec } => DecodeView {
                    samples: self.samples + samples,
                    spec: match self.spec {
                        Some(s) => Some(s),
                        None => Some(spec),
                    },
                    stopped: false,
                },
                PacketView::Final => DecodeView { stopped: true, ..self },
            }
        }
    }

    /// After these packets.
    pub open spec fn run(self, packets: Seq<PacketView<S>>) -> DecodeView<S>
        decreases packets.len(),
    {
        if packets.len() == 0 {
            self
        } else {
            self.run(packets.drop_last()).step(packets.last())
        }
    }
}

/// What is to be done with what the container gave.
pub open spec fn fetch_step(track_id: u32, fetched: Fetched) -> FetchStep {
    match fetched {
        Fetched::Ended => FetchStep::Stop,
        Fetched::Packet { track_id: id } => if id == track_id {
            FetchStep::Decode
        } else {
            FetchStep::Skip
        },
    }
}

/// A signal in the making.
pub struct DecodeLoop<S> {
    track_id: u32,
    samples: Vec<S>,
    spec: Option<SignalSpec>,
    stopped: bool,
}

impl<S> View for DecodeLoop<S> {
    type V = DecodeView<S>;

    closed spec fn view(&self) -> DecodeView<S> {
        DecodeView { samples: self.samples@, spec: self.spec, stopped: self.stopped }
    }
}

impl<S> DecodeLoop<S> {
    /// The track whose packets are decoded.
    pub closed spec fn track(self) -> u32 {
        self.track_id
    }

    /// The signal of a track, before its first packet.
    pub fn new(track_id: u32) -> (out: DecodeLoop<S>)
        ensures
            out@ == DecodeView::<S>::start(),
            out@.wf(),
            out.track() == track_id,
    {
        let out = DecodeLoop { track_id, samples: Vec::new(), spec: None, stopped: false };
        assert(out@ =~= DecodeView::<S>::start());
        out
    }

    /// Takes in what the container gave when it was asked for the next packet,
    /// and says whether the packet is to be decoded, skipped, or none is to be
    /// asked for any more.
    pub fn on_fetched(&mut self, fetched: Fetched) -> (step: FetchStep)
        requires
            old(self)@.wf(),
        ensures
            step == fetch_step(old(self).track(), fetched),
            final(self)@ == match step {
                FetchStep::Decode => old(self)@,
                FetchStep::Skip => old(self)@.step(PacketView::Foreign),
                FetchStep::Stop => old(self)@.step(PacketView::Final),
            },
            final(self).track() == old(self).track(),
            final(self)@.wf(),
    {
        match fetched {
            Fetched::Ended => {
                self.stopped = true;
                FetchStep::Stop
            },
            Fetched::Packet { track_id } => {
                if track_id == self.track_id {
                    FetchStep::Decode
                } else {
                    FetchStep::Skip
                }
            },
        }
    }

    /// Takes in what the decoder gave for a packet, and says whether to go on.
    pub fn on_decoded(&mut self, decoded: Decoded<S>) -> (go_on: bool)
        requires
            old(self)@.wf(),
            !old(self)@.stopped,
        ensures
            go_on == !(decoded is Broken),
            final(self)@ == old(self)@.step(decoded@),
            final(self).track() == old(self).track(),
            final(self)@.wf(),
    {
        match decoded {
            Decoded::Block { samples, spec } => {
                if self.spec.is_none() {
                    self.spec = Some(spec);
                }
                let mut samples = samples;
                self.samples.append(&mut samples);
                true
            },
            Decoded::Damaged => true,
            Decoded::Broken => {
                self.stopped = true;
                false
            },
        }
    }

    /// The signal that was decoded.
    pub fn finish(self) -> (r: Result<Signal<S>, String>)
        requires
            self@.wf(),
        ensures
            match r {
                Ok(signal) => {
                    &&& self@.samples.len() > 0
                    &&& signal.samples@ == self@.samples
                    &&& self@.spec == Some(signal.spec)
                },
                Err(e) => self@.samples.len() == 0 && e@ == "no audio samples decoded"@,
            },
    {
        if self.samples.len() == 0 {
            return Err("no audio samples decoded".to_owned());
        }
        match self.spec {
            Some(spec) => Ok(Signal { samples: self.samples, spec }),
            None => Err("no audio samples decoded".to_owned()),
        }
    }
}

/// The samples of all the blocks among these packets, in order.
pub open spec fn blocks_of<S>(packets: Seq<PacketView<S>>) -> Seq<S>
    decreases packets.len(),
{
    if packets.len() == 0 {
        Seq::empty()
    } else {
        match packets.last() {
            PacketView::Block { samples, .. } => blocks_of(packets.drop_last()) + samples,
            _ => blocks_of(packets.drop_last()),
        }
    }
}

/// A signal is the blocks of its track, in order and without gaps; packets of
/// other tracks and damaged ones leave no trace. As long as no packet is the
/// last that is looked at, the loop goes on.
pub proof fn law_signal_is_the_blocks<S>(packets: Seq<PacketView<S>>)
    requires
        forall|i: int| 0 <= i < packets.len() ==> !((#[trigger] packets[i]) is Final),
    ensures
        DecodeView::start().run(packets).samples == blocks_of(packets),
        !DecodeView::start().run(packets).stopped,
        DecodeView::start().run(packets).wf(),
    decreases packets.len(),
{
    if packets.len() > 0 {
        let front = packets.drop_last();
        assert forall|i: int| 0 <= i < front.len() implies !((#[trigger] front[i]) is Final) by {
            assert(front[i] == packets[i]);
        }
        law_signal_is_the_blocks(front);
        assert(!(packets[packets.len() - 1] is Final));
    }
}

/// Nothing that comes after the last packet that is looked at changes the
/// signal.
pub proof fn law_nothing_after_the_last_packet<S>(
    before: Seq<PacketView<S>>,
    after: Seq<PacketView<S>>,
)
    ensures
        DecodeView::start().run(before + seq![PacketView::Final] + after).samples
            == DecodeView::start().run(before).samples,
        DecodeView::start().run(before + seq![PacketView::Final] + after).spec
            == DecodeView::start().run(before).spec,
        DecodeView::start().run(before + seq![PacketView::Final] + after).stopped,
    decreases after.len(),
{
    let all = before + seq![PacketView::Final] + after;
    if after.len() == 0 {
        assert(all.drop_last() =~= before);
        assert(all.last() is Final);
    } else {
        law_nothing_after_the_last_packet(before, after.drop_last());
        assert(all.drop_last() =~= before + seq![PacketView::Final] + after.drop_last());
    }
}

/// The first block says how the signal is to be read.
pub proof fn law_first_block_gives_the_spec<S>(
    skipped: Seq<PacketView<S>>,
    samples: Seq<S>,
    spec: SignalSpec,
    rest: Seq<PacketView<S>>,
)
    requires
        forall|i: int|
            0 <= i < skipped.len() ==> (#[trigger] skipped[i]) is Foreign || skipped[i] is Damaged,
    ensures
        DecodeView::start().run(skipped + seq![PacketView::Block { samples, spec }] + rest).spec
            == Some(spec),
    decreases rest.len(), skipped.len(),
{
    let all = skipped + seq![PacketView::Block { samples, spec }] + rest;
    if rest.len() > 0 {
        law_first_block_gives_the_spec(skipped, samples, spec, rest.drop_last());
        assert(all.drop_last() =~= skipped + seq![PacketView::Block { samples, spec }]
            + rest.drop_last());
    } else {
        assert(all.drop_last() =~= skipped);
        assert(all.last() == PacketView::Block { samples, spec });
        lemma_skipped_leave_no_trace(skipped);
    }
}

proof fn lemma_skipped_leave_no_trace<S>(skipped: Seq<PacketView<S>>)
    requires
        forall|i: int|
            0 <= i < skipped.len() ==> (#[trigger] skipped[i]) is Foreign || skipped[i] is Damaged,
    ensures
        DecodeView::<S>::start().run(skipped) == DecodeView::<S>::start(),
    decreases skipped.len(),
{
    if skipped.len() > 0 {
        let front = skipped.drop_last();
        assert forall|i: int| 0 <= i < front.len() implies (#[trigger] front[i]) is Foreign
            || front[i] is Damaged by {
            assert(front[i] == skipped[i]);
        }
        lemma_skipped_leave_no_trace(front);
        assert(skipped[skipped.len() - 1] is Foreign || skipped[skipped.len() - 1] is Damaged);
    }
}

/// A packet changes a signal in one way: a block of the track adds its samples
/// behind those that are there, and says how the signal is to be read if no
/// block has yet; the last packet ends the signal, and every other changes
/// nothing.
pub proof fn law_what_a_packet_changes<S>(
    signal: DecodeView<S>,
    samples: Seq<S>,
    spec: SignalSpec,
)
    ensures
        ({
            let then = signal.step(PacketView::Block { samples, spec });
            &&& signal.stopped ==> then == signal
            &&& !signal.stopped ==> then.samples == signal.samples + samples && !then.stopped
            &&& !signal.stopped && signal.spec is None ==> then.spec == Some(spec)
            &&& signal.spec is Some ==> then.spec == signal.spec
        }),
        signal.step(PacketView::Foreign) == signal,
        signal.step(PacketView::Damaged) == signal,
        signal.step(PacketView::Final).stopped,
        signal.step(PacketView::Final).samples == signal.samples,
        signal.step(PacketView::Final).spec == signal.spec,
{
}

/// Nothing is decoded but packets of the track, all of them are, and only the
/// end of the container ends the loop.
pub proof fn law_packets_of_the_track_are_decoded(track_id: u32, id: u32)
    ensures
        fetch_step(track_id, Fetched::Packet { track_id: id }) == (if id == track_id {
            FetchStep::Decode
        } else {
            FetchStep::Skip
        }),
        fetch_step(track_id, Fetched::Ended) == FetchStep::Stop,
{
}

/// The signal of two runs of packets is the one of the first, then the one of
/// the second; a block gives its samples, and no other packet any.
pub proof fn law_blocks_one_after_the_other<S>(a: Seq<PacketView<S>>, b: Seq<PacketView<S>>)
    ensures
        blocks_of(a + b) == blocks_of(a) + blocks_of(b),
        a.len() == 1 ==> blocks_of(a) == match a[0] {
            PacketView::Block { samples, .. } => samples,
            _ => Seq::empty(),
        },
    decreases b.len(),
{
    if a.len() == 1 {
        assert(a.drop_last() =~= Seq::<PacketView<S>>::empty());
        assert(blocks_of(a.drop_last()) =~= Seq::<S>::empty());
        if let PacketView::Block { samples, .. } = a[0] {
            assert(Seq::<S>::empty() + samples =~= samples);
        }
    }
    if b.len() == 0 {
        assert(a + b =~= a);
        assert(blocks_of(a) + blocks_of(b) =~= blocks_of(a));
    } else {
        law_blocks_one_after_the_other(a, b.drop_last());
        assert((a + b).drop_last() =~= a + b.drop_last());
        assert(blocks_of(a + b) =~= blocks_of(a) + blocks_of(b));
    }
}

/// An upload that cannot be decoded is reported with the reason as it is.
pub proof fn law_open_errors_hold_the_reason(e: OpenError, out: String)
    requires
        call_ensures(OpenError::message, (&e,), out),
    ensures
        match e {
            OpenError::Probe(reason) => out@ == "probe failed: "@ + reason@,
            OpenError::NoTrack => out@ == "no audio track"@,
            OpenError::Codec(reason) => out@ == "unsupported codec: "@ + reason@,
        },
{
}

} // verus!
