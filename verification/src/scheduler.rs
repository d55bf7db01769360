use vstd::prelude::*;

use crate::midi::{MidiChannel, MidiMessage, MidiNote, MidiVelocity};
use crate::sequencer::{Pattern, Step, Track};

verus! {

broadcast use vstd::seq_lib::group_to_multiset_ensures;

/// A sample-addressed block being scheduled.
#[derive(Clone, Copy, Debug, PartialEq, Eq, Structural)]
pub struct BlockPosition {
    pub start_sample: u64,
    pub frame_count: u32,
}

impl BlockPosition {
    /// One past the last sample of the block.
    pub open spec fn end_sample(self) -> int {
        self.start_sample + self.frame_count
    }

    pub open spec fn contains(self, sample: int) -> bool {
        self.start_sample <= sample < self.end_sample()
    }
}

/// A MIDI message positioned relative to the start of the caller's current block.
///
/// Backends convert `frame_offset` directly into their native sample-offset representation.
#[derive(Clone, Copy, Debug, PartialEq, Eq, Structural)]
pub struct TimedMidiEvent {
    pub frame_offset: u32,
    pub message: MidiMessage,
}

/// The number of events omitted because a realtime caller supplied insufficient storage.
#[derive(Clone, Copy, Debug, Default, PartialEq, Eq, Structural)]
pub struct DroppedEventCount(pub usize);

/// Stateless converter from a pattern plus a step clock into sample-positioned MIDI events.
#[derive(Clone, Copy, Debug, Default, PartialEq, Eq, Structural)]
pub struct Scheduler;

/// The step grid of the transport clock around one processing block, on the sample timeline.
///
/// `step_starts[i]` is the first sample of absolute step `first_step + i`; the steps cover every
/// step whose note could start, or end, inside the block. `gate_samples[p]` is the length in
/// samples of a gate of `p` percent of a step. The caller derives these from its sample rate and
/// tempo.
pub struct StepGrid {
    first_step: u64,
    step_starts: Vec<u64>,
    gate_samples: Vec<u64>,
}

/// A gate of `percent` percent, for `percent` from 0 through 100, is the entry at that index.
pub const GATE_TABLE_LEN: usize = 101;

/// The grid's values stay within the sample timeline: absolute step numbers and note ends fit.
pub open spec fn grid_fits(first_step: u64, step_starts: Seq<u64>, gate_samples: Seq<u64>) -> bool {
    &&& gate_samples.len() == GATE_TABLE_LEN
    &&& first_step + step_starts.len() <= u64::MAX
    &&& forall|i: int, p: int|
        0 <= i < step_starts.len() && 0 <= p < GATE_TABLE_LEN ==> step_starts[i] + gate_samples[p]
            <= u64::MAX
}

impl StepGrid {
    #[verifier::type_invariant]
    spec fn fits(self) -> bool {
        grid_fits(self.first_step, self.step_starts@, self.gate_samples@)
    }

    pub closed spec fn first(self) -> u64 {
        self.first_step
    }

    pub closed spec fn starts(self) -> Seq<u64> {
        self.step_starts@
    }

    pub closed spec fn gates(self) -> Seq<u64> {
        self.gate_samples@
    }

    /// The grid of these parts, or `None` if a gate length is missing for some percent 0..=100,
    /// or a step number or note end would not fit in a `u64`.
    pub fn new(first_step: u64, step_starts: Vec<u64>, gate_samples: Vec<u64>) -> (r: Option<Self>)
        ensures
            r is Some <==> grid_fits(first_step, step_starts@, gate_samples@),
            r matches Some(g) ==> g.first() == first_step && g.starts() == step_starts@
                && g.gates() == gate_samples@,
    {
        if gate_samples.len() != GATE_TABLE_LEN {
            return None;
        }
        if step_starts.len() as u64 > u64::MAX - first_step {
            return None;
        }
        let mut longest_gate: u64 = 0;
        let mut p: usize = 0;
        while p < GATE_TABLE_LEN
            invariant
                gate_samples@.len() == GATE_TABLE_LEN,
                p <= GATE_TABLE_LEN,
                forall|q: int| 0 <= q < p ==> gate_samples@[q] <= longest_gate,
                p > 0 ==> exists|q: int| 0 <= q < p && gate_samples@[q] == longest_gate,
                p == 0 ==> longest_gate == 0,
            decreases GATE_TABLE_LEN - p,
        {
            if gate_samples[p] > longest_gate {
                longest_gate = gate_samples[p];
            }
            p = p + 1;
        }
        let mut i: usize = 0;
        while i < step_starts.len()
            invariant
                i <= step_starts@.len(),
                gate_samples@.len() == GATE_TABLE_LEN,
                forall|k: int| 0 <= k < i ==> step_starts@[k] + longest_gate <= u64::MAX,
                forall|q: int| 0 <= q < GATE_TABLE_LEN ==> gate_samples@[q] <= longest_gate,
                exists|q: int| 0 <= q < GATE_TABLE_LEN && gate_samples@[q] == longest_gate,
            decreases step_starts@.len() - i,
        {
            if step_starts[i] > u64::MAX - longest_gate {
                let ghost q = choose|q: int| 0 <= q < GATE_TABLE_LEN && gate_samples@[q] == longest_gate;
                assert(step_starts@[i as int] + gate_samples@[q] > u64::MAX);
                return None;
            }
            i = i + 1;
        }
        Some(StepGrid { first_step, step_starts, gate_samples })
    }

    /// The number of steps in the grid.
    pub fn len(&self) -> (r: usize)
        ensures
            r == self.starts().len(),
    {
        self.step_starts.len()
    }
}

/// The clock data of one processing block, as a backend supplies it.
///
/// `position_samples` is absolute so the scheduler can reconstruct loop boundaries and note-offs
/// that began before the current block. `grid` is `None` when the clock's sample rate or tempo is
/// not a positive finite number.
pub struct StepClock {
    pub position_samples: u64,
    pub playing: bool,
    pub grid: Option<StepGrid>,
}

impl StepClock {
    pub open spec fn grid_len(self) -> nat {
        match self.grid {
            Some(g) => g.starts().len(),
            None => 0,
        }
    }
}

/// Whether a block produces any events at all: the transport rolls, the block and the pattern are
/// not empty, and the clock is usable.
pub open spec fn scheduling_active(pattern: Pattern, clock: StepClock, frame_count: u32) -> bool {
    &&& clock.playing
    &&& frame_count != 0
    &&& pattern.spec_step_count() != 0
    &&& pattern.steps_per_beat != 0
    &&& clock.grid is Some
}

/// What scheduling a block needs from the machine: the block's end sample fits in a `u64`, and the
/// events the block can produce (two per track and step at most) can be counted in a `usize`.
pub open spec fn block_fits(pattern: Pattern, clock: StepClock, frame_count: u32) -> bool {
    scheduling_active(pattern, clock, frame_count) ==> {
        &&& clock.position_samples + frame_count <= u64::MAX
        &&& 2 * pattern.tracks@.len() * clock.grid_len() <= usize::MAX
    }
}

pub open spec fn note_on_at(track: Track, step: Step, offset: int) -> TimedMidiEvent {
    TimedMidiEvent {
        frame_offset: offset as u32,
        message: MidiMessage::NoteOn { channel: track.channel, note: step.note, velocity: step.velocity },
    }
}

pub open spec fn note_off_at(track: Track, step: Step, offset: int) -> TimedMidiEvent {
    TimedMidiEvent {
        frame_offset: offset as u32,
        message: MidiMessage::NoteOff { channel: track.channel, note: step.note },
    }
}

/// The events of one enabled step of `track` whose note starts at sample `start` and lasts `gate`
/// samples: its note-on if the start lies in the block, then its note-off if the end does.
pub open spec fn note_events(
    track: Track,
    step: Step,
    start: int,
    gate: int,
    block: BlockPosition,
) -> Seq<TimedMidiEvent> {
    let on = if block.contains(start) {
        seq![note_on_at(track, step, start - block.start_sample)]
    } else {
        Seq::empty()
    };
    let off = if block.contains(start + gate) {
        seq![note_off_at(track, step, start + gate - block.start_sample)]
    } else {
        Seq::empty()
    };
    on + off
}

/// The events of `track` at step `pattern_step` of the loop, with that step starting at `start`.
/// A track shorter than the loop, or a disabled step, contributes nothing.
pub open spec fn track_events(
    track: Track,
    pattern_step: int,
    start: int,
    gates: Seq<u64>,
    block: BlockPosition,
) -> Seq<TimedMidiEvent> {
    if 0 <= pattern_step < track.steps@.len() && track.steps@[pattern_step].enabled {
        let step = track.steps@[pattern_step];
        note_events(track, step, start, gates[step.gate@ as int] as int, block)
    } else {
        Seq::empty()
    }
}

/// The events of the first `count` tracks at one step, track by track.
pub open spec fn step_events(
    tracks: Seq<Track>,
    count: nat,
    pattern_step: int,
    start: int,
    gates: Seq<u64>,
    block: BlockPosition,
) -> Seq<TimedMidiEvent>
    decreases count,
{
    if count == 0 {
        Seq::empty()
    } else {
        step_events(tracks, (count - 1) as nat, pattern_step, start, gates, block) + track_events(
            tracks[count - 1],
            pattern_step,
            start,
            gates,
            block,
        )
    }
}

/// The events of the first `count` steps of a grid, step by step; absolute step `first + i` plays
/// step `(first + i) % step_count` of the loop.
pub open spec fn scan_events(
    pattern: Pattern,
    first: u64,
    starts: Seq<u64>,
    gates: Seq<u64>,
    count: nat,
    block: BlockPosition,
) -> Seq<TimedMidiEvent>
    decreases count,
{
    if count == 0 {
        Seq::empty()
    } else {
        let i = count - 1;
        scan_events(pattern, first, starts, gates, (count - 1) as nat, block) + step_events(
            pattern.tracks@,
            pattern.tracks@.len(),
            (first + i) % (pattern.spec_step_count() as int),
            starts[i] as int,
            gates,
            block,
        )
    }
}

/// Every note event of the block, in the order of the scan: by absolute step, then by track,
/// a note-on before the note-off of the same note.
pub open spec fn block_events(pattern: Pattern, clock: StepClock, frame_count: u32) -> Seq<
    TimedMidiEvent,
> {
    if scheduling_active(pattern, clock, frame_count) {
        let grid = clock.grid.unwrap();
        scan_events(
            pattern,
            grid.first(),
            grid.starts(),
            grid.gates(),
            grid.starts().len(),
            BlockPosition { start_sample: clock.position_samples, frame_count },
        )
    } else {
        Seq::empty()
    }
}

/// Delivery order: by frame offset, and at one offset note-offs before note-ons.
pub open spec fn delivered_before(a: TimedMidiEvent, b: TimedMidiEvent) -> bool {
    ||| a.frame_offset < b.frame_offset
    ||| a.frame_offset == b.frame_offset && a.message.priority() <= b.message.priority()
}

/// The velocity a message carries on the wire (zero for a note-off).
pub open spec fn wire_velocity(message: MidiMessage) -> int {
    match message {
        MidiMessage::NoteOn { velocity, .. } => velocity@ as int,
        MidiMessage::NoteOff { .. } => 0,
    }
}

/// The complete delivery order: by frame offset, at one offset note-offs before note-ons, and then
/// by channel, note and velocity, so that no two different events tie.
pub open spec fn event_order(a: TimedMidiEvent, b: TimedMidiEvent) -> bool {
    ||| a.frame_offset < b.frame_offset
    ||| a.frame_offset == b.frame_offset && a.message.priority() < b.message.priority()
    ||| a.frame_offset == b.frame_offset && a.message.priority() == b.message.priority() && (
    a.message.channel_of()@ < b.message.channel_of()@ || a.message.channel_of()@
        == b.message.channel_of()@ && (a.message.note_of()@ < b.message.note_of()@
        || a.message.note_of()@ == b.message.note_of()@ && wire_velocity(a.message)
        <= wire_velocity(b.message)))
}

pub open spec fn in_delivery_order(events: Seq<TimedMidiEvent>) -> bool {
    forall|i: int, j: int| 0 <= i < j < events.len() ==> event_order(events[i], events[j])
}

/// Events in delivery order come by frame offset, and at one offset every note-off comes before
/// every note-on.
pub proof fn lemma_delivery_order_is_time_order(events: Seq<TimedMidiEvent>)
    requires
        in_delivery_order(events),
    ensures
        forall|i: int, j: int|
            0 <= i < j < events.len() ==> delivered_before(#[trigger] events[i], #[trigger] events[j]),
{
    assert forall|i: int, j: int| 0 <= i < j < events.len() implies delivered_before(
        #[trigger] events[i],
        #[trigger] events[j],
    ) by {
        assert(event_order(events[i], events[j]));
    }
}

/// The delivery order is a total order: two events that each come no later than the other are
/// the same event.
pub proof fn lemma_event_order_total()
    ensures
        vstd::relations::total_ordering(|a: TimedMidiEvent, b: TimedMidiEvent| event_order(a, b)),
{
    let leq = |a: TimedMidiEvent, b: TimedMidiEvent| event_order(a, b);
    assert forall|a: TimedMidiEvent, b: TimedMidiEvent| #[trigger] leq(a, b) && #[trigger] leq(b, a) implies a == b by {
        MidiChannel::lemma_view_eq(a.message.channel_of(), b.message.channel_of());
        MidiNote::lemma_view_eq(a.message.note_of(), b.message.note_of());
        match (a.message, b.message) {
            (MidiMessage::NoteOn { velocity: va, .. }, MidiMessage::NoteOn { velocity: vb, .. }) => {
                MidiVelocity::lemma_view_eq(va, vb);
            },
            _ => {},
        }
    }
    assert(vstd::relations::antisymmetric(leq));
    assert(vstd::relations::reflexive(leq));
    assert(vstd::relations::transitive(leq));
    assert(vstd::relations::strongly_connected(leq));
}

/// Delivery order leaves nothing open: two sequences in delivery order that hold the same events
/// are the same sequence.
pub proof fn lemma_delivery_order_unique(a: Seq<TimedMidiEvent>, b: Seq<TimedMidiEvent>)
    requires
        in_delivery_order(a),
        in_delivery_order(b),
        a.to_multiset() == b.to_multiset(),
    ensures
        a == b,
{
    let leq = |x: TimedMidiEvent, y: TimedMidiEvent| event_order(x, y);
    lemma_event_order_total();
    assert(vstd::relations::sorted_by(a, leq)) by {
        assert forall|i: int, j: int| 0 <= i < j < a.len() implies #[trigger] leq(a[i], a[j]) by {}
    }
    assert(vstd::relations::sorted_by(b, leq)) by {
        assert forall|i: int, j: int| 0 <= i < j < b.len() implies #[trigger] leq(b[i], b[j]) by {}
    }
    vstd::seq_lib::lemma_sorted_unique(a, b, leq);
}

/// `events` holds exactly the events of `expected`, each as often, in delivery order.
pub open spec fn delivers(events: Seq<TimedMidiEvent>, expected: Seq<TimedMidiEvent>) -> bool {
    &&& events.to_multiset() == expected.to_multiset()
    &&& in_delivery_order(events)
}


/// Every offset of the events in `events` lies inside a block of `frame_count` samples.
pub open spec fn within_block(events: Seq<TimedMidiEvent>, frame_count: u32) -> bool {
    forall|i: int| 0 <= i < events.len() ==> (#[trigger] events[i]).frame_offset < frame_count
}

proof fn lemma_step_events_within(
    tracks: Seq<Track>,
    count: nat,
    pattern_step: int,
    start: int,
    gates: Seq<u64>,
    block: BlockPosition,
)
    ensures
        within_block(step_events(tracks, count, pattern_step, start, gates, block), block.frame_count),
    decreases count,
{
    if count > 0 {
        lemma_step_events_within(tracks, (count - 1) as nat, pattern_step, start, gates, block);
        let head = step_events(tracks, (count - 1) as nat, pattern_step, start, gates, block);
        let tail = track_events(tracks[count - 1], pattern_step, start, gates, block);
        assert(within_block(tail, block.frame_count));
        assert(within_block(head + tail, block.frame_count)) by {
            assert forall|i: int| 0 <= i < (head + tail).len() implies (#[trigger] (head + tail)[i]).frame_offset
                < block.frame_count by {
                if i >= head.len() {
                    assert((head + tail)[i] == tail[i - head.len()]);
                }
            }
        }
    }
}

proof fn lemma_scan_events_within(
    pattern: Pattern,
    first: u64,
    starts: Seq<u64>,
    gates: Seq<u64>,
    count: nat,
    block: BlockPosition,
)
    ensures
        within_block(scan_events(pattern, first, starts, gates, count, block), block.frame_count),
    decreases count,
{
    if count > 0 {
        let i = count - 1;
        lemma_scan_events_within(pattern, first, starts, gates, (count - 1) as nat, block);
        let head = scan_events(pattern, first, starts, gates, (count - 1) as nat, block);
        let tail = step_events(
            pattern.tracks@,
            pattern.tracks@.len(),
            (first + i) % (pattern.spec_step_count() as int),
            starts[i] as int,
            gates,
            block,
        );
        lemma_step_events_within(
            pattern.tracks@,
            pattern.tracks@.len(),
            (first + i) % (pattern.spec_step_count() as int),
            starts[i] as int,
            gates,
            block,
        );
        assert forall|k: int| 0 <= k < (head + tail).len() implies (#[trigger] (head + tail)[k]).frame_offset
            < block.frame_count by {
            if k >= head.len() {
                assert((head + tail)[k] == tail[k - head.len()]);
            }
        }
    }
}

/// Every event the scheduler can produce for a block lies inside that block.
pub proof fn lemma_block_events_within(pattern: Pattern, clock: StepClock, frame_count: u32)
    ensures
        within_block(block_events(pattern, clock, frame_count), frame_count),
{
    if scheduling_active(pattern, clock, frame_count) {
        let grid = clock.grid.unwrap();
        lemma_scan_events_within(
            pattern,
            grid.first(),
            grid.starts(),
            grid.gates(),
            grid.starts().len(),
            BlockPosition { start_sample: clock.position_samples, frame_count },
        );
    }
}

/// Events with the same elements as part of the block's events lie inside the block too.
proof fn lemma_delivered_within(events: Seq<TimedMidiEvent>, all: Seq<TimedMidiEvent>, kept: int, frame_count: u32)
    requires
        0 <= kept <= all.len(),
        within_block(all, frame_count),
        events.to_multiset() == all.take(kept).to_multiset(),
    ensures
        within_block(events, frame_count),
{
    assert forall|i: int| 0 <= i < events.len() implies (#[trigger] events[i]).frame_offset < frame_count by {
        let e = events[i];
        assert(events.contains(e));
        assert(events.to_multiset().count(e) > 0);
        assert(all.take(kept).contains(e));
        let j = choose|j: int| 0 <= j < all.take(kept).len() && all.take(kept)[j] == e;
        assert(all[j] == e);
    }
}


/// The realtime form loses nothing silently: for the same block, the events it keeps and the count
/// it drops add up to what the growing form schedules, and each kept event is one of those (as
/// often at most).
pub proof fn lemma_bounded_schedule_accounts_for_all(
    pattern: Pattern,
    clock: StepClock,
    frame_count: u32,
    full: Seq<TimedMidiEvent>,
    kept: Seq<TimedMidiEvent>,
    dropped: usize,
)
    requires
        delivers(full, block_events(pattern, clock, frame_count)),
        kept.len() <= block_events(pattern, clock, frame_count).len(),
        dropped == block_events(pattern, clock, frame_count).len() - kept.len(),
        delivers(kept, block_events(pattern, clock, frame_count).take(kept.len() as int)),
    ensures
        kept.len() + dropped == full.len(),
        kept.to_multiset().subset_of(full.to_multiset()),
{
    broadcast use vstd::multiset::group_multiset_axioms;

    let all = block_events(pattern, clock, frame_count);
    let k = kept.len() as int;
    assert(full.len() == full.to_multiset().len());
    assert(all.len() == all.to_multiset().len());
    assert(all =~= all.take(k) + all.skip(k));
    vstd::seq_lib::lemma_multiset_commutative(all.take(k), all.skip(k));
    assert(kept.to_multiset().subset_of(full.to_multiset()));
}


/// The pattern loops: what a step plays depends only on its place in the loop, so moving the
/// grid's first absolute step by whole loops (over the same sample positions) schedules the same
/// events.
pub proof fn lemma_whole_loops_schedule_alike(
    pattern: Pattern,
    first: u64,
    shifted_first: u64,
    loops: nat,
    starts: Seq<u64>,
    gates: Seq<u64>,
    count: nat,
    block: BlockPosition,
)
    requires
        pattern.spec_step_count() > 0,
        shifted_first == first + loops * pattern.spec_step_count(),
    ensures
        scan_events(pattern, shifted_first, starts, gates, count, block) == scan_events(
            pattern,
            first,
            starts,
            gates,
            count,
            block,
        ),
    decreases count,
{
    if count > 0 {
        let i = count - 1;
        let m = pattern.spec_step_count() as int;
        lemma_whole_loops_schedule_alike(
            pattern,
            first,
            shifted_first,
            loops,
            starts,
            gates,
            (count - 1) as nat,
            block,
        );
        vstd::arithmetic::div_mod::lemma_mod_multiples_vanish(loops as int, first + i, m);
        assert(shifted_first + i == m * loops + (first + i)) by (nonlinear_arith)
            requires
                shifted_first == first + loops * m,
        ;
    }
}


/// The forms agree: any two results that deliver a block's events (the growing form, the form
/// into reused storage, or a limited form that kept everything) are the same sequence.
pub proof fn lemma_schedule_forms_agree(
    pattern: Pattern,
    clock: StepClock,
    frame_count: u32,
    first: Seq<TimedMidiEvent>,
    second: Seq<TimedMidiEvent>,
)
    requires
        delivers(first, block_events(pattern, clock, frame_count)),
        delivers(second, block_events(pattern, clock, frame_count)),
    ensures
        first == second,
{
    lemma_delivery_order_unique(first, second);
}

/// With room for every event, the limited form keeps exactly what the growing form schedules and
/// drops nothing.
pub proof fn lemma_limited_schedule_with_room(
    pattern: Pattern,
    clock: StepClock,
    frame_count: u32,
    limit: usize,
    full: Seq<TimedMidiEvent>,
    kept: Seq<TimedMidiEvent>,
    dropped: usize,
)
    requires
        delivers(full, block_events(pattern, clock, frame_count)),
        limit >= block_events(pattern, clock, frame_count).len(),
        ({
            let all = block_events(pattern, clock, frame_count);
            let k = kept_count(Some(limit), all.len());
            &&& kept.len() == k
            &&& dropped == all.len() - k
            &&& delivers(kept, all.take(k as int))
        }),
    ensures
        kept == full,
        dropped == 0,
{
    let all = block_events(pattern, clock, frame_count);
    assert(all.take(all.len() as int) =~= all);
    lemma_delivery_order_unique(kept, full);
}


proof fn lemma_step_events_shifted(
    tracks: Seq<Track>,
    count: nat,
    pattern_step: int,
    start: int,
    gates: Seq<u64>,
    block: BlockPosition,
    delta: int,
    shifted_block: BlockPosition,
)
    requires
        shifted_block.start_sample == block.start_sample + delta,
        shifted_block.frame_count == block.frame_count,
    ensures
        step_events(tracks, count, pattern_step, start + delta, gates, shifted_block) == step_events(
            tracks,
            count,
            pattern_step,
            start,
            gates,
            block,
        ),
    decreases count,
{
    if count > 0 {
        lemma_step_events_shifted(
            tracks,
            (count - 1) as nat,
            pattern_step,
            start,
            gates,
            block,
            delta,
            shifted_block,
        );
        let track = tracks[count - 1];
        if 0 <= pattern_step < track.steps@.len() && track.steps@[pattern_step].enabled {
            let step = track.steps@[pattern_step];
            let gate = gates[step.gate@ as int] as int;
            assert(note_events(track, step, start + delta, gate, shifted_block) =~= note_events(
                track,
                step,
                start,
                gate,
                block,
            ));
        }
    }
}

proof fn lemma_scan_events_shifted(
    pattern: Pattern,
    first: u64,
    shifted_first: u64,
    loops: nat,
    starts: Seq<u64>,
    shifted_starts: Seq<u64>,
    gates: Seq<u64>,
    count: nat,
    block: BlockPosition,
    delta: int,
    shifted_block: BlockPosition,
)
    requires
        pattern.spec_step_count() > 0,
        shifted_first == first + loops * pattern.spec_step_count(),
        count <= starts.len(),
        shifted_starts.len() == starts.len(),
        forall|i: int| 0 <= i < starts.len() ==> #[trigger] shifted_starts[i] == starts[i] + delta,
        shifted_block.start_sample == block.start_sample + delta,
        shifted_block.frame_count == block.frame_count,
    ensures
        scan_events(pattern, shifted_first, shifted_starts, gates, count, shifted_block) == scan_events(
            pattern,
            first,
            starts,
            gates,
            count,
            block,
        ),
    decreases count,
{
    if count > 0 {
        let i = count - 1;
        let m = pattern.spec_step_count() as int;
        lemma_scan_events_shifted(
            pattern,
            first,
            shifted_first,
            loops,
            starts,
            shifted_starts,
            gates,
            (count - 1) as nat,
            block,
            delta,
            shifted_block,
        );
        vstd::arithmetic::div_mod::lemma_mod_multiples_vanish(loops as int, first + i, m);
        assert(shifted_first + i == m * loops + (first + i)) by (nonlinear_arith)
            requires
                shifted_first == first + loops * m,
        ;
        assert(shifted_starts[i] as int == starts[i] + delta);
        lemma_step_events_shifted(
            pattern.tracks@,
            pattern.tracks@.len(),
            (first + i) % m,
            starts[i] as int,
            gates,
            block,
            delta,
            shifted_block,
        );
    }
}

/// The pattern loops in time: a clock moved later by whole loops (its grid's step numbers by
/// `loops` loops, its step starts and its position by the same number of samples) schedules the
/// same events for a block of the same length.
pub proof fn lemma_clock_shifted_by_whole_loops(
    pattern: Pattern,
    clock: StepClock,
    shifted: StepClock,
    frame_count: u32,
    loops: nat,
    delta: int,
)
    requires
        clock.grid is Some,
        shifted.grid is Some,
        shifted.playing == clock.playing,
        shifted.position_samples == clock.position_samples + delta,
        ({
            let grid = clock.grid.unwrap();
            let moved = shifted.grid.unwrap();
            &&& moved.first() == grid.first() + loops * pattern.spec_step_count()
            &&& moved.starts().len() == grid.starts().len()
            &&& forall|i: int|
                0 <= i < grid.starts().len() ==> #[trigger] moved.starts()[i] == grid.starts()[i]
                    + delta
            &&& moved.gates() == grid.gates()
        }),
    ensures
        block_events(pattern, shifted, frame_count) == block_events(pattern, clock, frame_count),
{
    if scheduling_active(pattern, clock, frame_count) {
        let grid = clock.grid.unwrap();
        let moved = shifted.grid.unwrap();
        lemma_scan_events_shifted(
            pattern,
            grid.first(),
            moved.first(),
            loops,
            grid.starts(),
            moved.starts(),
            grid.gates(),
            grid.starts().len(),
            BlockPosition { start_sample: clock.position_samples, frame_count },
            delta,
            BlockPosition { start_sample: shifted.position_samples, frame_count },
        );
    }
}


/// `event` is the note-on or the note-off of an enabled step of one of the pattern's tracks.
pub open spec fn from_enabled_step(pattern: Pattern, event: TimedMidiEvent) -> bool {
    exists|t: int, k: int|
        #![trigger pattern.tracks@[t].steps@[k]]
        0 <= t < pattern.tracks@.len() && 0 <= k < pattern.tracks@[t].steps@.len()
            && pattern.tracks@[t].steps@[k].enabled && (event.message == MidiMessage::NoteOn {
            channel: pattern.tracks@[t].channel,
            note: pattern.tracks@[t].steps@[k].note,
            velocity: pattern.tracks@[t].steps@[k].velocity,
        } || event.message == MidiMessage::NoteOff {
            channel: pattern.tracks@[t].channel,
            note: pattern.tracks@[t].steps@[k].note,
        })
}

/// Every event of `events` comes from an enabled step of the pattern.
pub open spec fn all_from_enabled_steps(pattern: Pattern, events: Seq<TimedMidiEvent>) -> bool {
    forall|i: int| 0 <= i < events.len() ==> from_enabled_step(pattern, #[trigger] events[i])
}

proof fn lemma_step_events_from_enabled_steps(
    pattern: Pattern,
    count: nat,
    pattern_step: int,
    start: int,
    gates: Seq<u64>,
    block: BlockPosition,
)
    requires
        count <= pattern.tracks@.len(),
    ensures
        all_from_enabled_steps(
            pattern,
            step_events(pattern.tracks@, count, pattern_step, start, gates, block),
        ),
    decreases count,
{
    if count > 0 {
        lemma_step_events_from_enabled_steps(
            pattern,
            (count - 1) as nat,
            pattern_step,
            start,
            gates,
            block,
        );
        let head = step_events(pattern.tracks@, (count - 1) as nat, pattern_step, start, gates, block);
        let t = count - 1;
        let tail = track_events(pattern.tracks@[t], pattern_step, start, gates, block);
        assert forall|i: int| 0 <= i < (head + tail).len() implies from_enabled_step(
            pattern,
            #[trigger] (head + tail)[i],
        ) by {
            if i >= head.len() {
                let e = (head + tail)[i];
                assert(e == tail[i - head.len()]);
                let k = pattern_step;
                assert(pattern.tracks@[t].steps@[k].enabled);
            }
        }
    }
}

proof fn lemma_scan_events_from_enabled_steps(
    pattern: Pattern,
    first: u64,
    starts: Seq<u64>,
    gates: Seq<u64>,
    count: nat,
    block: BlockPosition,
)
    ensures
        all_from_enabled_steps(pattern, scan_events(pattern, first, starts, gates, count, block)),
    decreases count,
{
    if count > 0 {
        let i = count - 1;
        lemma_scan_events_from_enabled_steps(pattern, first, starts, gates, (count - 1) as nat, block);
        let head = scan_events(pattern, first, starts, gates, (count - 1) as nat, block);
        let ps = (first + i) % (pattern.spec_step_count() as int);
        let tail = step_events(pattern.tracks@, pattern.tracks@.len(), ps, starts[i] as int, gates, block);
        lemma_step_events_from_enabled_steps(
            pattern,
            pattern.tracks@.len(),
            ps,
            starts[i] as int,
            gates,
            block,
        );
        assert forall|k: int| 0 <= k < (head + tail).len() implies from_enabled_step(
            pattern,
            #[trigger] (head + tail)[k],
        ) by {
            if k >= head.len() {
                assert((head + tail)[k] == tail[k - head.len()]);
            }
        }
    }
}

/// Every event the scheduler can produce for a block is the note-on or note-off of an enabled
/// step of one of the pattern's tracks, on that track's channel.
pub proof fn lemma_block_events_from_enabled_steps(pattern: Pattern, clock: StepClock, frame_count: u32)
    ensures
        all_from_enabled_steps(pattern, block_events(pattern, clock, frame_count)),
{
    if scheduling_active(pattern, clock, frame_count) {
        let grid = clock.grid.unwrap();
        lemma_scan_events_from_enabled_steps(
            pattern,
            grid.first(),
            grid.starts(),
            grid.gates(),
            grid.starts().len(),
            BlockPosition { start_sample: clock.position_samples, frame_count },
        );
    }
}

/// Events with the same elements as part of the block's events come from enabled steps too.
proof fn lemma_delivered_from_enabled_steps(
    pattern: Pattern,
    events: Seq<TimedMidiEvent>,
    all: Seq<TimedMidiEvent>,
    kept: int,
)
    requires
        0 <= kept <= all.len(),
        all_from_enabled_steps(pattern, all),
        events.to_multiset() == all.take(kept).to_multiset(),
    ensures
        all_from_enabled_steps(pattern, events),
{
    assert forall|i: int| 0 <= i < events.len() implies from_enabled_step(pattern, #[trigger] events[i]) by {
        let e = events[i];
        assert(events.contains(e));
        assert(events.to_multiset().count(e) > 0);
        assert(all.take(kept).contains(e));
        let j = choose|j: int| 0 <= j < all.take(kept).len() && all.take(kept)[j] == e;
        assert(all[j] == e);
    }
}


proof fn lemma_concat_contains(a: Seq<TimedMidiEvent>, b: Seq<TimedMidiEvent>, e: TimedMidiEvent)
    ensures
        (a + b).contains(e) <==> (a.contains(e) || b.contains(e)),
{
    if (a + b).contains(e) {
        let j = choose|j: int| 0 <= j < (a + b).len() && (a + b)[j] == e;
        if j < a.len() {
            assert(a[j] == e);
        } else {
            assert(b[j - a.len()] == e);
        }
    }
    if a.contains(e) {
        let j = choose|j: int| 0 <= j < a.len() && a[j] == e;
        assert((a + b)[j] == e);
    }
    if b.contains(e) {
        let j = choose|j: int| 0 <= j < b.len() && b[j] == e;
        assert((a + b)[a.len() + j] == e);
    }
}

proof fn lemma_step_events_contains(
    tracks: Seq<Track>,
    count: nat,
    pattern_step: int,
    start: int,
    gates: Seq<u64>,
    block: BlockPosition,
    e: TimedMidiEvent,
)
    ensures
        step_events(tracks, count, pattern_step, start, gates, block).contains(e) <==> exists|t: int|
            0 <= t < count && #[trigger] track_events(tracks[t], pattern_step, start, gates, block).contains(e),
    decreases count,
{
    if count > 0 {
        let c = (count - 1) as nat;
        lemma_step_events_contains(tracks, c, pattern_step, start, gates, block, e);
        lemma_concat_contains(
            step_events(tracks, c, pattern_step, start, gates, block),
            track_events(tracks[c as int], pattern_step, start, gates, block),
            e,
        );
        if exists|t: int| 0 <= t < count && #[trigger] track_events(tracks[t], pattern_step, start, gates, block).contains(e) {
            let t = choose|t: int| 0 <= t < count && #[trigger] track_events(tracks[t], pattern_step, start, gates, block).contains(e);
            if t < c {
                assert(exists|u: int| 0 <= u < c && #[trigger] track_events(tracks[u], pattern_step, start, gates, block).contains(e));
            }
        }
    }
}

proof fn lemma_scan_events_contains(
    pattern: Pattern,
    first: u64,
    starts: Seq<u64>,
    gates: Seq<u64>,
    count: nat,
    block: BlockPosition,
    e: TimedMidiEvent,
)
    ensures
        scan_events(pattern, first, starts, gates, count, block).contains(e) <==> exists|i: int|
            0 <= i < count && #[trigger] step_events(
                pattern.tracks@,
                pattern.tracks@.len(),
                (first + i) % (pattern.spec_step_count() as int),
                starts[i] as int,
                gates,
                block,
            ).contains(e),
    decreases count,
{
    if count > 0 {
        let c = (count - 1) as nat;
        lemma_scan_events_contains(pattern, first, starts, gates, c, block, e);
        lemma_concat_contains(
            scan_events(pattern, first, starts, gates, c, block),
            step_events(
                pattern.tracks@,
                pattern.tracks@.len(),
                (first + c) % (pattern.spec_step_count() as int),
                starts[c as int] as int,
                gates,
                block,
            ),
            e,
        );
        if exists|i: int|
            0 <= i < count && #[trigger] step_events(
                pattern.tracks@,
                pattern.tracks@.len(),
                (first + i) % (pattern.spec_step_count() as int),
                starts[i] as int,
                gates,
                block,
            ).contains(e) {
            let i = choose|i: int|
                0 <= i < count && #[trigger] step_events(
                    pattern.tracks@,
                    pattern.tracks@.len(),
                    (first + i) % (pattern.spec_step_count() as int),
                    starts[i] as int,
                    gates,
                    block,
                ).contains(e);
            if i < c {
                assert(exists|u: int|
                    0 <= u < c && #[trigger] step_events(
                        pattern.tracks@,
                        pattern.tracks@.len(),
                        (first + u) % (pattern.spec_step_count() as int),
                        starts[u] as int,
                        gates,
                        block,
                    ).contains(e));
            }
        }
    }
}

/// Whether step `k` of track `t` of the pattern is on.
pub open spec fn step_is_on(pattern: Pattern, t: int, k: int) -> bool {
    &&& 0 <= t < pattern.tracks@.len()
    &&& 0 <= k < pattern.tracks@[t].steps@.len()
    &&& pattern.tracks@[t].steps@[k].enabled
}

/// The step of the loop that plays at step `i` of the grid.
pub open spec fn loop_step(pattern: Pattern, grid: StepGrid, i: int) -> int {
    (grid.first() + i) % (pattern.spec_step_count() as int)
}

/// The sample at which the note of track `t` played at grid step `i` ends: its start plus the
/// length of that step's own gate.
pub open spec fn note_end_sample(pattern: Pattern, grid: StepGrid, i: int, t: int) -> int {
    grid.starts()[i] + grid.gates()[pattern.tracks@[t].steps@[loop_step(pattern, grid, i)].gate@ as int]
}

/// The note-on that track `t` sends at grid step `i`, at `offset` in the block: the track's
/// channel, with the note and velocity of the step that plays then.
pub open spec fn step_note_on(pattern: Pattern, grid: StepGrid, i: int, t: int, offset: int) -> TimedMidiEvent {
    TimedMidiEvent {
        frame_offset: offset as u32,
        message: MidiMessage::NoteOn {
            channel: pattern.tracks@[t].channel,
            note: pattern.tracks@[t].steps@[loop_step(pattern, grid, i)].note,
            velocity: pattern.tracks@[t].steps@[loop_step(pattern, grid, i)].velocity,
        },
    }
}

/// The note-off of that same note, at `offset` in the block.
pub open spec fn step_note_off(pattern: Pattern, grid: StepGrid, i: int, t: int, offset: int) -> TimedMidiEvent {
    TimedMidiEvent {
        frame_offset: offset as u32,
        message: MidiMessage::NoteOff {
            channel: pattern.tracks@[t].channel,
            note: pattern.tracks@[t].steps@[loop_step(pattern, grid, i)].note,
        },
    }
}

/// What a scheduled block holds, step by step. For every grid step `i` and track `t` whose step
/// playing then (`k = (first + i) % step_count`) is on:
/// - if the step starts inside the block, the schedule holds the note-on with that step's note and
///   velocity, at the step's start;
/// - if the note ends inside the block (the start plus that step's own gate length), the schedule
///   holds the note-off of that note there.
/// And every event of the schedule is one of these.
pub proof fn lemma_schedule_plays_each_step(
    pattern: Pattern,
    clock: StepClock,
    frame_count: u32,
    r: Seq<TimedMidiEvent>,
)
    requires
        scheduling_active(pattern, clock, frame_count),
        delivers(r, block_events(pattern, clock, frame_count)),
    ensures
        ({
            let grid = clock.grid.unwrap();
            let bs = clock.position_samples as int;
            let be = clock.position_samples + frame_count;
            &&& forall|i: int, t: int|
                #![trigger grid.starts()[i], pattern.tracks@[t]]
                0 <= i < grid.starts().len() && step_is_on(pattern, t, loop_step(pattern, grid, i))
                    ==> {
                    &&& bs <= grid.starts()[i] < be ==> r.contains(
                        step_note_on(pattern, grid, i, t, grid.starts()[i] - bs),
                    )
                    &&& bs <= note_end_sample(pattern, grid, i, t) < be ==> r.contains(
                        step_note_off(pattern, grid, i, t, note_end_sample(pattern, grid, i, t) - bs),
                    )
                }
            &&& forall|j: int|
                #![trigger r[j]]
                0 <= j < r.len() ==> exists|i: int, t: int|
                    #![trigger grid.starts()[i], pattern.tracks@[t]]
                    0 <= i < grid.starts().len() && step_is_on(pattern, t, loop_step(pattern, grid, i))
                        && ((bs <= grid.starts()[i] < be && r[j] == step_note_on(
                        pattern,
                        grid,
                        i,
                        t,
                        grid.starts()[i] - bs,
                    )) || (bs <= note_end_sample(pattern, grid, i, t) < be && r[j] == step_note_off(
                        pattern,
                        grid,
                        i,
                        t,
                        note_end_sample(pattern, grid, i, t) - bs,
                    )))
        }),
{
    let grid = clock.grid.unwrap();
    let bs = clock.position_samples as int;
    let be = clock.position_samples + frame_count;
    let block = BlockPosition { start_sample: clock.position_samples, frame_count };
    let all = block_events(pattern, clock, frame_count);
    let tracks = pattern.tracks@;
    let n = grid.starts().len();
    assert(all == scan_events(pattern, grid.first(), grid.starts(), grid.gates(), n, block));
    assert forall|e: TimedMidiEvent| r.contains(e) <==> all.contains(e) by {
        assert(r.to_multiset().count(e) == all.to_multiset().count(e));
    }
    assert forall|i: int, t: int|
        #![trigger grid.starts()[i], pattern.tracks@[t]]
        0 <= i < n && step_is_on(pattern, t, loop_step(pattern, grid, i)) implies {
        &&& bs <= grid.starts()[i] < be ==> r.contains(step_note_on(pattern, grid, i, t, grid.starts()[i] - bs))
        &&& bs <= note_end_sample(pattern, grid, i, t) < be ==> r.contains(
            step_note_off(pattern, grid, i, t, note_end_sample(pattern, grid, i, t) - bs),
        )
    } by {
        let k = loop_step(pattern, grid, i);
        let start = grid.starts()[i] as int;
        let te = track_events(tracks[t], k, start, grid.gates(), block);
        let on = step_note_on(pattern, grid, i, t, start - bs);
        let off = step_note_off(pattern, grid, i, t, note_end_sample(pattern, grid, i, t) - bs);
        let se = step_events(tracks, tracks.len(), k, start, grid.gates(), block);
        if bs <= start < be {
            assert(te[0] == on);
            assert(te.contains(on));
            lemma_step_events_contains(tracks, tracks.len(), k, start, grid.gates(), block, on);
            assert(se.contains(on));
            lemma_scan_events_contains(pattern, grid.first(), grid.starts(), grid.gates(), n, block, on);
            assert(all.contains(on));
        }
        if bs <= note_end_sample(pattern, grid, i, t) < be {
            let at = if bs <= start < be { 1int } else { 0int };
            assert(te[at] == off);
            assert(te.contains(off));
            lemma_step_events_contains(tracks, tracks.len(), k, start, grid.gates(), block, off);
            assert(se.contains(off));
            lemma_scan_events_contains(pattern, grid.first(), grid.starts(), grid.gates(), n, block, off);
            assert(all.contains(off));
        }
    }
    assert forall|j: int| #![trigger r[j]] 0 <= j < r.len() implies exists|i: int, t: int|
        #![trigger grid.starts()[i], pattern.tracks@[t]]
        0 <= i < n && step_is_on(pattern, t, loop_step(pattern, grid, i)) && ((bs <= grid.starts()[i]
            < be && r[j] == step_note_on(pattern, grid, i, t, grid.starts()[i] - bs)) || (bs
            <= note_end_sample(pattern, grid, i, t) < be && r[j] == step_note_off(
            pattern,
            grid,
            i,
            t,
            note_end_sample(pattern, grid, i, t) - bs,
        ))) by {
        let e = r[j];
        assert(r.contains(e));
        assert(all.contains(e));
        lemma_scan_events_contains(pattern, grid.first(), grid.starts(), grid.gates(), n, block, e);
        let i = choose|i: int|
            0 <= i < n && #[trigger] step_events(
                pattern.tracks@,
                pattern.tracks@.len(),
                (grid.first() + i) % (pattern.spec_step_count() as int),
                grid.starts()[i] as int,
                grid.gates(),
                block,
            ).contains(e);
        let k = loop_step(pattern, grid, i);
        let start = grid.starts()[i] as int;
        lemma_step_events_contains(tracks, tracks.len(), k, start, grid.gates(), block, e);
        let t = choose|t: int|
            0 <= t < tracks.len() && #[trigger] track_events(tracks[t], k, start, grid.gates(), block).contains(e);
        let te = track_events(tracks[t], k, start, grid.gates(), block);
        let q = choose|q: int| 0 <= q < te.len() && te[q] == e;
        assert(step_is_on(pattern, t, k));
        assert(grid.starts()[i] == grid.starts()[i] && pattern.tracks@[t] == pattern.tracks@[t]);
    }
}

/// How many of `n` offered events fit under `limit` (no limit: all of them).
pub open spec fn kept_count(limit: Option<usize>, n: nat) -> nat {
    match limit {
        None => n,
        Some(c) => if n < c {
            n
        } else {
            c as nat
        },
    }
}

proof fn lemma_step_events_len(
    tracks: Seq<Track>,
    count: nat,
    pattern_step: int,
    start: int,
    gates: Seq<u64>,
    block: BlockPosition,
)
    ensures
        step_events(tracks, count, pattern_step, start, gates, block).len() <= 2 * count,
    decreases count,
{
    if count > 0 {
        lemma_step_events_len(tracks, (count - 1) as nat, pattern_step, start, gates, block);
    }
}

proof fn lemma_scan_events_len(
    pattern: Pattern,
    first: u64,
    starts: Seq<u64>,
    gates: Seq<u64>,
    count: nat,
    block: BlockPosition,
)
    ensures
        scan_events(pattern, first, starts, gates, count, block).len() <= 2
            * pattern.tracks@.len() * count,
    decreases count,
{
    if count > 0 {
        let i = count - 1;
        lemma_scan_events_len(pattern, first, starts, gates, (count - 1) as nat, block);
        lemma_step_events_len(
            pattern.tracks@,
            pattern.tracks@.len(),
            (first + i) % (pattern.spec_step_count() as int),
            starts[i] as int,
            gates,
            block,
        );
        assert(2 * pattern.tracks@.len() * count == 2 * pattern.tracks@.len() * (count - 1) + 2
            * pattern.tracks@.len()) by (nonlinear_arith);
    }
}

/// Appends `event` unless a limit is given and `events` already holds that many.
fn push_event(events: &mut Vec<TimedMidiEvent>, event: TimedMidiEvent, limit: Option<usize>) -> (dropped: bool)
    ensures
        dropped == (limit matches Some(c) && old(events)@.len() >= c),
        dropped ==> final(events)@ == old(events)@,
        !dropped ==> final(events)@ == old(events)@.push(event),
{
    if let Some(c) = limit {
        if events.len() >= c {
            // The caller chose the hard realtime contract, so report the drop instead of growing.
            return true;
        }
    }
    events.push(event);
    false
}

/// Offers one generated event: after it, `events` holds the kept prefix of `generated.push(event)`
/// and `dropped` counts the rest.
fn offer_event(
    events: &mut Vec<TimedMidiEvent>,
    dropped: &mut usize,
    event: TimedMidiEvent,
    limit: Option<usize>,
    Ghost(generated): Ghost<Seq<TimedMidiEvent>>,
)
    requires
        old(events)@ == generated.take(kept_count(limit, generated.len()) as int),
        *old(dropped) == generated.len() - kept_count(limit, generated.len()),
        generated.len() < usize::MAX,
    ensures
        final(events)@ == generated.push(event).take(kept_count(limit, generated.len() + 1) as int),
        *final(dropped) == generated.len() + 1 - kept_count(limit, generated.len() + 1),
{
    let was_dropped = push_event(events, event, limit);
    if was_dropped {
        *dropped = *dropped + 1;
    }
    assert(final(events)@ =~= generated.push(event).take(
        kept_count(limit, generated.len() + 1) as int,
    ));
}

/// Swaps two neighbouring events.
fn swap_neighbours(events: &mut Vec<TimedMidiEvent>, k: usize)
    requires
        k + 1 < old(events)@.len(),
    ensures
        final(events)@ == old(events)@.update(k as int, old(events)@[k + 1]).update(
            k + 1,
            old(events)@[k as int],
        ),
        final(events)@.to_multiset() == old(events)@.to_multiset(),
{
    let n = events.len();
    let a = events[k];
    let b = events[k + 1];
    events.set(k, b);
    events.set(k + 1, a);
    proof {
        let s = old(events)@;
        vstd::seq_lib::to_multiset_update(s, k as int, b);
        vstd::seq_lib::to_multiset_update(s.update(k as int, b), k + 1, a);
        assert(s.update(k as int, b)[k + 1] == b);
        assert(s.to_multiset().insert(b).remove(a).insert(a).remove(b) =~= s.to_multiset()) by {
            broadcast use vstd::multiset::group_multiset_axioms;
            broadcast use vstd::multiset::group_multiset_properties;

            assert(s.to_multiset().count(a) > 0);
            assert(s.to_multiset().count(b) > 0);
        }
    }
}

/// The components of the delivery order of an event, in order of precedence.
fn order_key(e: &TimedMidiEvent) -> (k: (u32, u8, u8, u8, u8))
    ensures
        k.0 == e.frame_offset,
        k.1 == e.message.priority(),
        k.2 == e.message.channel_of()@,
        k.3 == e.message.note_of()@,
        k.4 == wire_velocity(e.message),
{
    match e.message {
        MidiMessage::NoteOn { channel, note, velocity } => (
            e.frame_offset,
            1,
            channel.get(),
            note.get(),
            velocity.get(),
        ),
        MidiMessage::NoteOff { channel, note } => (e.frame_offset, 0, channel.get(), note.get(), 0),
    }
}

/// Whether `a` has to be delivered before `b`, and not with or after it.
fn must_precede(a: &TimedMidiEvent, b: &TimedMidiEvent) -> (r: bool)
    ensures
        r == !event_order(*b, *a),
{
    let ka = order_key(a);
    let kb = order_key(b);
    ka.0 < kb.0 || (ka.0 == kb.0 && (ka.1 < kb.1 || (ka.1 == kb.1 && (ka.2 < kb.2 || (ka.2 == kb.2
        && (ka.3 < kb.3 || (ka.3 == kb.3 && ka.4 < kb.4)))))))
}

/// Sorts into delivery order, in place: a coincident note-off precedes a note-on, so a retrigger
/// is not immediately silenced.
fn sort_events(events: &mut Vec<TimedMidiEvent>)
    ensures
        final(events)@.to_multiset() == old(events)@.to_multiset(),
        final(events)@.len() == old(events)@.len(),
        in_delivery_order(final(events)@),
{
    let n = events.len();
    if n == 0 {
        return;
    }
    let mut i: usize = 1;
    while i < n
        invariant
            1 <= i <= n,
            events@.len() == n,
            events@.to_multiset() == old(events)@.to_multiset(),
            forall|a: int, b: int|
                0 <= a < b < i ==> event_order(#[trigger] events@[a], #[trigger] events@[b]),
        decreases n - i,
    {
        let mut j: usize = i;
        while j > 0 && must_precede(&events[j], &events[j - 1])
            invariant
                0 <= j <= i < n,
                events@.len() == n,
                events@.to_multiset() == old(events)@.to_multiset(),
                forall|a: int, b: int|
                    0 <= a < b <= i && a != j && b != j ==> event_order(
                        #[trigger] events@[a],
                        #[trigger] events@[b],
                    ),
                forall|b: int| j < b <= i ==> event_order(events@[j as int], #[trigger] events@[b]),
            decreases j,
        {
            swap_neighbours(events, j - 1);
            j = j - 1;
        }
        i = i + 1;
    }
}

impl Scheduler {
    /// Schedules one block into a new vector (for non-realtime callers and tests).
    pub fn schedule_midi_block(&self, pattern: &Pattern, clock: &StepClock, frame_count: u32) -> (r:
        Vec<TimedMidiEvent>)
        requires
            block_fits(*pattern, *clock, frame_count),
        ensures
            delivers(r@, block_events(*pattern, *clock, frame_count)),
            within_block(r@, frame_count),
            all_from_enabled_steps(*pattern, r@),
            !scheduling_active(*pattern, *clock, frame_count) ==> r@.len() == 0,
    {
        let mut events = Vec::new();
        self.schedule_midi_block_into(pattern, clock, frame_count, &mut events);
        events
    }

    /// Schedules one block into `events`, replacing what it held; it may grow the vector.
    pub fn schedule_midi_block_into(
        &self,
        pattern: &Pattern,
        clock: &StepClock,
        frame_count: u32,
        events: &mut Vec<TimedMidiEvent>,
    )
        requires
            block_fits(*pattern, *clock, frame_count),
        ensures
            delivers(final(events)@, block_events(*pattern, *clock, frame_count)),
            within_block(final(events)@, frame_count),
            all_from_enabled_steps(*pattern, final(events)@),
            !scheduling_active(*pattern, *clock, frame_count) ==> final(events)@.len() == 0,
    {
        proof {
            lemma_block_events_within(*pattern, *clock, frame_count);
            lemma_block_events_from_enabled_steps(*pattern, *clock, frame_count);
        }
        events.clear();
        if !clock.playing || frame_count == 0 || pattern.step_count() == 0 || pattern.steps_per_beat
            == 0 {
            return;
        }
        match &clock.grid {
            None => {},
            Some(grid) => {
                let block = BlockPosition { start_sample: clock.position_samples, frame_count };
                self.schedule_playing_block(pattern, grid, block, events, None);
                proof {
                    let all = block_events(*pattern, *clock, frame_count);
                    assert(all.take(all.len() as int) =~= all);
                    lemma_delivered_within(events@, all, all.len() as int, frame_count);
                    lemma_delivered_from_enabled_steps(*pattern, events@, all, all.len() as int);
                }
            },
        }
    }

    /// Schedules one block into `events`, keeping at most `limit` events: the first ones of the
    /// scan, in delivery order, with the count of the others.
    pub fn schedule_midi_block_into_limited(
        &self,
        pattern: &Pattern,
        clock: &StepClock,
        frame_count: u32,
        events: &mut Vec<TimedMidiEvent>,
        limit: usize,
    ) -> (r: DroppedEventCount)
        requires
            block_fits(*pattern, *clock, frame_count),
        ensures
            ({
                let all = block_events(*pattern, *clock, frame_count);
                let kept = kept_count(Some(limit), all.len());
                &&& final(events)@.len() == kept
                &&& r.0 == all.len() - kept
                &&& delivers(final(events)@, all.take(kept as int))
                &&& within_block(final(events)@, frame_count)
                &&& all_from_enabled_steps(*pattern, final(events)@)
            }),
    {
        proof {
            lemma_block_events_within(*pattern, *clock, frame_count);
            lemma_block_events_from_enabled_steps(*pattern, *clock, frame_count);
        }
        events.clear();
        assert(block_events(*pattern, *clock, frame_count).take(0) =~= Seq::<TimedMidiEvent>::empty());
        if !clock.playing || frame_count == 0 || pattern.step_count() == 0 || pattern.steps_per_beat
            == 0 {
            return DroppedEventCount(0);
        }
        match &clock.grid {
            None => DroppedEventCount(0),
            Some(grid) => {
                let block = BlockPosition { start_sample: clock.position_samples, frame_count };
                let dropped = self.schedule_playing_block(pattern, grid, block, events, Some(limit));
                proof {
                    let all = block_events(*pattern, *clock, frame_count);
                    lemma_delivered_within(events@, all, events@.len() as int, frame_count);
                    lemma_delivered_from_enabled_steps(*pattern, events@, all, events@.len() as int);
                }
                DroppedEventCount(dropped)
            },
        }
    }

    /// The audio-callback-safe form: it never grows `events` past the capacity it has, and counts
    /// the events that did not fit. The events kept are the first of the scan, in delivery order;
    /// how many fit is the vector's capacity, which its allocator decides.
    pub fn schedule_midi_block_into_existing_capacity(
        &self,
        pattern: &Pattern,
        clock: &StepClock,
        frame_count: u32,
        events: &mut Vec<TimedMidiEvent>,
    ) -> (r: DroppedEventCount)
        requires
            block_fits(*pattern, *clock, frame_count),
        ensures
            ({
                let all = block_events(*pattern, *clock, frame_count);
                &&& final(events)@.len() <= all.len()
                &&& r.0 == all.len() - final(events)@.len()
                &&& delivers(final(events)@, all.take(final(events)@.len() as int))
                &&& within_block(final(events)@, frame_count)
                &&& all_from_enabled_steps(*pattern, final(events)@)
            }),
    {
        events.clear();
        let capacity = vec_capacity(events);
        self.schedule_midi_block_into_limited(pattern, clock, frame_count, events, capacity)
    }

    fn schedule_playing_block(
        &self,
        pattern: &Pattern,
        grid: &StepGrid,
        block: BlockPosition,
        events: &mut Vec<TimedMidiEvent>,
        limit: Option<usize>,
    ) -> (dropped: usize)
        requires
            old(events)@.len() == 0,
            pattern.spec_step_count() != 0,
            block.start_sample + block.frame_count <= u64::MAX,
            2 * pattern.tracks@.len() * grid.starts().len() <= usize::MAX,
        ensures
            ({
                let all = scan_events(
                    *pattern,
                    grid.first(),
                    grid.starts(),
                    grid.gates(),
                    grid.starts().len(),
                    block,
                );
                let kept = kept_count(limit, all.len());
                &&& final(events)@.len() == kept
                &&& dropped == all.len() - kept
                &&& delivers(final(events)@, all.take(kept as int))
            }),
    {
        proof {
            use_type_invariant(grid);
        }
        let step_count = pattern.step_count();
        let block_start = block.start_sample;
        let block_end = block_start + block.frame_count as u64;
        let track_count = pattern.tracks.len();
        let step_total = grid.step_starts.len();
        let mut dropped: usize = 0;
        let ghost first = grid.first_step;
        let ghost starts = grid.step_starts@;
        let ghost gates = grid.gate_samples@;
        let ghost tracks = pattern.tracks@;
        let mut i: usize = 0;
        while i < step_total
            invariant
                i <= step_total,
                step_total == starts.len(),
                track_count == tracks.len(),
                tracks == pattern.tracks@,
                step_count == pattern.spec_step_count(),
                step_count > 0,
                block_end == block.end_sample(),
                block_start == block.start_sample,
                grid_fits(first, starts, gates),
                first == grid.first(),
                starts == grid.starts(),
                gates == grid.gates(),
                starts == grid.step_starts@,
                gates == grid.gate_samples@,
                first == grid.first_step,
                2 * track_count * step_total <= usize::MAX,
                ({
                    let generated = scan_events(*pattern, first, starts, gates, i as nat, block);
                    &&& events@ == generated.take(kept_count(limit, generated.len()) as int)
                    &&& dropped == generated.len() - kept_count(limit, generated.len())
                }),
            decreases step_total - i,
        {
            let ghost before_step = scan_events(*pattern, first, starts, gates, i as nat, block);
            proof {
                lemma_scan_events_len(*pattern, first, starts, gates, i as nat, block);
            }
            // Absolute steps establish time; modulo maps them back into the looping pattern.
            let absolute_step = grid.first_step + i as u64;
            let pattern_step = (absolute_step % step_count as u64) as usize;
            let note_start = grid.step_starts[i];
            let ghost mut generated = before_step;
            let mut t: usize = 0;
            while t < track_count
                invariant
                    t <= track_count,
                    i < step_total,
                    step_total == starts.len(),
                    track_count == tracks.len(),
                    tracks == pattern.tracks@,
                    block_end == block.end_sample(),
                    block_start == block.start_sample,
                    grid_fits(first, starts, gates),
                    gates == grid.gate_samples@,
                    note_start == starts[i as int],
                    pattern_step == (first + i) % (step_count as int),
                    before_step.len() <= 2 * track_count * i,
                    2 * track_count * step_total <= usize::MAX,
                    generated == before_step + step_events(
                        tracks,
                        t as nat,
                        pattern_step as int,
                        note_start as int,
                        gates,
                        block,
                    ),
                    events@ == generated.take(kept_count(limit, generated.len()) as int),
                    dropped == generated.len() - kept_count(limit, generated.len()),
                decreases track_count - t,
            {
                proof {
                    lemma_step_events_len(
                        tracks,
                        t as nat,
                        pattern_step as int,
                        note_start as int,
                        gates,
                        block,
                    );
                    assert(2 * track_count * i + 2 * t + 2 <= 2 * track_count * step_total)
                        by (nonlinear_arith)
                        requires
                            t < track_count,
                            i < step_total,
                    ;
                }
                let ghost at_track = generated;
                let track = &pattern.tracks[t];
                if pattern_step < track.steps.len() && track.steps[pattern_step].enabled {
                    let step = track.steps[pattern_step];
                    let percent = step.gate.percent();
                    let note_end = note_start + grid.gate_samples[percent as usize];
                    if note_start >= block_start && note_start < block_end {
                        let event = TimedMidiEvent {
                            frame_offset: (note_start - block_start) as u32,
                            message: MidiMessage::NoteOn {
                                channel: track.channel,
                                note: step.note,
                                velocity: step.velocity,
                            },
                        };
                        offer_event(events, &mut dropped, event, limit, Ghost(generated));
                        proof {
                            generated = generated.push(event);
                        }
                    }
                    if note_end >= block_start && note_end < block_end {
                        let event = TimedMidiEvent {
                            frame_offset: (note_end - block_start) as u32,
                            message: MidiMessage::NoteOff { channel: track.channel, note: step.note },
                        };
                        offer_event(events, &mut dropped, event, limit, Ghost(generated));
                        proof {
                            generated = generated.push(event);
                        }
                    }
                    assert(generated =~= at_track + track_events(
                        tracks[t as int],
                        pattern_step as int,
                        note_start as int,
                        gates,
                        block,
                    ));
                } else {
                    assert(generated =~= at_track + track_events(
                        tracks[t as int],
                        pattern_step as int,
                        note_start as int,
                        gates,
                        block,
                    ));
                }
                assert(generated =~= before_step + step_events(
                    tracks,
                    (t + 1) as nat,
                    pattern_step as int,
                    note_start as int,
                    gates,
                    block,
                ));
                t = t + 1;
            }
            assert(generated =~= scan_events(*pattern, first, starts, gates, (i + 1) as nat, block));
            i = i + 1;
        }
        let ghost all = scan_events(*pattern, first, starts, gates, step_total as nat, block);
        let ghost unsorted = events@;
        // `sort` keeps the multiset and puts the kept events in delivery order.
        sort_events(events);
        assert(unsorted =~= all.take(kept_count(limit, all.len()) as int));
        dropped
    }
}

/// `Vec::capacity`: how many events `events` can hold without reallocating. std documents it as
/// at least the length; what else it is depends on the allocator, and is not stated.
#[verifier::external_body]
fn vec_capacity(events: &Vec<TimedMidiEvent>) -> (c: usize)
    ensures
        c >= events@.len(),
{
    events.capacity()
}

} // verus!
