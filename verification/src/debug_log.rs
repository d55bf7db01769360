use vstd::prelude::*;

use crate::midi::MidiMessage;
use crate::ring::EventRing;
use crate::text::{
    decimal_text, hex_byte_text, push_decimal, push_hex_byte, push_signed_decimal,
    signed_decimal_text,
};

verus! {

/// Slots of the diagnostic event queue.
pub const DEBUG_LOG_QUEUE_CAPACITY: usize = 512;

/// Identifies whether ALSA accepted a sequenced event or an active-note cleanup message.
#[derive(Clone, Copy, Debug, PartialEq, Eq, Structural)]
pub enum DebugMidiEventKind {
    Scheduled,
    Cleanup,
}

/// One diagnostic of the ALSA bridge.
#[derive(Clone, Copy, Debug, PartialEq, Eq, Structural)]
pub enum DebugMidiEvent {
    Midi { message: MidiMessage, kind: DebugMidiEventKind },
    AlsaOutputError(i32),
}

pub open spec fn kind_text(kind: DebugMidiEventKind) -> Seq<char> {
    match kind {
        DebugMidiEventKind::Scheduled => "scheduled"@,
        DebugMidiEventKind::Cleanup => "cleanup"@,
    }
}

/// ` bytes=[99, 24, 64]`: the wire bytes of a message in upper-case hexadecimal.
pub open spec fn bytes_text(bytes: Seq<u8>) -> Seq<char> {
    " bytes=["@ + hex_byte_text(bytes[0]) + ", "@ + hex_byte_text(bytes[1]) + ", "@ + hex_byte_text(
        bytes[2],
    ) + "]"@
}

/// The line that reports a diagnostic. A successful ALSA send only proves ALSA accepted the event
/// for subscribers; it cannot prove that a receiver processed it.
pub open spec fn debug_line(event: DebugMidiEvent) -> Seq<char> {
    match event {
        DebugMidiEvent::Midi { message, kind } => match message {
            MidiMessage::NoteOn { channel, note, velocity } => "DEBUG purewave: ALSA bridge sent "@
                + kind_text(kind) + " note-on channel="@ + decimal_text(channel@ as nat) + " note="@
                + decimal_text(note@ as nat) + " velocity="@ + decimal_text(velocity@ as nat)
                + bytes_text(message.wire_bytes()),
            MidiMessage::NoteOff { channel, note } => "DEBUG purewave: ALSA bridge sent "@ + kind_text(
                kind,
            ) + " note-off channel="@ + decimal_text(channel@ as nat) + " note="@ + decimal_text(
                note@ as nat,
            ) + bytes_text(message.wire_bytes()),
        },
        DebugMidiEvent::AlsaOutputError(code) => "Purewave ALSA bridge encountered an output error: "@
            + signed_decimal_text(code as int),
    }
}

/// The line that reports diagnostics lost to a full queue.
pub open spec fn dropped_line(count: usize) -> Seq<char> {
    "DEBUG purewave: dropped "@ + decimal_text(count as nat)
        + " MIDI diagnostic events because the debug logger was busy"@
}

fn push_bytes(text: &mut String, bytes: [u8; 3])
    ensures
        final(text)@ == old(text)@ + bytes_text(bytes@),
{
    text.push_str(" bytes=[");
    push_hex_byte(text, bytes[0]);
    text.push_str(", ");
    push_hex_byte(text, bytes[1]);
    text.push_str(", ");
    push_hex_byte(text, bytes[2]);
    text.push_str("]");
    assert(final(text)@ =~= old(text)@ + bytes_text(bytes@));
}

/// Formats one diagnostic as the line the logger writes.
pub fn format_debug_midi_event(event: DebugMidiEvent) -> (r: String)
    ensures
        r@ == debug_line(event),
{
    let mut line = String::new();
    match event {
        DebugMidiEvent::Midi { message, kind } => {
            let bytes = message.bytes();
            line.push_str("DEBUG purewave: ALSA bridge sent ");
            match kind {
                DebugMidiEventKind::Scheduled => line.push_str("scheduled"),
                DebugMidiEventKind::Cleanup => line.push_str("cleanup"),
            }
            match message {
                MidiMessage::NoteOn { channel, note, velocity } => {
                    line.push_str(" note-on channel=");
                    push_decimal(&mut line, channel.get() as u64);
                    line.push_str(" note=");
                    push_decimal(&mut line, note.get() as u64);
                    line.push_str(" velocity=");
                    push_decimal(&mut line, velocity.get() as u64);
                },
                MidiMessage::NoteOff { channel, note } => {
                    line.push_str(" note-off channel=");
                    push_decimal(&mut line, channel.get() as u64);
                    line.push_str(" note=");
                    push_decimal(&mut line, note.get() as u64);
                },
            }
            push_bytes(&mut line, bytes);
        },
        DebugMidiEvent::AlsaOutputError(code) => {
            line.push_str("Purewave ALSA bridge encountered an output error: ");
            push_signed_decimal(&mut line, code);
        },
    }
    assert(line@ =~= debug_line(event));
    line
}

/// Bounded diagnostic storage between the ALSA bridge and the logger: a ring of pending events,
/// a count of events lost because the ring was full, and one reserved slot for an output error
/// (zero when none is pending) that a full ring cannot crowd out.
pub struct DebugMidiLogQueue {
    events: EventRing<DebugMidiEvent>,
    dropped_event_count: usize,
    output_error_code: i32,
}

impl DebugMidiLogQueue {
    pub closed spec fn wf(self) -> bool {
        &&& self.events.wf()
        &&& self.events.slot_count() == DEBUG_LOG_QUEUE_CAPACITY
    }

    /// The pending events, oldest first.
    pub closed spec fn pending(self) -> Seq<DebugMidiEvent> {
        self.events.items()
    }

    pub closed spec fn dropped(self) -> usize {
        self.dropped_event_count
    }

    pub closed spec fn error_code(self) -> i32 {
        self.output_error_code
    }

    pub fn new() -> (r: Self)
        ensures
            r.wf(),
            r.pending() == Seq::<DebugMidiEvent>::empty(),
            r.dropped() == 0,
            r.error_code() == 0,
    {
        DebugMidiLogQueue {
            events: EventRing::new(DEBUG_LOG_QUEUE_CAPACITY),
            dropped_event_count: 0,
            output_error_code: 0,
        }
    }

    /// Queues `event` unless the ring is full; `false` means it was not queued.
    pub fn try_push(&mut self, event: DebugMidiEvent) -> (pushed: bool)
        requires
            old(self).wf(),
        ensures
            final(self).wf(),
            pushed <==> old(self).pending().len() < DEBUG_LOG_QUEUE_CAPACITY - 1,
            pushed ==> final(self).pending() == old(self).pending().push(event),
            !pushed ==> final(self).pending() == old(self).pending(),
            final(self).dropped() == old(self).dropped(),
            final(self).error_code() == old(self).error_code(),
    {
        self.events.try_push(event)
    }

    /// Takes the oldest pending event.
    pub fn try_pop(&mut self) -> (r: Option<DebugMidiEvent>)
        requires
            old(self).wf(),
        ensures
            final(self).wf(),
            old(self).pending().len() == 0 ==> r is None && final(self).pending() == old(self).pending(),
            old(self).pending().len() > 0 ==> r == Some(old(self).pending()[0]) && final(self).pending() == old(self).pending().drop_first(),
            final(self).dropped() == old(self).dropped(),
            final(self).error_code() == old(self).error_code(),
    {
        self.events.try_pop()
    }

    pub fn is_empty(&self) -> (r: bool)
        requires
            self.wf(),
        ensures
            r == (self.pending().len() == 0),
    {
        self.events.is_empty()
    }

    pub fn has_output_error(&self) -> (r: bool)
        ensures
            r == (self.error_code() != 0),
    {
        self.output_error_code != 0
    }

    /// The number of events lost since the logger last read it.
    pub fn dropped_event_count(&self) -> (r: usize)
        ensures
            r == self.dropped(),
    {
        self.dropped_event_count
    }

    /// Counts one lost event (wrapping, as an atomic counter does).
    fn record_dropped_event(&mut self)
        ensures
            final(self).dropped() == old(self).dropped().wrapping_add(1),
            final(self).pending() == old(self).pending(),
            final(self).error_code() == old(self).error_code(),
            final(self).wf() == old(self).wf(),
    {
        self.dropped_event_count = self.dropped_event_count.wrapping_add(1);
    }

    /// Keeps `code` in the reserved slot unless an earlier error is still pending there.
    fn offer_output_error(&mut self, code: i32)
        ensures
            final(self).error_code() == if old(self).error_code() == 0 {
                code
            } else {
                old(self).error_code()
            },
            final(self).pending() == old(self).pending(),
            final(self).dropped() == old(self).dropped(),
            final(self).wf() == old(self).wf(),
    {
        if self.output_error_code == 0 {
            self.output_error_code = code;
        }
    }

    /// Empties the reserved slot and returns what it held.
    fn take_output_error(&mut self) -> (r: i32)
        ensures
            r == old(self).error_code(),
            final(self).error_code() == 0,
            final(self).pending() == old(self).pending(),
            final(self).dropped() == old(self).dropped(),
            final(self).wf() == old(self).wf(),
    {
        let code = self.output_error_code;
        self.output_error_code = 0;
        code
    }

    /// Resets the lost-event count and returns it.
    fn take_dropped_event_count(&mut self) -> (r: usize)
        ensures
            r == old(self).dropped(),
            final(self).dropped() == 0,
            final(self).pending() == old(self).pending(),
            final(self).error_code() == old(self).error_code(),
            final(self).wf() == old(self).wf(),
    {
        let count = self.dropped_event_count;
        self.dropped_event_count = 0;
        count
    }
}

/// The sending side of the diagnostics: per-event messages are opt-in, while an ALSA output error
/// is always kept.
#[derive(Clone, Copy, Debug)]
pub struct DebugMidiLogProducer {
    midi_event_logging_enabled: bool,
}

impl DebugMidiLogProducer {
    pub closed spec fn logs_midi_events(self) -> bool {
        self.midi_event_logging_enabled
    }

    pub fn new(midi_event_logging_enabled: bool) -> (r: Self)
        ensures
            r.logs_midi_events() == midi_event_logging_enabled,
    {
        DebugMidiLogProducer { midi_event_logging_enabled }
    }

    /// Reports that ALSA accepted `message`, when per-event logging is on. A full queue loses the
    /// report and counts it.
    pub fn log(&self, queue: &mut DebugMidiLogQueue, message: MidiMessage, kind: DebugMidiEventKind)
        requires
            old(queue).wf(),
        ensures
            final(queue).wf(),
            final(queue).error_code() == old(queue).error_code(),
            !self.logs_midi_events() ==> final(queue).pending() == old(queue).pending()
                && final(queue).dropped() == old(queue).dropped(),
            self.logs_midi_events() ==> if old(queue).pending().len() < DEBUG_LOG_QUEUE_CAPACITY - 1 {
                &&& final(queue).pending() == old(queue).pending().push(
                    DebugMidiEvent::Midi { message, kind },
                )
                &&& final(queue).dropped() == old(queue).dropped()
            } else {
                &&& final(queue).pending() == old(queue).pending()
                &&& final(queue).dropped() == old(queue).dropped().wrapping_add(1)
            },
    {
        if self.midi_event_logging_enabled {
            self.push(queue, DebugMidiEvent::Midi { message, kind });
        }
    }

    /// Reports an ALSA output error in the reserved slot, so that a full event queue cannot hide a
    /// bridge failure: the first nonzero code is kept until the logger reads it.
    pub fn log_alsa_output_error(&self, queue: &mut DebugMidiLogQueue, code: i32)
        requires
            old(queue).wf(),
        ensures
            final(queue).wf(),
            final(queue).error_code() == if old(queue).error_code() == 0 {
                code
            } else {
                old(queue).error_code()
            },
            final(queue).pending() == old(queue).pending(),
            final(queue).dropped() == old(queue).dropped(),
    {
        queue.offer_output_error(code);
    }

    fn push(&self, queue: &mut DebugMidiLogQueue, event: DebugMidiEvent)
        requires
            old(queue).wf(),
        ensures
            final(queue).wf(),
            final(queue).error_code() == old(queue).error_code(),
            if old(queue).pending().len() < DEBUG_LOG_QUEUE_CAPACITY - 1 {
                &&& final(queue).pending() == old(queue).pending().push(event)
                &&& final(queue).dropped() == old(queue).dropped()
            } else {
                &&& final(queue).pending() == old(queue).pending()
                &&& final(queue).dropped() == old(queue).dropped().wrapping_add(1)
            },
    {
        if !queue.try_push(event) {
            queue.record_dropped_event();
        }
    }
}

/// The lines one drain writes: the pending output error first (so that a bridge failure is not
/// buried behind a backlog of note events), then every pending event in order, then the count of
/// lost events, each only when there is something to report.
pub open spec fn drained_lines(error_code: i32, pending: Seq<DebugMidiEvent>, dropped: usize) -> Seq<
    Seq<char>,
> {
    (if error_code != 0 {
        seq![debug_line(DebugMidiEvent::AlsaOutputError(error_code))]
    } else {
        Seq::empty()
    }) + pending.map_values(|event: DebugMidiEvent| debug_line(event)) + (if dropped != 0 {
        seq![dropped_line(dropped)]
    } else {
        Seq::empty()
    })
}

/// Drains everything the queue holds into report lines; `wrote_event` tells whether there was
/// anything to write.
pub fn drain_debug_midi_events(queue: &mut DebugMidiLogQueue) -> (r: (bool, Vec<String>))
    requires
        old(queue).wf(),
    ensures
        final(queue).wf(),
        final(queue).pending().len() == 0,
        final(queue).error_code() == 0,
        final(queue).dropped() == 0,
        r.1@.map_values(|line: String| line@) == drained_lines(
            old(queue).error_code(),
            old(queue).pending(),
            old(queue).dropped(),
        ),
        r.0 == (r.1@.len() > 0),
{
    let ghost start = *queue;
    let mut lines: Vec<String> = Vec::new();
    let mut wrote_event = false;
    let output_error_code = queue.take_output_error();
    if output_error_code != 0 {
        lines.push(format_debug_midi_event(DebugMidiEvent::AlsaOutputError(output_error_code)));
        wrote_event = true;
    }
    let ghost head = lines@.map_values(|line: String| line@);
    assert(head =~= if output_error_code != 0 {
        seq![debug_line(DebugMidiEvent::AlsaOutputError(output_error_code))]
    } else {
        Seq::<Seq<char>>::empty()
    });
    let ghost mut taken: nat = 0;
    loop
        invariant
            queue.wf(),
            queue.error_code() == 0,
            queue.dropped() == start.dropped(),
            taken <= start.pending().len(),
            queue.pending() == start.pending().skip(taken as int),
            lines@.map_values(|line: String| line@) == head + start.pending().take(
                taken as int,
            ).map_values(|event: DebugMidiEvent| debug_line(event)),
            wrote_event == (lines@.len() > 0),
        ensures
            queue.wf(),
            queue.error_code() == 0,
            queue.dropped() == start.dropped(),
            queue.pending().len() == 0,
            lines@.map_values(|line: String| line@) == head + start.pending().map_values(
                |event: DebugMidiEvent| debug_line(event),
            ),
            wrote_event == (lines@.len() > 0),
        decreases queue.pending().len(),
    {
        let ghost before = lines@;
        match queue.try_pop() {
            Some(event) => {
                let line = format_debug_midi_event(event);
                lines.push(line);
                wrote_event = true;
                proof {
                    let old_taken = taken;
                    assert(event == start.pending()[old_taken as int]);
                    assert(start.pending().take((old_taken + 1) as int) =~= start.pending().take(
                        old_taken as int,
                    ).push(event));
                    assert(lines@.map_values(|line: String| line@) =~= before.map_values(
                        |line: String| line@,
                    ).push(debug_line(event)));
                    taken = taken + 1;
                    assert(start.pending().skip(taken as int) =~= start.pending().skip(
                        old_taken as int,
                    ).drop_first());
                    assert(lines@.map_values(|line: String| line@) =~= head + start.pending().take(
                        taken as int,
                    ).map_values(|event: DebugMidiEvent| debug_line(event)));
                }
            },
            None => {
                proof {
                    assert(start.pending().take(taken as int) =~= start.pending());
                }
                break ;
            },
        }
    }
    let dropped_event_count = queue.take_dropped_event_count();
    if dropped_event_count != 0 {
        let mut line = String::new();
        line.push_str("DEBUG purewave: dropped ");
        push_decimal(&mut line, dropped_event_count as u64);
        line.push_str(" MIDI diagnostic events because the debug logger was busy");
        assert(line@ =~= dropped_line(dropped_event_count));
        lines.push(line);
        wrote_event = true;
    }
    assert(lines@.map_values(|line: String| line@) =~= drained_lines(
        start.error_code(),
        start.pending(),
        start.dropped(),
    ));
    (wrote_event, lines)
}

} // verus!
